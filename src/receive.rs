//! Receiving snapshots over a publish/subscribe socket.
//!
//! Every logical message is an envelope of exactly two parts: a topic, which
//! is discarded, and a payload. An envelope of any other shape carries no
//! message; the connection stays open.

use vstd::prelude::*;
use vstd::slice::slice_to_vec;
use vstd::string::{StrSliceExecFns, StringExecFns};

use crate::snapshot::{decode, spec_decode, DecodeError, Snapshot};

verus! {

#[verifier::external_type_specification]
#[verifier::external_body]
pub struct ExContext(zmq::Context);

#[verifier::external_type_specification]
#[verifier::external_body]
pub struct ExSocket(zmq::Socket);

#[verifier::external_type_specification]
#[verifier::external_body]
pub struct ExError(zmq::Error);

/// Whether a text holds the NUL character, the one character whose UTF-8
/// encoding holds a zero byte.
pub open spec fn has_nul(s: Seq<char>) -> bool {
    exists|i: int| 0 <= i < s.len() && s[i] == '\0'
}

/// The character of a decimal digit.
pub open spec fn digit_char(d: nat) -> char {
    if d == 0 {
        '0'
    } else if d == 1 {
        '1'
    } else if d == 2 {
        '2'
    } else if d == 3 {
        '3'
    } else if d == 4 {
        '4'
    } else if d == 5 {
        '5'
    } else if d == 6 {
        '6'
    } else if d == 7 {
        '7'
    } else if d == 8 {
        '8'
    } else {
        '9'
    }
}

/// The decimal digits of `n`, most significant first, without leading zeros.
pub open spec fn decimal(n: nat) -> Seq<char>
    decreases n,
{
    if n < 10 {
        seq![digit_char(n)]
    } else {
        decimal(n / 10).push(digit_char(n % 10))
    }
}

/// The address of a TCP endpoint: `tcp://<host>:<port>`.
pub open spec fn tcp_endpoint_spec(host: Seq<char>, port: u64) -> Seq<char> {
    seq!['t', 'c', 'p', ':', '/', '/'] + host + seq![':'] + decimal(port as nat)
}

/// Relies on zmq::Context::socket to make a SUB socket.
#[verifier::external_body]
fn open_subscriber(ctx: &zmq::Context) -> (r: Result<zmq::Socket, zmq::Error>) {
    ctx.socket(zmq::SUB)
}

/// Relies on zmq::Socket::connect; it panics on an address whose bytes hold
/// a zero, which in UTF-8 only the NUL character gives.
#[verifier::external_body]
fn connect(socket: &zmq::Socket, endpoint: &str) -> (r: Result<(), zmq::Error>)
    requires
        !has_nul(endpoint@),
{
    socket.connect(endpoint)
}

/// Relies on zmq::Socket::set_subscribe to deliver only messages whose first
/// part starts with `topic`.
#[verifier::external_body]
fn subscribe(socket: &zmq::Socket, topic: &[u8]) -> (r: Result<(), zmq::Error>) {
    socket.set_subscribe(topic)
}

/// Relies on zmq::Socket::recv_multipart, which on success returns at least
/// one part; when `block` is false it does not wait for a message.
#[verifier::external_body]
fn recv_parts(socket: &zmq::Socket, block: bool) -> (r: Result<Vec<Vec<u8>>, zmq::Error>)
    ensures
        r matches Ok(parts) ==> parts@.len() >= 1,
{
    socket.recv_multipart(if block { 0 } else { zmq::DONTWAIT })
}

/// Why a receiver could not be set up.
#[derive(Debug)]
pub enum ConnectError {
    /// The host name holds a zero byte, which no address can.
    InvalidHost,
    /// The socket could not be created.
    Socket(zmq::Error),
    /// The socket could not connect to the address.
    Connect(zmq::Error),
    /// The topic filter could not be set.
    Subscribe(zmq::Error),
}

/// A source of raw message buffers.
pub trait Receive {
    /// The payload of the next message, if one is available now (or, when
    /// `block` is set, once one arrives).
    fn receive_buffer(&mut self, block: bool) -> Option<Vec<u8>>;
}

/// The payload of an envelope: its second part, when it has exactly two.
pub open spec fn spec_payload(parts: Seq<Vec<u8>>) -> Option<Vec<u8>> {
    if parts.len() == 2 {
        Some(parts[1])
    } else {
        None
    }
}

/// The payload of an envelope of exactly two parts; any other envelope
/// carries no message.
pub fn envelope_payload(parts: Vec<Vec<u8>>) -> (r: Option<Vec<u8>>)
    ensures
        r == spec_payload(parts@),
{
    let mut parts = parts;
    if parts.len() != 2 {
        return None;
    }
    parts.pop()
}

/// The payload of what one receive call on a socket gave: nothing when the
/// call failed (as it does, without waiting, when a non-blocking call finds
/// nothing buffered), else the payload of the envelope.
pub fn message_of(received: Result<Vec<Vec<u8>>, zmq::Error>) -> (r: Option<Vec<u8>>)
    ensures
        r == match received {
            Err(_) => None,
            Ok(p) => spec_payload(p@),
        },
{
    match received {
        Ok(parts) => envelope_payload(parts),
        Err(_) => None,
    }
}

/// Whether `x` is what decoding `b` gives.
pub open spec fn decodes_to(b: Seq<u8>, x: Result<Snapshot, DecodeError>) -> bool {
    match spec_decode(b) {
        Ok(v) => x matches Ok(s) && s@ == v,
        Err(e) => x == Err::<Snapshot, DecodeError>(e),
    }
}

/// The snapshot that what one receive call on a socket gave carries:
/// nothing when there was no well-formed envelope, else its payload decoded.
pub fn snapshot_of(received: Result<Vec<Vec<u8>>, zmq::Error>) -> (r: Option<
    Result<Snapshot, DecodeError>,
>)
    ensures
        match received {
            Err(_) => r is None,
            Ok(p) => match spec_payload(p@) {
                None => r is None,
                Some(b) => r matches Some(x) && decodes_to(b@, x),
            },
        },
{
    match message_of(received) {
        Some(buf) => Some(deserialize_msg(buf)),
        None => None,
    }
}

/// What the receiving worker does with the outcome of one blocking receive.
pub enum WorkerStep {
    /// Post the decoded snapshot to the consumer's queue.
    Post(Snapshot),
    /// Post nothing: the message did not decode (with the reason), or no
    /// well-formed message came.
    Skip(Option<DecodeError>),
}

/// The worker's decision for one received outcome: a decoded snapshot is
/// posted; a decode failure or an empty receive is skipped, and the worker
/// goes on.
pub fn worker_step(received: Option<Result<Snapshot, DecodeError>>) -> (a: WorkerStep)
    ensures
        match received {
            Some(Ok(s)) => a matches WorkerStep::Post(t) && t@ == s@,
            Some(Err(e)) => a matches WorkerStep::Skip(Some(f)) && f == e,
            None => a matches WorkerStep::Skip(None),
        },
{
    match received {
        Some(Ok(s)) => WorkerStep::Post(s),
        Some(Err(e)) => WorkerStep::Skip(Some(e)),
        None => WorkerStep::Skip(None),
    }
}

/// Whether the worker goes on after a post: exactly when the post went
/// through. A failed post means the consumer is gone, and is the worker's one
/// way to stop.
pub fn keeps_running(posted: bool) -> (r: bool)
    ensures
        r == posted,
{
    posted
}

/// Decodes a received payload.
pub fn deserialize_msg(msg: Vec<u8>) -> (r: Result<Snapshot, DecodeError>)
    ensures
        decodes_to(msg@, r),
{
    decode(msg.as_slice())
}

/// What is returned for the buffers drained from a receiver, oldest first:
/// nothing when there were none, else the newest of them, decoded.
pub open spec fn newest_result(buffers: Seq<Vec<u8>>, r: Option<Result<Snapshot, DecodeError>>) -> bool {
    if buffers.len() == 0 {
        r is None
    } else {
        r matches Some(x) && decodes_to(buffers.last()@, x)
    }
}

/// Keeps only the newest of the buffers drained from a receiver, oldest
/// first, and decodes it; the older ones are dropped undecoded, so a consumer
/// that fell behind sees the current state rather than a backlog.
pub fn decode_newest(buffers: Vec<Vec<u8>>) -> (r: Option<Result<Snapshot, DecodeError>>)
    ensures
        newest_result(buffers@, r),
{
    let mut buffers = buffers;
    match buffers.pop() {
        None => None,
        Some(last) => Some(deserialize_msg(last)),
    }
}

/// Receives messages through a SUB socket.
pub struct SubReceiver {
    socket: zmq::Socket,
    endpoint: String,
    topic: Vec<u8>,
}

/// The decimal digit `d` as text.
fn digit_str(d: u64) -> (r: &'static str)
    requires
        d < 10,
    ensures
        r@ == seq![digit_char(d as nat)],
{
    proof {
        reveal_strlit("0");
        reveal_strlit("1");
        reveal_strlit("2");
        reveal_strlit("3");
        reveal_strlit("4");
        reveal_strlit("5");
        reveal_strlit("6");
        reveal_strlit("7");
        reveal_strlit("8");
        reveal_strlit("9");
    }
    if d == 0 {
        "0"
    } else if d == 1 {
        "1"
    } else if d == 2 {
        "2"
    } else if d == 3 {
        "3"
    } else if d == 4 {
        "4"
    } else if d == 5 {
        "5"
    } else if d == 6 {
        "6"
    } else if d == 7 {
        "7"
    } else if d == 8 {
        "8"
    } else {
        "9"
    }
}

/// Appends the decimal digits of `n` to `s`.
fn append_decimal(s: &mut String, n: u64)
    ensures
        final(s)@ == old(s)@ + decimal(n as nat),
    decreases n,
{
    if n >= 10 {
        append_decimal(s, n / 10);
    }
    s.append(digit_str(n % 10));
    if n >= 10 {
        assert(decimal(n as nat) == decimal((n / 10) as nat).push(digit_char((n % 10) as nat)));
    }
    assert(old(s)@ + decimal(n as nat) =~= final(s)@) by {
        if n < 10 {
            assert(decimal(n as nat) == seq![digit_char((n % 10) as nat)]);
        }
    }
}

proof fn lemma_decimal_has_no_nul(n: nat)
    ensures
        !has_nul(decimal(n)),
    decreases n,
{
    if n >= 10 {
        lemma_decimal_has_no_nul(n / 10);
        let d = decimal(n / 10);
        assert forall|i: int| 0 <= i < decimal(n).len() implies decimal(n)[i] != '\0' by {
            if i < d.len() {
                assert(decimal(n)[i] == d[i]);
            }
        }
    }
}

/// The address `tcp://<host>:<port>`.
pub fn tcp_endpoint(host: &str, port: u64) -> (r: String)
    ensures
        r@ == tcp_endpoint_spec(host@, port),
{
    proof {
        reveal_strlit("tcp://");
        reveal_strlit(":");
    }
    let mut s = String::from_str("tcp://");
    s.append(host);
    s.append(":");
    append_decimal(&mut s, port);
    assert(s@ =~= tcp_endpoint_spec(host@, port));
    s
}

impl SubReceiver {
    /// The address the socket is connected to.
    pub closed spec fn endpoint(&self) -> Seq<char> {
        self.endpoint@
    }

    /// The topic prefix that messages must start with to be delivered.
    pub closed spec fn topic(&self) -> Seq<u8> {
        self.topic@
    }

    /// Connects a SUB socket to `tcp://<host>:<port>` and restricts delivery
    /// to messages whose topic starts with `topic`.
    pub fn new(host: &str, port: u64, topic: &[u8], ctx: &mut zmq::Context) -> (r: Result<
        SubReceiver,
        ConnectError,
    >)
        ensures
            has_nul(host@) <==> r matches Err(ConnectError::InvalidHost),
            r matches Ok(rx) ==> rx.endpoint() == tcp_endpoint_spec(host@, port) && rx.topic()
                == topic@,
    {
        let n = host.unicode_len();
        let mut i: usize = 0;
        while i < n
            invariant
                n == host@.len(),
                i <= n,
                forall|j: int| 0 <= j < i ==> host@[j] != '\0',
            decreases n - i,
        {
            if host.get_char(i) == '\0' {
                return Err(ConnectError::InvalidHost);
            }
            i = i + 1;
        }
        let endpoint = tcp_endpoint(host, port);
        proof {
            reveal_strlit("tcp://");
            lemma_decimal_has_no_nul(port as nat);
            let e = tcp_endpoint_spec(host@, port);
            let pre = seq!['t', 'c', 'p', ':', '/', '/'] + host@ + seq![':'];
            let d = decimal(port as nat);
            assert(e == pre + d);
            assert forall|k: int| 0 <= k < e.len() implies e[k] != '\0' by {
                if k < 6 {
                } else if k < 6 + host@.len() {
                    assert(e[k] == host@[k - 6]);
                } else if k == 6 + host@.len() {
                } else {
                    assert(e[k] == d[k - pre.len()]);
                }
            }
        }
        let socket = match open_subscriber(ctx) {
            Ok(s) => s,
            Err(e) => return Err(ConnectError::Socket(e)),
        };
        match connect(&socket, endpoint.as_str()) {
            Ok(()) => {},
            Err(e) => return Err(ConnectError::Connect(e)),
        }
        let topic = slice_to_vec(topic);
        match subscribe(&socket, topic.as_slice()) {
            Ok(()) => {},
            Err(e) => return Err(ConnectError::Subscribe(e)),
        }
        Ok(SubReceiver { socket, endpoint, topic })
    }

    /// Receives one message and decodes it; nothing when no well-formed
    /// envelope was available. What comes back is always the decoding of the
    /// payload of some two-part envelope.
    pub fn receive(&mut self, block: bool) -> (r: Option<Result<Snapshot, DecodeError>>)
        ensures
            r matches Some(x) ==> exists|b: Seq<u8>| decodes_to(b, x),
    {
        let received = recv_parts(&self.socket, block);
        let r = snapshot_of(received);
        proof {
            if r is Some {
                let p = received->Ok_0;
                let b = spec_payload(p@)->Some_0;
                assert(decodes_to(b@, r->Some_0));
            }
        }
        r
    }
}

impl Receive for SubReceiver {
    fn receive_buffer(&mut self, block: bool) -> Option<Vec<u8>> {
        message_of(recv_parts(&self.socket, block))
    }
}

} // verus!
