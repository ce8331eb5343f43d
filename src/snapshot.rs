//! The frame schema and its decoder.
//!
//! A snapshot travels as a self-describing binary value in the MessagePack
//! format: `[frame_number, time, [[arc, ...], ...]]`, where each arc is an
//! array of twelve numbers in a fixed order. Decoding is strictly positional:
//! every array's length is checked against the shape it must have before any
//! of its elements is read, and the first mismatch is reported.
//!
//! Each arc field keeps the number exactly as it was encoded: an integer, or
//! the bit pattern of a single- or double-precision float.

use vstd::prelude::*;

verus! {

/// Marker of the first array header whose length is held in the marker itself.
pub const FIXARRAY_FIRST: u8 = 0x90;

/// Marker of the last array header whose length is held in the marker itself.
pub const FIXARRAY_LAST: u8 = 0x9f;

/// Marker of an array header with a two-byte length.
pub const ARRAY16: u8 = 0xdc;

/// Marker of an array header with a four-byte length.
pub const ARRAY32: u8 = 0xdd;

/// Largest marker that is itself a non-negative integer.
pub const POSITIVE_FIXINT_LAST: u8 = 0x7f;

/// Smallest marker that is itself a negative integer.
pub const NEGATIVE_FIXINT_FIRST: u8 = 0xe0;

/// Marker of a single-precision float.
pub const FLOAT32: u8 = 0xca;

/// Marker of a double-precision float.
pub const FLOAT64: u8 = 0xcb;

/// Markers of unsigned integers of one, two, four and eight bytes.
pub const UINT8: u8 = 0xcc;
pub const UINT16: u8 = 0xcd;
pub const UINT32: u8 = 0xce;
pub const UINT64: u8 = 0xcf;

/// Markers of signed integers of one, two, four and eight bytes.
pub const INT8: u8 = 0xd0;
pub const INT16: u8 = 0xd1;
pub const INT32: u8 = 0xd2;
pub const INT64: u8 = 0xd3;

/// Number of fields of an arc segment on the wire.
pub const ARC_FIELDS: u64 = 12;

/// Number of elements of a snapshot on the wire.
pub const SNAPSHOT_FIELDS: u64 = 3;

/// One number as it was encoded.
#[derive(Debug, Copy, Clone, PartialEq, Eq, Structural)]
pub enum Number {
    /// A non-negative integer in an unsigned encoding.
    Uint(u64),
    /// An integer in a signed encoding.
    Int(i64),
    /// The bit pattern of a single-precision float.
    F32(u32),
    /// The bit pattern of a double-precision float.
    F64(u64),
}

/// A command to draw a single arc segment.
///
/// Its `==` compares the fields as encoded, exactly: the same value in
/// another encoding, or a float within a rounding error, or an angle a full
/// turn apart, counts as different.
#[derive(Debug, Copy, Clone, PartialEq, Eq, Structural)]
pub struct ArcSegment {
    pub level: Number,
    pub thickness: Number,
    pub hue: Number,
    pub sat: Number,
    pub val: Number,
    pub x: Number,
    pub y: Number,
    pub rad_x: Number,
    pub rad_y: Number,
    pub start: Number,
    pub stop: Number,
    pub rot_angle: Number,
}

/// A complete single-frame snapshot: geometry in z-ordered layers.
#[derive(Debug, Clone)]
pub struct Snapshot {
    pub frame_number: u64,
    /// Producer clock, in milliseconds.
    pub time: u64,
    pub layers: Vec<Vec<ArcSegment>>,
}

/// The value of a snapshot.
pub struct SnapshotView {
    pub frame_number: u64,
    pub time: u64,
    pub layers: Seq<Seq<ArcSegment>>,
}

impl View for Snapshot {
    type V = SnapshotView;

    open spec fn view(&self) -> SnapshotView {
        SnapshotView {
            frame_number: self.frame_number,
            time: self.time,
            layers: self.layers@.map_values(|l: Vec<ArcSegment>| l@),
        }
    }
}

/// The first structural mismatch found while decoding.
#[derive(Debug, Copy, Clone, PartialEq, Eq, Structural)]
pub enum DecodeError {
    /// The buffer ended inside a value.
    Truncated,
    /// The byte at `offset` does not start an array.
    NotAnArray { offset: usize },
    /// The array at `offset` has `found` elements where `expected` are required.
    WrongArity { offset: usize, expected: u64, found: u64 },
    /// The byte at `offset` does not start a number.
    NotANumber { offset: usize },
    /// The number at `offset` is not a non-negative integer.
    NotUnsigned { offset: usize },
}

/// `256` to the power `n`.
pub open spec fn span(n: nat) -> nat
    decreases n,
{
    if n == 0 {
        1
    } else {
        span((n - 1) as nat) * 256
    }
}

/// The `n` bytes from `pos` on, read as a big-endian unsigned integer.
pub open spec fn be(b: Seq<u8>, pos: int, n: nat) -> nat
    decreases n,
{
    if n == 0 {
        0
    } else {
        (be(b, pos, (n - 1) as nat) * 256 + b[pos + n - 1]) as nat
    }
}

/// The `n` big-endian bytes of `v` (taken modulo `256` to the power `n`).
pub open spec fn be_bytes(v: nat, n: nat) -> Seq<u8>
    decreases n,
{
    if n == 0 {
        Seq::empty()
    } else {
        be_bytes(v / 256, (n - 1) as nat).push((v % 256) as u8)
    }
}

/// An unsigned value of `w` bytes read as two's complement.
pub open spec fn signed_of(v: nat, w: nat) -> int {
    if v * 2 >= span(w) {
        v - span(w)
    } else {
        v as int
    }
}

/// Whether a marker starts a number.
pub open spec fn is_number_marker(m: u8) -> bool {
    m <= POSITIVE_FIXINT_LAST || m >= NEGATIVE_FIXINT_FIRST || (FLOAT32 <= m && m <= INT64)
}

/// Number of bytes that follow a number's marker.
pub open spec fn number_width(m: u8) -> nat {
    if m == UINT8 || m == INT8 {
        1
    } else if m == UINT16 || m == INT16 {
        2
    } else if m == UINT32 || m == INT32 || m == FLOAT32 {
        4
    } else if m == UINT64 || m == INT64 || m == FLOAT64 {
        8
    } else {
        0
    }
}

/// The number that a marker and the unsigned value of its following bytes
/// stand for.
pub open spec fn number_of(m: u8, v: nat) -> Number {
    if m <= POSITIVE_FIXINT_LAST {
        Number::Uint(m as u64)
    } else if m >= NEGATIVE_FIXINT_FIRST {
        Number::Int((m - 256) as i64)
    } else if m == FLOAT32 {
        Number::F32(v as u32)
    } else if m == FLOAT64 {
        Number::F64(v as u64)
    } else if m <= UINT64 {
        Number::Uint(v as u64)
    } else {
        Number::Int(signed_of(v, number_width(m)) as i64)
    }
}

/// Reads an array header at `pos`: its length and where its elements start.
pub open spec fn spec_read_array_len(b: Seq<u8>, pos: int) -> Result<(nat, int), DecodeError> {
    if pos < 0 || pos >= b.len() {
        Err(DecodeError::Truncated)
    } else {
        let m = b[pos];
        if FIXARRAY_FIRST <= m && m <= FIXARRAY_LAST {
            Ok(((m - FIXARRAY_FIRST) as nat, pos + 1))
        } else if m == ARRAY16 {
            if pos + 3 > b.len() {
                Err(DecodeError::Truncated)
            } else {
                Ok((be(b, pos + 1, 2), pos + 3))
            }
        } else if m == ARRAY32 {
            if pos + 5 > b.len() {
                Err(DecodeError::Truncated)
            } else {
                Ok((be(b, pos + 1, 4), pos + 5))
            }
        } else {
            Err(DecodeError::NotAnArray { offset: pos as usize })
        }
    }
}

/// Reads a number at `pos`, and where the value after it starts.
pub open spec fn spec_read_number(b: Seq<u8>, pos: int) -> Result<(Number, int), DecodeError> {
    if pos < 0 || pos >= b.len() {
        Err(DecodeError::Truncated)
    } else {
        let m = b[pos];
        let w = number_width(m);
        if !is_number_marker(m) {
            Err(DecodeError::NotANumber { offset: pos as usize })
        } else if pos + 1 + w > b.len() {
            Err(DecodeError::Truncated)
        } else {
            Ok((number_of(m, be(b, pos + 1, w)), pos + 1 + w))
        }
    }
}

/// Reads a non-negative integer at `pos`.
pub open spec fn spec_read_unsigned(b: Seq<u8>, pos: int) -> Result<(u64, int), DecodeError> {
    match spec_read_number(b, pos) {
        Err(e) => Err(e),
        Ok((Number::Uint(v), p)) => Ok((v, p)),
        Ok((Number::Int(v), p)) => if v >= 0 {
            Ok((v as u64, p))
        } else {
            Err(DecodeError::NotUnsigned { offset: pos as usize })
        },
        Ok(_) => Err(DecodeError::NotUnsigned { offset: pos as usize }),
    }
}

/// Reads `n` numbers one after the other from `pos`.
pub open spec fn spec_read_numbers(b: Seq<u8>, pos: int, n: nat) -> Result<
    (Seq<Number>, int),
    DecodeError,
>
    decreases n,
{
    if n == 0 {
        Ok((Seq::empty(), pos))
    } else {
        match spec_read_numbers(b, pos, (n - 1) as nat) {
            Err(e) => Err(e),
            Ok((s, p)) => match spec_read_number(b, p) {
                Err(e) => Err(e),
                Ok((x, q)) => Ok((s.push(x), q)),
            },
        }
    }
}

/// The arc segment whose fields, in wire order, are `s`.
pub open spec fn arc_of(s: Seq<Number>) -> ArcSegment {
    ArcSegment {
        level: s[0],
        thickness: s[1],
        hue: s[2],
        sat: s[3],
        val: s[4],
        x: s[5],
        y: s[6],
        rad_x: s[7],
        rad_y: s[8],
        start: s[9],
        stop: s[10],
        rot_angle: s[11],
    }
}

/// The fields of an arc segment in wire order.
pub open spec fn fields_of(a: ArcSegment) -> Seq<Number> {
    seq![
        a.level,
        a.thickness,
        a.hue,
        a.sat,
        a.val,
        a.x,
        a.y,
        a.rad_x,
        a.rad_y,
        a.start,
        a.stop,
        a.rot_angle,
    ]
}

/// Reads an arc segment at `pos`: an array of exactly twelve numbers.
pub open spec fn spec_read_arc(b: Seq<u8>, pos: int) -> Result<(ArcSegment, int), DecodeError> {
    match spec_read_array_len(b, pos) {
        Err(e) => Err(e),
        Ok((n, p)) => if n != ARC_FIELDS {
            Err(DecodeError::WrongArity { offset: pos as usize, expected: ARC_FIELDS, found: n as u64 })
        } else {
            match spec_read_numbers(b, p, ARC_FIELDS as nat) {
                Err(e) => Err(e),
                Ok((s, q)) => Ok((arc_of(s), q)),
            }
        },
    }
}

/// Reads `n` arc segments one after the other from `pos`.
pub open spec fn spec_read_arcs(b: Seq<u8>, pos: int, n: nat) -> Result<
    (Seq<ArcSegment>, int),
    DecodeError,
>
    decreases n,
{
    if n == 0 {
        Ok((Seq::empty(), pos))
    } else {
        match spec_read_arcs(b, pos, (n - 1) as nat) {
            Err(e) => Err(e),
            Ok((s, p)) => match spec_read_arc(b, p) {
                Err(e) => Err(e),
                Ok((x, q)) => Ok((s.push(x), q)),
            },
        }
    }
}

/// Reads a layer at `pos`: an array of arc segments.
pub open spec fn spec_read_layer(b: Seq<u8>, pos: int) -> Result<
    (Seq<ArcSegment>, int),
    DecodeError,
> {
    match spec_read_array_len(b, pos) {
        Err(e) => Err(e),
        Ok((n, p)) => spec_read_arcs(b, p, n),
    }
}

/// Reads `n` layers one after the other from `pos`.
pub open spec fn spec_read_layer_seq(b: Seq<u8>, pos: int, n: nat) -> Result<
    (Seq<Seq<ArcSegment>>, int),
    DecodeError,
>
    decreases n,
{
    if n == 0 {
        Ok((Seq::empty(), pos))
    } else {
        match spec_read_layer_seq(b, pos, (n - 1) as nat) {
            Err(e) => Err(e),
            Ok((s, p)) => match spec_read_layer(b, p) {
                Err(e) => Err(e),
                Ok((x, q)) => Ok((s.push(x), q)),
            },
        }
    }
}

/// Reads the layer collection at `pos`: an array of layers.
pub open spec fn spec_read_layers(b: Seq<u8>, pos: int) -> Result<
    (Seq<Seq<ArcSegment>>, int),
    DecodeError,
> {
    match spec_read_array_len(b, pos) {
        Err(e) => Err(e),
        Ok((n, p)) => spec_read_layer_seq(b, p, n),
    }
}

/// Reads a snapshot from the front of `b`; bytes after it are not read.
pub open spec fn spec_decode(b: Seq<u8>) -> Result<SnapshotView, DecodeError> {
    match spec_read_array_len(b, 0) {
        Err(e) => Err(e),
        Ok((n, p)) => if n != SNAPSHOT_FIELDS {
            Err(DecodeError::WrongArity { offset: 0, expected: SNAPSHOT_FIELDS, found: n as u64 })
        } else {
            match spec_read_unsigned(b, p) {
                Err(e) => Err(e),
                Ok((frame_number, p1)) => match spec_read_unsigned(b, p1) {
                    Err(e) => Err(e),
                    Ok((time, p2)) => match spec_read_layers(b, p2) {
                        Err(e) => Err(e),
                        Ok((layers, _)) => Ok(SnapshotView { frame_number, time, layers }),
                    },
                },
            }
        },
    }
}

/// What a reader that returns an exec value and a position stands for.
pub open spec fn at_pos<T>(r: Result<(T, usize), DecodeError>) -> Result<(T, int), DecodeError> {
    match r {
        Ok((v, p)) => Ok((v, p as int)),
        Err(e) => Err(e),
    }
}

proof fn lemma_be_bound(b: Seq<u8>, pos: int, n: nat)
    ensures
        be(b, pos, n) < span(n),
    decreases n,
{
    if n > 0 {
        let m = (n - 1) as nat;
        lemma_be_bound(b, pos, m);
        let x = be(b, pos, m);
        let y = b[pos + n - 1] as int;
        assert(x * 256 + y < span(m) * 256) by (nonlinear_arith)
            requires
                x < span(m),
                0 <= y < 256,
        ;
    }
}

proof fn lemma_span_values()
    ensures
        span(1) == 0x100,
        span(2) == 0x1_0000,
        span(4) == 0x1_0000_0000,
        span(7) == 0x100_0000_0000_0000,
        span(8) == 0x1_0000_0000 * 0x1_0000_0000,
{
    reveal_with_fuel(span, 9);
}

proof fn lemma_span_mono(i: nat, j: nat)
    requires
        i <= j,
    ensures
        span(i) <= span(j),
    decreases j,
{
    if i < j {
        lemma_span_mono(i, (j - 1) as nat);
    }
}

/// Reads `n` bytes from `pos` on as a big-endian unsigned integer.
fn read_be(b: &[u8], pos: usize, n: usize) -> (v: u64)
    requires
        n <= 8,
        pos + n <= b@.len(),
    ensures
        v == be(b@, pos as int, n as nat),
{
    let len = b.len();
    let mut v: u64 = 0;
    let mut i: usize = 0;
    while i < n
        invariant
            i <= n <= 8,
            pos + n <= len == b@.len(),
            v == be(b@, pos as int, i as nat),
        decreases n - i,
    {
        proof {
            lemma_be_bound(b@, pos as int, i as nat);
            lemma_span_mono(i as nat, 7);
            lemma_span_values();
        }
        v = v * 256 + b[pos + i] as u64;
        i = i + 1;
    }
    v
}

/// Reads an array header at `pos`.
fn read_array_len(b: &[u8], pos: usize) -> (r: Result<(u64, usize), DecodeError>)
    ensures
        match r {
            Ok((n, p)) => spec_read_array_len(b@, pos as int) == Ok::<(nat, int), DecodeError>(
                (n as nat, p as int),
            ) && pos < p <= b@.len(),
            Err(e) => spec_read_array_len(b@, pos as int) == Err::<(nat, int), DecodeError>(e),
        },
{
    if pos >= b.len() {
        return Err(DecodeError::Truncated);
    }
    let m = b[pos];
    if FIXARRAY_FIRST <= m && m <= FIXARRAY_LAST {
        Ok(((m - FIXARRAY_FIRST) as u64, pos + 1))
    } else if m == ARRAY16 {
        if b.len() - pos < 3 {
            Err(DecodeError::Truncated)
        } else {
            Ok((read_be(b, pos + 1, 2), pos + 3))
        }
    } else if m == ARRAY32 {
        if b.len() - pos < 5 {
            Err(DecodeError::Truncated)
        } else {
            Ok((read_be(b, pos + 1, 4), pos + 5))
        }
    } else {
        Err(DecodeError::NotAnArray { offset: pos })
    }
}

/// Reads an unsigned value of `w` bytes as two's complement.
fn to_signed(v: u64, w: usize) -> (r: i64)
    requires
        w == 1 || w == 2 || w == 4 || w == 8,
        v < span(w as nat),
    ensures
        r == signed_of(v as nat, w as nat),
{
    proof {
        lemma_span_values();
    }
    if w == 8 {
        if v >= 0x8000_0000_0000_0000 {
            ((v - 0x8000_0000_0000_0000) as i64) - 0x7fff_ffff_ffff_ffff - 1
        } else {
            v as i64
        }
    } else {
        let full: u64 = if w == 1 {
            0x100
        } else if w == 2 {
            0x1_0000
        } else {
            0x1_0000_0000
        };
        if v * 2 >= full {
            v as i64 - full as i64
        } else {
            v as i64
        }
    }
}

/// Reads a number at `pos`.
fn read_number(b: &[u8], pos: usize) -> (r: Result<(Number, usize), DecodeError>)
    ensures
        at_pos(r) == spec_read_number(b@, pos as int),
        r matches Ok((_, p)) ==> pos < p <= b@.len(),
{
    let len = b.len();
    if pos >= len {
        return Err(DecodeError::Truncated);
    }
    let m = b[pos];
    if m <= POSITIVE_FIXINT_LAST {
        return Ok((Number::Uint(m as u64), pos + 1));
    }
    if m >= NEGATIVE_FIXINT_FIRST {
        return Ok((Number::Int(m as i64 - 256), pos + 1));
    }
    if m < FLOAT32 || m > INT64 {
        return Err(DecodeError::NotANumber { offset: pos });
    }
    let w: usize = if m == UINT8 || m == INT8 {
        1
    } else if m == UINT16 || m == INT16 {
        2
    } else if m == UINT32 || m == INT32 || m == FLOAT32 {
        4
    } else {
        8
    };
    assert(w == number_width(m));
    if len - pos - 1 < w {
        return Err(DecodeError::Truncated);
    }
    let v = read_be(b, pos + 1, w);
    proof {
        lemma_be_bound(b@, pos + 1, w as nat);
        lemma_span_values();
    }
    let n = if m == FLOAT32 {
        Number::F32(v as u32)
    } else if m == FLOAT64 {
        Number::F64(v)
    } else if m <= UINT64 {
        Number::Uint(v)
    } else {
        Number::Int(to_signed(v, w))
    };
    Ok((n, pos + 1 + w))
}

/// Reads a non-negative integer at `pos`.
fn read_unsigned(b: &[u8], pos: usize) -> (r: Result<(u64, usize), DecodeError>)
    ensures
        at_pos(r) == spec_read_unsigned(b@, pos as int),
        r matches Ok((_, p)) ==> pos < p <= b@.len(),
{
    match read_number(b, pos) {
        Err(e) => Err(e),
        Ok((Number::Uint(v), p)) => Ok((v, p)),
        Ok((Number::Int(v), p)) => if v >= 0 {
            Ok((v as u64, p))
        } else {
            Err(DecodeError::NotUnsigned { offset: pos })
        },
        Ok(_) => Err(DecodeError::NotUnsigned { offset: pos }),
    }
}

proof fn lemma_numbers_stop(b: Seq<u8>, pos: int, i: nat, n: nat)
    requires
        i <= n,
        spec_read_numbers(b, pos, i) is Err,
    ensures
        spec_read_numbers(b, pos, n) == spec_read_numbers(b, pos, i),
    decreases n,
{
    if i < n {
        lemma_numbers_stop(b, pos, i, (n - 1) as nat);
    }
}

proof fn lemma_arcs_stop(b: Seq<u8>, pos: int, i: nat, n: nat)
    requires
        i <= n,
        spec_read_arcs(b, pos, i) is Err,
    ensures
        spec_read_arcs(b, pos, n) == spec_read_arcs(b, pos, i),
    decreases n,
{
    if i < n {
        lemma_arcs_stop(b, pos, i, (n - 1) as nat);
    }
}

proof fn lemma_layers_stop(b: Seq<u8>, pos: int, i: nat, n: nat)
    requires
        i <= n,
        spec_read_layer_seq(b, pos, i) is Err,
    ensures
        spec_read_layer_seq(b, pos, n) == spec_read_layer_seq(b, pos, i),
    decreases n,
{
    if i < n {
        lemma_layers_stop(b, pos, i, (n - 1) as nat);
    }
}

/// Reads an arc segment at `pos`.
fn read_arc(b: &[u8], pos: usize) -> (r: Result<(ArcSegment, usize), DecodeError>)
    ensures
        at_pos(r) == spec_read_arc(b@, pos as int),
        r matches Ok((_, p)) ==> pos < p <= b@.len(),
{
    let (n, start) = match read_array_len(b, pos) {
        Ok(h) => h,
        Err(e) => return Err(e),
    };
    if n != ARC_FIELDS {
        return Err(DecodeError::WrongArity { offset: pos, expected: ARC_FIELDS, found: n });
    }
    let mut fields: Vec<Number> = Vec::new();
    let mut p = start;
    let mut i: u64 = 0;
    while i < ARC_FIELDS
        invariant
            i <= ARC_FIELDS,
            pos < start <= p <= b@.len(),
            spec_read_array_len(b@, pos as int) == Ok::<(nat, int), DecodeError>(
                (ARC_FIELDS as nat, start as int),
            ),
            spec_read_numbers(b@, start as int, i as nat) == Ok::<(Seq<Number>, int), DecodeError>(
                (fields@, p as int),
            ),
        decreases ARC_FIELDS - i,
    {
        match read_number(b, p) {
            Ok((x, q)) => {
                fields.push(x);
                p = q;
            },
            Err(e) => {
                proof {
                    lemma_numbers_stop(b@, start as int, (i + 1) as nat, ARC_FIELDS as nat);
                }
                return Err(e);
            },
        }
        i = i + 1;
    }
    assert(fields@.len() == ARC_FIELDS) by {
        lemma_numbers_len(b@, start as int, ARC_FIELDS as nat);
    }
    let arc = ArcSegment {
        level: fields[0],
        thickness: fields[1],
        hue: fields[2],
        sat: fields[3],
        val: fields[4],
        x: fields[5],
        y: fields[6],
        rad_x: fields[7],
        rad_y: fields[8],
        start: fields[9],
        stop: fields[10],
        rot_angle: fields[11],
    };
    Ok((arc, p))
}

proof fn lemma_numbers_len(b: Seq<u8>, pos: int, n: nat)
    ensures
        spec_read_numbers(b, pos, n) matches Ok((s, _)) ==> s.len() == n,
    decreases n,
{
    if n > 0 {
        lemma_numbers_len(b, pos, (n - 1) as nat);
    }
}

/// Reads a layer at `pos`.
fn read_layer(b: &[u8], pos: usize) -> (r: Result<(Vec<ArcSegment>, usize), DecodeError>)
    ensures
        match r {
            Ok((l, p)) => spec_read_layer(b@, pos as int) == Ok::<(Seq<ArcSegment>, int), DecodeError>(
                (l@, p as int),
            ) && pos < p <= b@.len(),
            Err(e) => spec_read_layer(b@, pos as int) == Err::<(Seq<ArcSegment>, int), DecodeError>(e),
        },
{
    let (n, start) = match read_array_len(b, pos) {
        Ok(h) => h,
        Err(e) => return Err(e),
    };
    let mut arcs: Vec<ArcSegment> = Vec::new();
    let mut p = start;
    let mut i: u64 = 0;
    while i < n
        invariant
            i <= n,
            pos < start <= p <= b@.len(),
            spec_read_array_len(b@, pos as int) == Ok::<(nat, int), DecodeError>(
                (n as nat, start as int),
            ),
            spec_read_arcs(b@, start as int, i as nat) == Ok::<(Seq<ArcSegment>, int), DecodeError>(
                (arcs@, p as int),
            ),
        decreases n - i,
    {
        match read_arc(b, p) {
            Ok((a, q)) => {
                arcs.push(a);
                p = q;
            },
            Err(e) => {
                proof {
                    lemma_arcs_stop(b@, start as int, (i + 1) as nat, n as nat);
                }
                return Err(e);
            },
        }
        i = i + 1;
    }
    Ok((arcs, p))
}

/// Reads the layer collection at `pos`.
fn read_layers(b: &[u8], pos: usize) -> (r: Result<(Vec<Vec<ArcSegment>>, usize), DecodeError>)
    ensures
        match r {
            Ok((ls, p)) => spec_read_layers(b@, pos as int) == Ok::<
                (Seq<Seq<ArcSegment>>, int),
                DecodeError,
            >((ls@.map_values(|l: Vec<ArcSegment>| l@), p as int)) && pos < p <= b@.len(),
            Err(e) => spec_read_layers(b@, pos as int) == Err::<(Seq<Seq<ArcSegment>>, int), DecodeError>(
                e,
            ),
        },
{
    let (n, start) = match read_array_len(b, pos) {
        Ok(h) => h,
        Err(e) => return Err(e),
    };
    let mut layers: Vec<Vec<ArcSegment>> = Vec::new();
    let mut p = start;
    assert(layers@.map_values(|l: Vec<ArcSegment>| l@) =~= Seq::empty());
    let mut i: u64 = 0;
    while i < n
        invariant
            i <= n,
            pos < start <= p <= b@.len(),
            spec_read_array_len(b@, pos as int) == Ok::<(nat, int), DecodeError>(
                (n as nat, start as int),
            ),
            spec_read_layer_seq(b@, start as int, i as nat) == Ok::<
                (Seq<Seq<ArcSegment>>, int),
                DecodeError,
            >((layers@.map_values(|l: Vec<ArcSegment>| l@), p as int)),
        decreases n - i,
    {
        match read_layer(b, p) {
            Ok((l, q)) => {
                proof {
                    assert(layers@.push(l).map_values(|l: Vec<ArcSegment>| l@) =~= layers@.map_values(
                        |l: Vec<ArcSegment>| l@,
                    ).push(l@));
                }
                layers.push(l);
                p = q;
            },
            Err(e) => {
                proof {
                    lemma_layers_stop(b@, start as int, (i + 1) as nat, n as nat);
                }
                return Err(e);
            },
        }
        i = i + 1;
    }
    Ok((layers, p))
}

/// Decodes one arc segment from the front of `bytes`: an array of exactly
/// twelve numbers. Bytes after it are not read.
pub fn decode_arc(bytes: &[u8]) -> (r: Result<ArcSegment, DecodeError>)
    ensures
        match spec_read_arc(bytes@, 0) {
            Ok((a, _)) => r == Ok::<ArcSegment, DecodeError>(a),
            Err(e) => r == Err::<ArcSegment, DecodeError>(e),
        },
{
    match read_arc(bytes, 0) {
        Ok((a, _)) => Ok(a),
        Err(e) => Err(e),
    }
}

/// Decodes a snapshot from the front of `bytes`, or reports the first
/// structural mismatch. Bytes after the snapshot are not read, and nothing of
/// `bytes` is kept.
pub fn decode(bytes: &[u8]) -> (r: Result<Snapshot, DecodeError>)
    ensures
        match spec_decode(bytes@) {
            Ok(v) => r matches Ok(s) && s@ == v,
            Err(e) => r == Err::<Snapshot, DecodeError>(e),
        },
{
    let (n, p) = match read_array_len(bytes, 0) {
        Ok(h) => h,
        Err(e) => return Err(e),
    };
    if n != SNAPSHOT_FIELDS {
        return Err(DecodeError::WrongArity { offset: 0, expected: SNAPSHOT_FIELDS, found: n });
    }
    let (frame_number, p1) = match read_unsigned(bytes, p) {
        Ok(h) => h,
        Err(e) => return Err(e),
    };
    let (time, p2) = match read_unsigned(bytes, p1) {
        Ok(h) => h,
        Err(e) => return Err(e),
    };
    let (layers, _) = match read_layers(bytes, p2) {
        Ok(h) => h,
        Err(e) => return Err(e),
    };
    Ok(Snapshot { frame_number, time, layers })
}

/// The eight-byte encoding of a number, as a producer may write it.
pub open spec fn encode_number(x: Number) -> Seq<u8> {
    match x {
        Number::Uint(v) => seq![UINT64] + be_bytes(v as nat, 8),
        Number::Int(v) => seq![INT64] + be_bytes(
            (if v < 0 {
                v + span(8)
            } else {
                v as int
            }) as nat,
            8,
        ),
        Number::F32(v) => seq![FLOAT32] + be_bytes(v as nat, 4),
        Number::F64(v) => seq![FLOAT64] + be_bytes(v as nat, 8),
    }
}

/// Numbers encoded one after the other.
pub open spec fn encode_numbers(s: Seq<Number>) -> Seq<u8>
    decreases s.len(),
{
    if s.len() == 0 {
        Seq::empty()
    } else {
        encode_numbers(s.drop_last()) + encode_number(s.last())
    }
}

/// An arc segment encoded as an array of its twelve fields in wire order.
pub open spec fn encode_arc(a: ArcSegment) -> Seq<u8> {
    seq![(FIXARRAY_FIRST + ARC_FIELDS) as u8] + encode_numbers(fields_of(a))
}

proof fn lemma_be_bytes_len(v: nat, n: nat)
    ensures
        be_bytes(v, n).len() == n,
    decreases n,
{
    if n > 0 {
        lemma_be_bytes_len(v / 256, (n - 1) as nat);
    }
}

proof fn lemma_be_round_trip(b: Seq<u8>, pos: int, v: nat, n: nat)
    requires
        v < span(n),
        0 <= pos,
        pos + n <= b.len(),
        b.subrange(pos, pos + n) == be_bytes(v, n),
    ensures
        be(b, pos, n) == v,
    decreases n,
{
    if n > 0 {
        let m = (n - 1) as nat;
        lemma_be_bytes_len(v / 256, m);
        assert(b.subrange(pos, pos + m) =~= b.subrange(pos, pos + n).drop_last());
        assert(b[pos + m] == b.subrange(pos, pos + n)[m as int]);
        let sm = span(m);
        assert(v / 256 < sm && (v / 256) * 256 + v % 256 == v) by (nonlinear_arith)
            requires
                v < sm * 256,
        ;
        assert(be_bytes(v, n).drop_last() =~= be_bytes(v / 256, m));
        lemma_be_round_trip(b, pos, v / 256, m);
    }
}

proof fn lemma_number_round_trip(b: Seq<u8>, pos: int, x: Number)
    requires
        0 <= pos,
        pos + encode_number(x).len() <= b.len(),
        b.subrange(pos, pos + encode_number(x).len()) == encode_number(x),
    ensures
        spec_read_number(b, pos) == Ok::<(Number, int), DecodeError>(
            (x, pos + encode_number(x).len()),
        ),
{
    let e = encode_number(x);
    lemma_span_values();
    assert(b[pos] == e[0]);
    match x {
        Number::Uint(v) => {
            lemma_be_bytes_len(v as nat, 8);
            assert(b.subrange(pos + 1, pos + 9) =~= e.subrange(1, 9));
            assert(e.subrange(1, 9) =~= be_bytes(v as nat, 8));
            lemma_be_round_trip(b, pos + 1, v as nat, 8);
        },
        Number::Int(v) => {
            let u = (if v < 0 {
                v + span(8)
            } else {
                v as int
            }) as nat;
            lemma_be_bytes_len(u, 8);
            assert(b.subrange(pos + 1, pos + 9) =~= e.subrange(1, 9));
            assert(e.subrange(1, 9) =~= be_bytes(u, 8));
            lemma_be_round_trip(b, pos + 1, u, 8);
        },
        Number::F32(v) => {
            lemma_be_bytes_len(v as nat, 4);
            assert(b.subrange(pos + 1, pos + 5) =~= e.subrange(1, 5));
            assert(e.subrange(1, 5) =~= be_bytes(v as nat, 4));
            lemma_be_round_trip(b, pos + 1, v as nat, 4);
        },
        Number::F64(v) => {
            lemma_be_bytes_len(v as nat, 8);
            assert(b.subrange(pos + 1, pos + 9) =~= e.subrange(1, 9));
            assert(e.subrange(1, 9) =~= be_bytes(v as nat, 8));
            lemma_be_round_trip(b, pos + 1, v as nat, 8);
        },
    }
}

proof fn lemma_numbers_round_trip(b: Seq<u8>, pos: int, s: Seq<Number>)
    requires
        0 <= pos,
        pos + encode_numbers(s).len() <= b.len(),
        b.subrange(pos, pos + encode_numbers(s).len()) == encode_numbers(s),
    ensures
        spec_read_numbers(b, pos, s.len()) == Ok::<(Seq<Number>, int), DecodeError>(
            (s, pos + encode_numbers(s).len()),
        ),
    decreases s.len(),
{
    if s.len() > 0 {
        let init = s.drop_last();
        let front = encode_numbers(init);
        let back = encode_number(s.last());
        let mid = pos + front.len();
        assert(b.subrange(pos, mid) =~= encode_numbers(s).subrange(0, front.len() as int));
        assert(encode_numbers(s).subrange(0, front.len() as int) =~= front);
        lemma_numbers_round_trip(b, pos, init);
        assert(b.subrange(mid, mid + back.len()) =~= encode_numbers(s).subrange(
            front.len() as int,
            encode_numbers(s).len() as int,
        ));
        assert(encode_numbers(s).subrange(front.len() as int, encode_numbers(s).len() as int)
            =~= back);
        lemma_number_round_trip(b, mid, s.last());
        assert(init.push(s.last()) =~= s);
        assert(encode_numbers(s) == front + back);
        assert(init.len() == (s.len() - 1) as nat);
        assert(spec_read_numbers(b, pos, init.len()) == Ok::<(Seq<Number>, int), DecodeError>(
            (init, mid),
        ));
    } else {
        assert(s =~= Seq::<Number>::empty());
    }
}

/// Decoding an arc segment that was encoded as its twelve fields in wire
/// order gives back the same segment, whatever follows it in the buffer.
pub proof fn lemma_arc_round_trip(a: ArcSegment, rest: Seq<u8>)
    ensures
        spec_read_arc(encode_arc(a) + rest, 0) == Ok::<(ArcSegment, int), DecodeError>(
            (a, encode_arc(a).len() as int),
        ),
{
    let b = encode_arc(a) + rest;
    assert(b.subrange(0, encode_arc(a).len() as int) =~= encode_arc(a));
    lemma_arc_at(b, 0, a);
}

proof fn lemma_split(b: Seq<u8>, pos: int, x: Seq<u8>, y: Seq<u8>)
    requires
        0 <= pos,
        pos + x.len() + y.len() <= b.len(),
        b.subrange(pos, pos + x.len() + y.len()) == x + y,
    ensures
        b.subrange(pos, pos + x.len()) == x,
        b.subrange(pos + x.len(), pos + x.len() + y.len()) == y,
{
    assert(b.subrange(pos, pos + x.len()) =~= (x + y).subrange(0, x.len() as int));
    assert((x + y).subrange(0, x.len() as int) =~= x);
    assert(b.subrange(pos + x.len(), pos + x.len() + y.len()) =~= (x + y).subrange(
        x.len() as int,
        (x.len() + y.len()) as int,
    ));
    assert((x + y).subrange(x.len() as int, (x.len() + y.len()) as int) =~= y);
}

proof fn lemma_arc_at(b: Seq<u8>, pos: int, a: ArcSegment)
    requires
        0 <= pos,
        pos + encode_arc(a).len() <= b.len(),
        b.subrange(pos, pos + encode_arc(a).len()) == encode_arc(a),
    ensures
        spec_read_arc(b, pos) == Ok::<(ArcSegment, int), DecodeError>(
            (a, pos + encode_arc(a).len()),
        ),
{
    let s = fields_of(a);
    let body = encode_numbers(s);
    let head = seq![(FIXARRAY_FIRST + ARC_FIELDS) as u8];
    assert(encode_arc(a) == head + body);
    lemma_split(b, pos, head, body);
    assert(b[pos] == b.subrange(pos, pos + 1)[0]);
    lemma_numbers_round_trip(b, pos + 1, s);
    assert(arc_of(s) == a);
}

/// The header of an array of `n` elements, in its shortest form.
pub open spec fn encode_array_header(n: nat) -> Seq<u8> {
    if n < 16 {
        seq![(FIXARRAY_FIRST + n) as u8]
    } else if n < 0x1_0000 {
        seq![ARRAY16] + be_bytes(n, 2)
    } else {
        seq![ARRAY32] + be_bytes(n, 4)
    }
}

/// Arc segments encoded one after the other.
pub open spec fn encode_arcs(s: Seq<ArcSegment>) -> Seq<u8>
    decreases s.len(),
{
    if s.len() == 0 {
        Seq::empty()
    } else {
        encode_arcs(s.drop_last()) + encode_arc(s.last())
    }
}

/// A layer encoded as an array of its arc segments.
pub open spec fn encode_layer(l: Seq<ArcSegment>) -> Seq<u8> {
    encode_array_header(l.len()) + encode_arcs(l)
}

/// Layers encoded one after the other.
pub open spec fn encode_layer_seq(ls: Seq<Seq<ArcSegment>>) -> Seq<u8>
    decreases ls.len(),
{
    if ls.len() == 0 {
        Seq::empty()
    } else {
        encode_layer_seq(ls.drop_last()) + encode_layer(ls.last())
    }
}

/// A snapshot encoded as `[frame_number, time, layers]`.
pub open spec fn encode_snapshot(v: SnapshotView) -> Seq<u8> {
    seq![(FIXARRAY_FIRST + SNAPSHOT_FIELDS) as u8] + encode_number(Number::Uint(v.frame_number))
        + encode_number(Number::Uint(v.time)) + encode_array_header(v.layers.len())
        + encode_layer_seq(v.layers)
}

/// Whether every array of a snapshot has fewer than `2^32` elements, the most
/// an array header can count.
pub open spec fn fits_headers(v: SnapshotView) -> bool {
    &&& v.layers.len() < 0x1_0000_0000
    &&& forall|i: int| 0 <= i < v.layers.len() ==> #[trigger] v.layers[i].len() < 0x1_0000_0000
}

proof fn lemma_header_at(b: Seq<u8>, pos: int, n: nat)
    requires
        n < 0x1_0000_0000,
        0 <= pos,
        pos + encode_array_header(n).len() <= b.len(),
        b.subrange(pos, pos + encode_array_header(n).len()) == encode_array_header(n),
    ensures
        spec_read_array_len(b, pos) == Ok::<(nat, int), DecodeError>(
            (n, pos + encode_array_header(n).len()),
        ),
{
    let h = encode_array_header(n);
    lemma_span_values();
    assert(b[pos] == h[0]);
    if n >= 16 {
        let w: nat = if n < 0x1_0000 { 2 } else { 4 };
        lemma_be_bytes_len(n, w);
        lemma_split(b, pos, seq![h[0]], be_bytes(n, w));
        assert(h == seq![h[0]] + be_bytes(n, w));
        lemma_be_round_trip(b, pos + 1, n, w);
    }
}

proof fn lemma_arcs_at(b: Seq<u8>, pos: int, s: Seq<ArcSegment>)
    requires
        0 <= pos,
        pos + encode_arcs(s).len() <= b.len(),
        b.subrange(pos, pos + encode_arcs(s).len()) == encode_arcs(s),
    ensures
        spec_read_arcs(b, pos, s.len()) == Ok::<(Seq<ArcSegment>, int), DecodeError>(
            (s, pos + encode_arcs(s).len()),
        ),
    decreases s.len(),
{
    if s.len() > 0 {
        let init = s.drop_last();
        let front = encode_arcs(init);
        let back = encode_arc(s.last());
        assert(encode_arcs(s) == front + back);
        lemma_split(b, pos, front, back);
        lemma_arcs_at(b, pos, init);
        lemma_arc_at(b, pos + front.len(), s.last());
        assert(init.push(s.last()) =~= s);
        assert(init.len() == (s.len() - 1) as nat);
    } else {
        assert(s =~= Seq::<ArcSegment>::empty());
    }
}

proof fn lemma_layer_at(b: Seq<u8>, pos: int, l: Seq<ArcSegment>)
    requires
        l.len() < 0x1_0000_0000,
        0 <= pos,
        pos + encode_layer(l).len() <= b.len(),
        b.subrange(pos, pos + encode_layer(l).len()) == encode_layer(l),
    ensures
        spec_read_layer(b, pos) == Ok::<(Seq<ArcSegment>, int), DecodeError>(
            (l, pos + encode_layer(l).len()),
        ),
{
    let h = encode_array_header(l.len());
    lemma_split(b, pos, h, encode_arcs(l));
    lemma_header_at(b, pos, l.len());
    lemma_arcs_at(b, pos + h.len(), l);
}

proof fn lemma_layer_seq_at(b: Seq<u8>, pos: int, ls: Seq<Seq<ArcSegment>>)
    requires
        forall|i: int| 0 <= i < ls.len() ==> #[trigger] ls[i].len() < 0x1_0000_0000,
        0 <= pos,
        pos + encode_layer_seq(ls).len() <= b.len(),
        b.subrange(pos, pos + encode_layer_seq(ls).len()) == encode_layer_seq(ls),
    ensures
        spec_read_layer_seq(b, pos, ls.len()) == Ok::<(Seq<Seq<ArcSegment>>, int), DecodeError>(
            (ls, pos + encode_layer_seq(ls).len()),
        ),
    decreases ls.len(),
{
    if ls.len() > 0 {
        let init = ls.drop_last();
        let front = encode_layer_seq(init);
        let back = encode_layer(ls.last());
        assert(encode_layer_seq(ls) == front + back);
        lemma_split(b, pos, front, back);
        assert forall|i: int| 0 <= i < init.len() implies #[trigger] init[i].len() < 0x1_0000_0000 by {
            assert(init[i] == ls[i]);
        }
        lemma_layer_seq_at(b, pos, init);
        assert(ls.last() == ls[ls.len() - 1]);
        lemma_layer_at(b, pos + front.len(), ls.last());
        assert(init.push(ls.last()) =~= ls);
        assert(init.len() == (ls.len() - 1) as nat);
    } else {
        assert(ls =~= Seq::<Seq<ArcSegment>>::empty());
    }
}

/// Decoding an encoded snapshot gives back the same frame number, time and
/// layers, every layer and every segment in its place, whatever follows it
/// in the buffer.
pub proof fn lemma_snapshot_round_trip(v: SnapshotView, rest: Seq<u8>)
    requires
        fits_headers(v),
    ensures
        spec_decode(encode_snapshot(v) + rest) == Ok::<SnapshotView, DecodeError>(v),
{
    let b = encode_snapshot(v) + rest;
    let h0 = seq![(FIXARRAY_FIRST + SNAPSHOT_FIELDS) as u8];
    let f = encode_number(Number::Uint(v.frame_number));
    let t = encode_number(Number::Uint(v.time));
    let h = encode_array_header(v.layers.len());
    let ls = encode_layer_seq(v.layers);
    let p1 = h0.len() as int;
    let p2 = p1 + f.len();
    let p3 = p2 + t.len();
    let p4 = p3 + h.len();
    assert(encode_snapshot(v) == (((h0 + f) + t) + h) + ls);
    assert(b.subrange(0, encode_snapshot(v).len() as int) =~= encode_snapshot(v));
    lemma_split(b, 0, (((h0 + f) + t) + h), ls);
    lemma_split(b, 0, ((h0 + f) + t), h);
    lemma_split(b, 0, (h0 + f), t);
    lemma_split(b, 0, h0, f);
    assert(b[0] == h0[0]);
    lemma_number_round_trip(b, p1, Number::Uint(v.frame_number));
    lemma_number_round_trip(b, p2, Number::Uint(v.time));
    lemma_header_at(b, p3, v.layers.len());
    lemma_layer_seq_at(b, p4, v.layers);
}

} // verus!
