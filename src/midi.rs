//! Control-surface events: the typed model, and the three-byte wire form that
//! devices speak.

use vstd::prelude::*;

use crate::device::Device;

verus! {

/// Which kind of control-surface action an event is.
#[derive(Debug, Copy, Clone, Hash, PartialEq, Eq, Structural)]
pub enum EventType {
    NoteOn,
    NoteOff,
    ControlChange,
}

/// The routing key of one logical control, independent of the device line
/// that produced it.
#[derive(Debug, Copy, Clone, Hash, PartialEq, Eq, Structural)]
pub struct Mapping {
    pub event_type: EventType,
    pub channel: u8,
    pub control: u8,
}

/// A control action together with its value in the device's native range.
#[derive(Debug, Copy, Clone, PartialEq, Eq, Structural)]
pub struct Event {
    pub mapping: Mapping,
    pub value: u8,
}

/// Status nibble of a note-off message.
pub const NOTE_OFF_CODE: u8 = 8;

/// Status nibble of a note-on message.
pub const NOTE_ON_CODE: u8 = 9;

/// Status nibble of a control-change message.
pub const CONTROL_CHANGE_CODE: u8 = 11;

/// Number of channels a status byte can address.
pub const CHANNEL_COUNT: u8 = 16;

/// Status nibble that stands for each event type on the wire.
pub open spec fn type_code(t: EventType) -> u8 {
    match t {
        EventType::NoteOff => NOTE_OFF_CODE,
        EventType::NoteOn => NOTE_ON_CODE,
        EventType::ControlChange => CONTROL_CHANGE_CODE,
    }
}

/// Event type selected by a status nibble, if the nibble stands for one.
pub open spec fn type_of_code(code: u8) -> Option<EventType> {
    if code == NOTE_OFF_CODE {
        Some(EventType::NoteOff)
    } else if code == NOTE_ON_CODE {
        Some(EventType::NoteOn)
    } else if code == CONTROL_CHANGE_CODE {
        Some(EventType::ControlChange)
    } else {
        None
    }
}

/// The three bytes that carry an event: status (type nibble above channel),
/// control id, value.
pub open spec fn wire_bytes(e: Event) -> Seq<u8> {
    seq![
        (type_code(e.mapping.event_type) * 16 + e.mapping.channel) as u8,
        e.mapping.control,
        e.value,
    ]
}

/// The event a raw message carries, if its status nibble names a supported
/// event type and it holds the three bytes such a message needs.
pub open spec fn event_of_bytes(msg: Seq<u8>) -> Option<Event> {
    if msg.len() < 3 {
        None
    } else {
        match type_of_code(msg[0] / 16) {
            Some(t) => Some(
                Event {
                    mapping: Mapping { event_type: t, channel: msg[0] % 16, control: msg[1] },
                    value: msg[2],
                },
            ),
            None => None,
        }
    }
}

/// Mapping for a note-on control.
pub fn note_on(channel: u8, control: u8) -> (m: Mapping)
    ensures
        m == (Mapping { event_type: EventType::NoteOn, channel, control }),
{
    Mapping { event_type: EventType::NoteOn, channel, control }
}

/// Mapping for a note-off control.
pub fn note_off(channel: u8, control: u8) -> (m: Mapping)
    ensures
        m == (Mapping { event_type: EventType::NoteOff, channel, control }),
{
    Mapping { event_type: EventType::NoteOff, channel, control }
}

/// Note-on mapping on channel 0, where most controls live.
pub fn note_on_ch0(control: u8) -> (m: Mapping)
    ensures
        m == (Mapping { event_type: EventType::NoteOn, channel: 0, control }),
{
    note_on(0, control)
}

/// Note-on mapping on channel 1, the other channel in common use.
pub fn note_on_ch1(control: u8) -> (m: Mapping)
    ensures
        m == (Mapping { event_type: EventType::NoteOn, channel: 1, control }),
{
    note_on(1, control)
}

/// Mapping for a control-change control.
pub fn cc(channel: u8, control: u8) -> (m: Mapping)
    ensures
        m == (Mapping { event_type: EventType::ControlChange, channel, control }),
{
    Mapping { event_type: EventType::ControlChange, channel, control }
}

/// Control-change mapping on channel 0.
pub fn cc_ch0(control: u8) -> (m: Mapping)
    ensures
        m == (Mapping { event_type: EventType::ControlChange, channel: 0, control }),
{
    cc(0, control)
}

/// An event for a mapping and a value.
pub fn event(mapping: Mapping, value: u8) -> (e: Event)
    ensures
        e == (Event { mapping, value }),
{
    Event { mapping, value }
}

/// Reads the event that a raw input message carries. A status nibble other
/// than note-off, note-on or control-change, or a message shorter than three
/// bytes, yields nothing: such input is dropped, not an error.
pub fn parse_message(msg: &[u8]) -> (r: Option<Event>)
    ensures
        r == event_of_bytes(msg@),
{
    if msg.len() < 3 {
        return None;
    }
    let status = msg[0];
    let code = status / 16;
    let event_type = if code == NOTE_OFF_CODE {
        EventType::NoteOff
    } else if code == NOTE_ON_CODE {
        EventType::NoteOn
    } else if code == CONTROL_CHANGE_CODE {
        EventType::ControlChange
    } else {
        return None;
    };
    Some(
        Event {
            mapping: Mapping { event_type, channel: status % 16, control: msg[1] },
            value: msg[2],
        },
    )
}

/// The three-byte wire form of an event.
pub fn encode_event(e: Event) -> (r: [u8; 3])
    requires
        e.mapping.channel < CHANNEL_COUNT,
    ensures
        r@ == wire_bytes(e),
{
    let code: u8 = match e.mapping.event_type {
        EventType::ControlChange => CONTROL_CHANGE_CODE,
        EventType::NoteOn => NOTE_ON_CODE,
        EventType::NoteOff => NOTE_OFF_CODE,
    };
    let r = [code * 16 + e.mapping.channel, e.mapping.control, e.value];
    assert(r@ =~= wire_bytes(e));
    r
}

/// Reading the wire form of an event gives the event back.
pub proof fn lemma_parse_encoded(e: Event)
    requires
        e.mapping.channel < CHANNEL_COUNT,
    ensures
        event_of_bytes(wire_bytes(e)) == Some(e),
{
    let b = wire_bytes(e);
    let code = type_code(e.mapping.event_type);
    let ch = e.mapping.channel;
    assert((code * 16 + ch) / 16 == code && (code * 16 + ch) % 16 == ch) by (nonlinear_arith)
        requires
            ch < 16,
            code <= 11,
    ;
    assert(b[0] == code * 16 + ch);
}

/// A message whose status nibble names a supported event type, re-encoded
/// after reading, gives back its three bytes.
pub proof fn lemma_encode_parsed(msg: Seq<u8>)
    requires
        msg.len() == 3,
        type_of_code(msg[0] / 16) is Some,
    ensures
        event_of_bytes(msg) matches Some(e) && e.mapping.channel < CHANNEL_COUNT && wire_bytes(e)
            == msg,
{
    let e = event_of_bytes(msg).unwrap();
    let s = msg[0];
    assert(type_code(e.mapping.event_type) == s / 16);
    assert((s / 16) * 16 + s % 16 == s) by (nonlinear_arith);
    assert(wire_bytes(e) =~= msg);
}

/// A status nibble other than note-off, note-on or control-change never
/// yields an event.
pub proof fn lemma_unsupported_dropped(msg: Seq<u8>)
    requires
        msg.len() >= 1,
        msg[0] / 16 != NOTE_OFF_CODE,
        msg[0] / 16 != NOTE_ON_CODE,
        msg[0] / 16 != CONTROL_CHANGE_CODE,
    ensures
        event_of_bytes(msg) is None,
{
}

/// What is needed to connect to one device: its class, and the names of its
/// input and output ports.
#[derive(Clone, Debug)]
pub struct DeviceSpec {
    pub device: Device,
    pub input_port_name: String,
    pub output_port_name: String,
}

/// Whether `r` lists exactly the indices of the outputs registered for
/// `device`, in registration order.
pub open spec fn is_fan_out(outputs: Seq<Device>, device: Device, r: Seq<usize>) -> bool {
    &&& forall|j: int, l: int| 0 <= j < l < r.len() ==> r[j] < r[l]
    &&& forall|j: int| 0 <= j < r.len() ==> r[j] < outputs.len() && outputs[r[j] as int] == device
    &&& forall|k: int| 0 <= k < outputs.len() && outputs[k] == device ==> exists|j: int|
        0 <= j < r.len() && r[j] == k
}

/// The outputs that an event sent to `device` goes to: every registered output
/// of that device class, in registration order, whatever becomes of the sends
/// to the others.
pub fn targets(outputs: &Vec<Device>, device: Device) -> (r: Vec<usize>)
    ensures
        is_fan_out(outputs@, device, r@),
{
    let mut r: Vec<usize> = Vec::new();
    let mut i: usize = 0;
    while i < outputs.len()
        invariant
            i <= outputs@.len(),
            forall|j: int, l: int| 0 <= j < l < r@.len() ==> r@[j] < r@[l],
            forall|j: int| 0 <= j < r@.len() ==> r@[j] < i && outputs@[r@[j] as int] == device,
            forall|k: int| 0 <= k < i && outputs@[k] == device ==> exists|j: int|
                0 <= j < r@.len() && r@[j] == k,
        decreases outputs@.len() - i,
    {
        let ghost before = r@;
        if outputs[i] == device {
            r.push(i);
        }
        assert forall|k: int| 0 <= k <= i && outputs@[k] == device implies exists|j: int|
            0 <= j < r@.len() && r@[j] == k by {
            if k < i {
                let j = choose|j: int| 0 <= j < before.len() && before[j] == k;
                assert(r@[j] == before[j]);
            } else {
                assert(r@[r@.len() - 1] == k);
            }
        }
        i = i + 1;
    }
    r
}

/// An event sent to a device class goes to every output registered for that
/// class, and to no other: of two outputs of one class, each gets it, even
/// where the send to the other fails.
pub proof fn lemma_fan_out_reaches_each(outputs: Seq<Device>, device: Device, r: Seq<usize>, k: int)
    requires
        is_fan_out(outputs, device, r),
        0 <= k < outputs.len(),
    ensures
        (exists|j: int| 0 <= j < r.len() && r[j] == k) <==> outputs[k] == device,
{
}

/// Resolves a port by its human-readable name: the first of the available
/// port names that matches exactly.
pub fn find_port(names: &Vec<String>, name: &String) -> (r: Option<usize>)
    ensures
        match r {
            Some(i) => i < names@.len() && names@[i as int]@ == name@ && forall|j: int|
                0 <= j < i ==> names@[j]@ != name@,
            None => forall|j: int| 0 <= j < names@.len() ==> names@[j]@ != name@,
        },
{
    let mut i: usize = 0;
    while i < names.len()
        invariant
            i <= names@.len(),
            forall|j: int| 0 <= j < i ==> names@[j]@ != name@,
        decreases names@.len() - i,
    {
        if names[i] == *name {
            return Some(i);
        }
        i = i + 1;
    }
    None
}

} // verus!
