use tunnels::device::Device;
use tunnels::midi::{
    cc, cc_ch0, encode_event, event, find_port, note_off, note_on, note_on_ch0, note_on_ch1,
    parse_message, targets, Event, EventType, Mapping,
};

#[test]
fn mapping_constructors() {
    assert_eq!(
        note_on(3, 40),
        Mapping { event_type: EventType::NoteOn, channel: 3, control: 40 }
    );
    assert_eq!(
        note_off(2, 7),
        Mapping { event_type: EventType::NoteOff, channel: 2, control: 7 }
    );
    assert_eq!(note_on_ch0(9), note_on(0, 9));
    assert_eq!(note_on_ch1(9), note_on(1, 9));
    assert_eq!(
        cc(5, 64),
        Mapping { event_type: EventType::ControlChange, channel: 5, control: 64 }
    );
    assert_eq!(cc_ch0(64), cc(0, 64));
    let e = event(cc(1, 2), 99);
    assert_eq!(e.mapping, cc(1, 2));
    assert_eq!(e.value, 99);
}

#[test]
fn status_nibbles_select_event_types() {
    assert_eq!(parse_message(&[0x80, 60, 0]), Some(event(note_off(0, 60), 0)));
    assert_eq!(parse_message(&[0x9f, 60, 127]), Some(event(note_on(15, 60), 127)));
    assert_eq!(parse_message(&[0xb3, 7, 100]), Some(event(cc(3, 7), 100)));
}

#[test]
fn unsupported_status_nibbles_are_dropped() {
    for nibble in [0u8, 1, 2, 3, 4, 5, 6, 7, 10, 12, 13, 14, 15] {
        for channel in 0..16u8 {
            assert_eq!(parse_message(&[(nibble << 4) | channel, 1, 2]), None);
        }
    }
}

#[test]
fn short_messages_are_dropped() {
    assert_eq!(parse_message(&[]), None);
    assert_eq!(parse_message(&[0xf8]), None);
    assert_eq!(parse_message(&[0x90, 60]), None);
}

#[test]
fn encoding_puts_type_above_channel() {
    assert_eq!(encode_event(event(cc(0, 1), 2)), [0xb0, 1, 2]);
    assert_eq!(encode_event(event(note_on(15, 255), 255)), [0x9f, 255, 255]);
    assert_eq!(encode_event(event(note_off(4, 0), 0)), [0x84, 0, 0]);
}

#[test]
fn decoding_then_encoding_gives_the_same_bytes() {
    for nibble in [8u8, 9, 11] {
        for channel in 0..16u8 {
            for control in 0..=255u8 {
                for value in [0u8, 1, 63, 64, 127, 128, 254, 255] {
                    let bytes = [(nibble << 4) | channel, control, value];
                    let e: Event = parse_message(&bytes).unwrap();
                    assert_eq!(encode_event(e), bytes);
                }
            }
        }
    }
}

#[test]
fn port_is_found_by_exact_name() {
    let names = vec![
        "APC40 mkII".to_string(),
        "APC40".to_string(),
        "TouchOSC Bridge".to_string(),
        "APC40".to_string(),
    ];
    assert_eq!(find_port(&names, &"APC40".to_string()), Some(1));
    assert_eq!(find_port(&names, &"TouchOSC Bridge".to_string()), Some(2));
    assert_eq!(find_port(&names, &"apc40".to_string()), None);
    assert_eq!(find_port(&vec![], &"APC40".to_string()), None);
}

#[test]
fn fan_out_reaches_every_output_of_the_class() {
    let outputs = vec![Device::AkaiApc40, Device::TouchOsc, Device::AkaiApc40];
    assert_eq!(targets(&outputs, Device::AkaiApc40), vec![0, 2]);
    assert_eq!(targets(&outputs, Device::TouchOsc), vec![1]);
    assert_eq!(targets(&outputs, Device::AkaiApc20), Vec::<usize>::new());
    assert_eq!(targets(&vec![], Device::TouchOsc), Vec::<usize>::new());
}
