use midi_staff_trainer::input::{add_range_key, choose_port, name_contains, note_on_key};

#[test]
fn note_on_with_velocity_gives_its_key() {
    assert_eq!(note_on_key(&[0x90, 60, 100]), Some(60));
    assert_eq!(note_on_key(&[0x9F, 72, 1]), Some(72)); // channel 16
}

#[test]
fn other_messages_give_no_key() {
    assert_eq!(note_on_key(&[0x90, 60, 0]), None); // note-on with velocity 0
    assert_eq!(note_on_key(&[0x80, 60, 64]), None); // note-off
    assert_eq!(note_on_key(&[0xB0, 7, 100]), None); // controller
    assert_eq!(note_on_key(&[0x90, 60]), None); // too short
    assert_eq!(note_on_key(&[]), None);
}

#[test]
fn range_needs_two_different_keys() {
    let mut keys = Vec::new();
    assert_eq!(add_range_key(&mut keys, 72), None);
    assert_eq!(add_range_key(&mut keys, 72), None); // same key again
    assert_eq!(keys, vec![72]);
    assert_eq!(add_range_key(&mut keys, 48), Some((48, 72))); // order does not matter
    assert_eq!(keys, vec![72, 48]);
}

#[test]
fn name_contains_finds_runs_of_bytes() {
    assert!(name_contains(b"A-PRO 1 MIDI", b"A-PRO 1"));
    assert!(name_contains(b"A-PRO 1 MIDI", b"MIDI"));
    assert!(name_contains(b"A-PRO", b""));
    assert!(!name_contains(b"A-PRO", b"A-PRO 1"));
    assert!(!name_contains(b"Midi Through", b"MIDI"));
}

#[test]
fn port_is_first_or_first_matching_hint() {
    let names = vec![Some(b"Midi Through".to_vec()), None, Some(b"A-PRO 1 MIDI".to_vec()), Some(b"A-PRO 2".to_vec())];
    assert_eq!(choose_port(&names, &None), Some(0));
    assert_eq!(choose_port(&names, &Some(b"A-PRO".to_vec())), Some(2));
    assert_eq!(choose_port(&names, &Some(b"PRO 2".to_vec())), Some(3));
    assert_eq!(choose_port(&names, &Some(b"Keystation".to_vec())), None);
    assert_eq!(choose_port(&Vec::new(), &None), None);
}
