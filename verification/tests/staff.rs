use midi_staff_trainer::staff::{natural_notes_in_range, note_glyph, random_natural_note, Note};

// ── Note::letter ─────────────────────────────────────────────────────────

#[test]
fn letter_natural_notes() {
    let cases = [
        (60, "C"), (62, "D"), (64, "E"), (65, "F"),
        (67, "G"), (69, "A"), (71, "B"),
    ];
    for (midi, expected) in cases {
        assert_eq!(Note::new(midi).letter(), expected, "MIDI {midi}");
    }
}

#[test]
fn letter_accidentals_are_sharps() {
    let cases = [
        (61, "C#"), (63, "D#"), (66, "F#"), (68, "G#"), (70, "A#"),
    ];
    for (midi, expected) in cases {
        assert_eq!(Note::new(midi).letter(), expected, "MIDI {midi}");
    }
}

#[test]
fn letter_repeats_every_octave() {
    assert_eq!(Note::new(48).letter(), "C"); // C3
    assert_eq!(Note::new(60).letter(), "C"); // C4
    assert_eq!(Note::new(72).letter(), "C"); // C5
}

// ── Note::octave ──────────────────────────────────────────────────────────

#[test]
fn octave_middle_c() {
    assert_eq!(Note::new(60).octave(), 4);
}

#[test]
fn octave_c_notes_across_range() {
    assert_eq!(Note::new(0).octave(), -1);  // C-1
    assert_eq!(Note::new(12).octave(), 0);  // C0
    assert_eq!(Note::new(24).octave(), 1);  // C1
    assert_eq!(Note::new(36).octave(), 2);  // C2
    assert_eq!(Note::new(48).octave(), 3);  // C3
    assert_eq!(Note::new(72).octave(), 5);  // C5
    assert_eq!(Note::new(84).octave(), 6);  // C6
    assert_eq!(Note::new(96).octave(), 7);  // C7
}

#[test]
fn octave_non_c_notes() {
    assert_eq!(Note::new(69).octave(), 4);  // A4  (69/12=5, 5-1=4)
    assert_eq!(Note::new(71).octave(), 4);  // B4
    assert_eq!(Note::new(127).octave(), 9); // G9
}

// ── Note::name ────────────────────────────────────────────────────────────

#[test]
fn name_middle_c() {
    assert_eq!(Note::new(60).name(), "C4");
    assert_eq!(Note::new(60).name(), "C4");
}

#[test]
fn name_accidentals() {
    assert_eq!(Note::new(61).name(), "C#4");
    assert_eq!(Note::new(66).name(), "F#4");
    assert_eq!(Note::new(70).name(), "A#4");
}

#[test]
fn name_across_octaves() {
    assert_eq!(Note::new(48).name(), "C3");
    assert_eq!(Note::new(84).name(), "C6");
    assert_eq!(Note::new(69).name(), "A4");
}

#[test]
fn name_negative_and_two_digit_octaves() {
    assert_eq!(Note::new(0).name(), "C-1");
    assert_eq!(Note::new(11).name(), "B-1");
    assert_eq!(Note::new(127).name(), "G9");
    assert_eq!(Note::new(132).name(), "C10");
    assert_eq!(Note::new(255).name(), "D#20");
}

// ── Note::is_accidental ───────────────────────────────────────────────────

#[test]
fn natural_notes_are_not_accidental() {
    for midi in [48u8, 50, 52, 53, 55, 57, 59, 60, 62, 64, 65, 67, 69, 71, 72] {
        assert!(!Note::new(midi).is_accidental(), "MIDI {midi} should be natural");
    }
}

#[test]
fn sharp_notes_are_accidental() {
    for midi in [49u8, 51, 54, 56, 58, 61, 63, 66, 68, 70, 73] {
        assert!(Note::new(midi).is_accidental(), "MIDI {midi} should be accidental");
    }
}

#[test]
fn is_accidental_repeats_every_octave() {
    for midi in 0u8..12 {
        assert_eq!(
            Note::new(midi).is_accidental(),
            Note::new(midi + 12).is_accidental(),
            "Accidental pattern should repeat at MIDI {midi}",
        );
    }
}

// ── Note::staff_position ─────────────────────────────────────────────────

#[test]
fn staff_position_c4_is_zero() {
    assert_eq!(Note::new(60).staff_position(), 0);
}

#[test]
fn staff_position_treble_staff_lines() {
    // From bottom: E4 (line 1) = pos 2, G4 = 4, B4 = 6, D5 = 8, F5 = 10
    assert_eq!(Note::new(64).staff_position(), 2);  // E4
    assert_eq!(Note::new(67).staff_position(), 4);  // G4
    assert_eq!(Note::new(71).staff_position(), 6);  // B4
    assert_eq!(Note::new(74).staff_position(), 8);  // D5
    assert_eq!(Note::new(77).staff_position(), 10); // F5
}

#[test]
fn staff_position_treble_spaces() {
    // Spaces between the five staff lines
    assert_eq!(Note::new(65).staff_position(), 3); // F4  (1st space)
    assert_eq!(Note::new(69).staff_position(), 5); // A4  (2nd space)
    assert_eq!(Note::new(72).staff_position(), 7); // C5  (3rd space)
    assert_eq!(Note::new(76).staff_position(), 9); // E5  (4th space)
}

#[test]
fn staff_position_below_staff() {
    assert_eq!(Note::new(62).staff_position(), 1);  // D4 — space below bottom line
    assert_eq!(Note::new(59).staff_position(), -1); // B3
    assert_eq!(Note::new(57).staff_position(), -2); // A3
    assert_eq!(Note::new(55).staff_position(), -3); // G3
    assert_eq!(Note::new(53).staff_position(), -4); // F3
    assert_eq!(Note::new(52).staff_position(), -5); // E3
    assert_eq!(Note::new(50).staff_position(), -6); // D3
    assert_eq!(Note::new(48).staff_position(), -7); // C3 — 5 ledger lines below
}

#[test]
fn staff_position_above_staff() {
    assert_eq!(Note::new(79).staff_position(), 11); // G5
    assert_eq!(Note::new(81).staff_position(), 12); // A5
    assert_eq!(Note::new(84).staff_position(), 14); // C6
}

#[test]
fn staff_position_accidentals_share_natural_below() {
    // Each accidental must occupy the same position as the natural below it.
    let sharps_and_naturals = [
        (61, 60), // C#4 == C4
        (63, 62), // D#4 == D4
        (66, 65), // F#4 == F4
        (68, 67), // G#4 == G4
        (70, 69), // A#4 == A4
    ];
    for (sharp, natural) in sharps_and_naturals {
        assert_eq!(
            Note::new(sharp).staff_position(),
            Note::new(natural).staff_position(),
            "C#/D# etc. should share position with natural below",
        );
    }
}

#[test]
fn staff_position_one_octave_is_seven_diatonic_steps() {
    for root in [48u8, 50, 52, 53, 55, 57, 59] {
        let low = Note::new(root).staff_position();
        let high = Note::new(root + 12).staff_position();
        assert_eq!(high - low, 7, "Octave should span 7 diatonic steps (root MIDI {root})");
    }
}

#[test]
fn staff_position_extremes() {
    assert_eq!(Note::new(0).staff_position(), -35); // C-1
    assert_eq!(Note::new(255).staff_position(), 113); // D#20 sits on D20
}

// ── natural_notes_in_range ────────────────────────────────────────────────

#[test]
fn natural_notes_one_octave_c4_to_c5() {
    assert_eq!(
        natural_notes_in_range(60, 72),
        [60, 62, 64, 65, 67, 69, 71, 72],
    );
}

#[test]
fn natural_notes_excludes_all_accidentals() {
    for &m in &natural_notes_in_range(36, 96) {
        assert!(!Note::new(m).is_accidental(), "MIDI {m} should be natural");
    }
}

#[test]
fn natural_notes_includes_both_endpoints_when_natural() {
    let notes = natural_notes_in_range(64, 71); // E4 ..= B4
    assert_eq!(notes.first().copied(), Some(64));
    assert_eq!(notes.last().copied(), Some(71));
}

#[test]
fn natural_notes_single_natural_endpoint() {
    assert_eq!(natural_notes_in_range(60, 60), [60]);
}

#[test]
fn natural_notes_single_accidental_is_empty() {
    assert_eq!(natural_notes_in_range(61, 61), Vec::<u8>::new());
}

#[test]
fn natural_notes_inverted_range_is_empty() {
    assert_eq!(natural_notes_in_range(72, 60), Vec::<u8>::new());
}

#[test]
fn natural_notes_two_naturals_with_accidental_between() {
    // C4, C#4, D4
    assert_eq!(natural_notes_in_range(60, 62), [60, 62]);
}

#[test]
fn natural_notes_count_per_octave() {
    // Seven naturals per octave (C D E F G A B).
    assert_eq!(natural_notes_in_range(60, 71).len(), 7);
}

#[test]
fn natural_notes_full_byte_range() {
    let notes = natural_notes_in_range(0, 255);
    assert_eq!(notes.first().copied(), Some(0));
    assert_eq!(notes.last().copied(), Some(254)); // D20; 255 is D#20
    assert_eq!(notes.len(), 149); // 21 octaves of 7, plus C20 and D20
}

// ── random_natural_note ───────────────────────────────────────────────────

#[test]
fn random_note_always_in_range() {
    let (low, high) = (48u8, 84u8);
    for _ in 0..200 {
        let note = random_natural_note(low, high);
        assert!(note.midi >= low && note.midi <= high, "note {} outside {low}–{high}", note.name());
    }
}

#[test]
fn random_note_never_accidental() {
    for _ in 0..200 {
        assert!(!random_natural_note(48, 84).is_accidental());
    }
}

#[test]
fn random_note_fallback_when_no_naturals() {
    assert_eq!(random_natural_note(61, 61).midi, 60); // only C#4 in range → C4 fallback
}

#[test]
fn random_note_single_choice() {
    for _ in 0..20 {
        assert_eq!(random_natural_note(60, 60).midi, 60); // only C4 available
    }
}

#[test]
fn random_note_produces_variety() {
    // With a 3-octave range (C3–C6, 22 natural notes) we should see at least
    // 5 distinct notes in 50 draws — probability of failure is negligibly small.
    let notes: std::collections::HashSet<u8> =
        (0..50).map(|_| random_natural_note(48, 84).midi).collect();
    assert!(notes.len() >= 5, "random_natural_note appears non-random: only {}", notes.len());
}

#[test]
fn notes_carry_their_written_length() {
    assert_eq!(Note::new(60).sixteenths, 4);
    let half = Note::with_length(62, 8);
    assert_eq!((half.midi, half.sixteenths), (62, 8));
    assert_ne!(half, Note::new(62));
    assert_eq!(half.name(), "D4");
}

#[test]
fn any_twelve_consecutive_notes_hold_five_accidentals() {
    for start in 0u8..=116 {
        let accidentals = (start..start + 12).filter(|&m| Note::new(m).is_accidental()).count();
        assert_eq!(accidentals, 5, "from MIDI {start}");
    }
}

#[test]
fn glyph_gives_head_stem_and_flags_by_length() {
    let whole = note_glyph(Note::with_length(60, 16));
    assert!(whole.open_head && whole.large_head && !whole.stem && whole.flags == 0);
    let half = note_glyph(Note::with_length(60, 8));
    assert!(half.open_head && !half.large_head && half.stem && half.flags == 0);
    let quarter = note_glyph(Note::new(60));
    assert!(!quarter.open_head && quarter.stem && quarter.flags == 0);
    assert_eq!(note_glyph(Note::with_length(60, 2)).flags, 1);
    assert_eq!(note_glyph(Note::with_length(60, 1)).flags, 2);
}

#[test]
fn glyph_points_stem_and_counts_ledger_lines_by_position() {
    assert!(note_glyph(Note::new(71)).stem_up); // B4, middle line
    assert!(!note_glyph(Note::new(72)).stem_up); // C5
    let c4 = note_glyph(Note::new(60));
    assert_eq!((c4.ledger_below, c4.ledger_above), (1, 0));
    assert_eq!(note_glyph(Note::new(59)).ledger_below, 1); // B3
    assert_eq!(note_glyph(Note::new(57)).ledger_below, 2); // A3
    assert_eq!(note_glyph(Note::new(64)).ledger_below, 0); // E4, bottom line
    assert_eq!(note_glyph(Note::new(77)).ledger_above, 0); // F5, top line
    assert_eq!(note_glyph(Note::new(79)).ledger_above, 0); // G5
    assert_eq!(note_glyph(Note::new(81)).ledger_above, 1); // A5
    assert_eq!(note_glyph(Note::new(84)).ledger_above, 2); // C6
}
