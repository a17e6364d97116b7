use midi_staff_trainer::song::{MidiFileSong, Song};
use midi_staff_trainer::staff::Note;
use midi_staff_trainer::trainer::{bar_lines, Feedback, Mode, NoteOutcome, Score, Trainer, CORRECT_DISPLAY_MS, DEFAULT_PAGE_SIZE};

#[test]
fn accuracy_is_rounded_down_percentage() {
    assert_eq!(Score::default().accuracy_pct(), None);
    assert_eq!(Score { correct: 2, attempts: 3 }.accuracy_pct(), Some(66));
    assert_eq!(Score { correct: 5, attempts: 5 }.accuracy_pct(), Some(100));
    assert_eq!(Score { correct: 0, attempts: 4 }.accuracy_pct(), Some(0));
}

#[test]
fn new_trainer_shows_first_page() {
    let t = Trainer::new(60, 72);
    assert_eq!(t.page.len(), DEFAULT_PAGE_SIZE);
    assert_eq!(t.current_note, t.page[0]);
    assert_eq!(t.page_cursor, 0);
    assert_eq!(t.feedback, Feedback::Waiting);
    assert_eq!(t.score, Score { correct: 0, attempts: 0 });
    assert_eq!(t.mode, Mode::Playing);
}

#[test]
fn correct_note_scores_and_wrong_note_does_not() {
    let mut t = Trainer::new(60, 72);
    let expected = t.current_note;
    let wrong = if expected.midi == 60 { 62 } else { 60 };
    assert_eq!(t.receive_note(wrong, 50), NoteOutcome::Judged { advanced: false, correct: false });
    assert_eq!(t.feedback, Feedback::Wrong { expected, got: Note::new(wrong) });
    assert_eq!(t.score, Score { correct: 0, attempts: 1 });
    assert_eq!(t.receive_note(expected.midi, 50), NoteOutcome::Judged { advanced: false, correct: true });
    assert_eq!(t.feedback, Feedback::Correct(expected));
    assert_eq!(t.score, Score { correct: 1, attempts: 2 });
    // A fast correct answer raises the note one box.
    assert_eq!(t.song.as_random().unwrap().note_box(expected.midi), 1);
}

#[test]
fn playing_during_correct_feedback_moves_on_first() {
    let mut t = Trainer::new(60, 72);
    let first = t.current_note;
    t.receive_note(first.midi, 10);
    let second = t.page[1];
    let outcome = t.receive_note(second.midi, 5000);
    assert_eq!(outcome, NoteOutcome::Judged { advanced: true, correct: true });
    assert_eq!(t.current_note, second);
    assert_eq!(t.page_cursor, 1);
    // Judged as answered at once: fast, so one box up.
    assert_eq!(t.song.as_random().unwrap().note_box(second.midi), 1);
}

#[test]
fn slow_correct_answer_keeps_the_box() {
    let mut t = Trainer::new(60, 72);
    let first = t.current_note;
    t.receive_note(first.midi, 5000);
    assert_eq!(t.song.as_random().unwrap().note_box(first.midi), 0);
}

#[test]
fn note_outside_range_does_not_count() {
    let mut t = Trainer::new(60, 72);
    assert_eq!(t.receive_note(40, 10), NoteOutcome::OutOfRange);
    assert_eq!(t.feedback, Feedback::OutOfRange(Note::new(40)));
    assert_eq!(t.score.attempts, 0);
}

#[test]
fn advancing_flips_to_a_new_page() {
    let mut t = Trainer::new(60, 72);
    t.set_page_size(2);
    let page = t.page.clone();
    assert_eq!(page.len(), 2);
    t.advance_to_next();
    assert_eq!(t.page_cursor, 1);
    assert_eq!(t.current_note, page[1]);
    t.advance_to_next();
    assert_eq!(t.page_cursor, 0);
    assert_eq!(t.page.len(), 2);
    assert_eq!(t.current_note, t.page[0]);
    assert_eq!(t.page[0], t.song.current().unwrap());
}

#[test]
fn two_keys_set_the_training_range() {
    let mut t = Trainer::new(60, 72);
    t.start_setting_range();
    assert_eq!(t.receive_note(50, 0), NoteOutcome::RangeKey);
    assert_eq!(t.receive_note(50, 0), NoteOutcome::RangeKey);
    assert_eq!(t.receive_note(45, 0), NoteOutcome::RangeSet { low: 45, high: 50 });
    assert_eq!(t.mode, Mode::Playing);
    let r = t.song.as_random().unwrap();
    assert_eq!((r.active_low(), r.active_high()), (45, 50));
    assert!((45..=50).contains(&t.current_note.midi));
}

#[test]
fn cancel_leaves_range_unchanged() {
    let mut t = Trainer::new(60, 72);
    t.start_setting_range();
    t.receive_note(50, 0);
    t.cancel_setting_range();
    assert_eq!(t.mode, Mode::Playing);
    let r = t.song.as_random().unwrap();
    assert_eq!((r.active_low(), r.active_high()), (60, 72));
}

#[test]
fn midi_file_song_plays_in_order_and_restarts() {
    let tracks = vec![vec![
        (0u32, Some((64u8, 90u8, true)), None),
        (10, Some((65, 90, true)), None),
        (10, Some((67, 90, true)), None),
    ]];
    let file = MidiFileSong::from_tracks("song.mid".to_string(), Some(96), &tracks).unwrap();
    let mut t = Trainer::new(60, 72);
    t.receive_note(t.current_note.midi, 10);
    t.load_song(file);
    assert_eq!(t.score, Score::default());
    assert_eq!(t.current_note, Note::new(64));
    assert_eq!(t.receive_note(30, 10), NoteOutcome::Judged { advanced: false, correct: false });
    t.receive_note(64, 10);
    t.receive_note(65, 10);
    t.receive_note(67, 10);
    assert_eq!(t.score, Score { correct: 3, attempts: 4 });
    t.advance_to_next();
    assert!(t.song.is_complete());
    t.restart_song();
    assert_eq!(t.current_note, Note::new(64));
    assert_eq!(t.score, Score::default());
    assert!(!t.song.is_complete());
}

#[test]
fn exit_to_random_leaves_the_file() {
    let tracks = vec![vec![(0u32, Some((64u8, 90u8, true)), None)]];
    let mut t = Trainer::new(60, 72);
    t.load_song(MidiFileSong::from_tracks("s".to_string(), Some(96), &tracks).unwrap());
    assert!(matches!(t.song, Song::MidiFile(_)));
    t.exit_to_random(48, 60);
    let r = t.song.as_random().unwrap();
    assert_eq!((r.active_low(), r.active_high()), (48, 60));
}

#[test]
fn beat_cursor_moves_past_each_note_length() {
    let mut t = Trainer::new(60, 72);
    assert_eq!(t.beat_cursor, 0);
    t.advance_to_next();
    assert_eq!(t.beat_cursor, 4); // random notes are quarters
    t.advance_to_next();
    assert_eq!(t.beat_cursor, 8);
    t.restart_song();
    assert_eq!(t.beat_cursor, 0);
}

#[test]
fn beat_cursor_follows_lengths_of_a_midi_file() {
    let tracks = vec![vec![
        (0u32, Some((60u8, 80u8, true)), None),
        (192, Some((60, 0, true)), None),
        (0, Some((62, 80, true)), None),
        (48, Some((62, 0, false)), None),
    ]];
    let song = MidiFileSong::from_tracks("t".to_string(), Some(96), &tracks).unwrap();
    let mut t = Trainer::new(60, 72);
    t.advance_to_next();
    t.load_song(song);
    assert_eq!(t.beat_cursor, 0);
    assert_eq!(t.current_note, Note::with_length(60, 8));
    t.advance_to_next();
    assert_eq!(t.beat_cursor, 8);
    assert_eq!(t.current_note, Note::with_length(62, 2));
    t.advance_to_next();
    assert_eq!(t.beat_cursor, 10);
}

#[test]
fn correct_answer_moves_on_by_itself_after_the_display_time() {
    let mut t = Trainer::new(60, 72);
    let first = t.current_note;
    let second = t.page[1];
    assert!(!t.auto_advance(CORRECT_DISPLAY_MS)); // nothing answered yet
    t.receive_note(first.midi, 10);
    assert!(!t.auto_advance(CORRECT_DISPLAY_MS - 1));
    assert_eq!(t.current_note, first);
    assert!(t.auto_advance(CORRECT_DISPLAY_MS));
    assert_eq!(t.current_note, second);
    assert_eq!(t.feedback, Feedback::Waiting);
    assert!(!t.auto_advance(5000));
}

#[test]
fn bar_lines_follow_the_sixteenths_gone_by() {
    // In 4/4 a measure is 16 sixteenths: half, quarter, quarter | whole | ...
    let page = vec![
        Note::with_length(60, 8),
        Note::new(62),
        Note::new(64),
        Note::with_length(65, 16),
        Note::new(67),
    ];
    assert_eq!(bar_lines(&page, 0, 0, 4, 5), vec![false, false, false, true, true]);
    // Two notes already played (12 sixteenths), the beat cursor at 28: the
    // page started at 16.
    assert_eq!(bar_lines(&page, 2, 28, 4, 5), vec![false, false, false, true, true]);
    // In 3/4 a measure is 12 sixteenths.
    assert_eq!(bar_lines(&page, 0, 0, 3, 5), vec![false, false, true, false, true]);
    // A time signature of 0 beats counts as 1.
    assert_eq!(bar_lines(&page, 0, 0, 0, 3), vec![false, true, true]);
    assert!(bar_lines(&page, 0, 0, 4, 0).is_empty());
}
