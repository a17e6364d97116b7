//! The trainer's decisions: which note is shown, how a note played on the
//! keyboard is judged and scored, and how the training range is set. The
//! application around it keeps the clock, the MIDI connection and the
//! drawing.

use crate::input::add_range_key;
use crate::song::{
    accepts, is_correct_answer_of, is_peek_of, is_song_advance_of, is_song_restart_of, is_wrong_answer_of,
    MidiFileSong, RandomSong, Song,
};
use crate::staff::{Note, QUARTER};
use vstd::prelude::*;

verus! {

/// Number of notes shown on the staff until the drawing says how many fit.
pub const DEFAULT_PAGE_SIZE: usize = 8;

/// How long a correct answer stays on show before the trainer moves on by
/// itself, in milliseconds.
pub const CORRECT_DISPLAY_MS: u128 = 900;

/// Correct answers out of attempts.
#[derive(Debug, Clone, Copy, PartialEq, Eq, Structural)]
pub struct Score {
    pub correct: u32,
    pub attempts: u32,
}

impl Default for Score {
    /// No attempt yet.
    fn default() -> (s: Score)
        ensures
            s.correct == 0,
            s.attempts == 0,
    {
        Score { correct: 0, attempts: 0 }
    }
}

impl Score {
    /// Percentage of correct answers, rounded down; `None` before the first
    /// attempt.
    pub fn accuracy_pct(&self) -> (r: Option<u32>)
        requires
            self.correct * 100 <= u32::MAX,
        ensures
            r == if self.attempts == 0 {
                None
            } else {
                Some(((self.correct * 100) / (self.attempts as int)) as u32)
            },
    {
        if self.attempts == 0 {
            None
        } else {
            Some((self.correct * 100) / self.attempts)
        }
    }
}

/// What the trainer shows about the last note played.
#[derive(Debug, Clone, Copy, PartialEq, Eq, Structural)]
pub enum Feedback {
    /// Waiting for the note shown.
    Waiting,
    /// The note shown was played.
    Correct(Note),
    /// Another note was played.
    Wrong { expected: Note, got: Note },
    /// A note outside the training range was played; it does not count.
    OutOfRange(Note),
}

/// Playing notes, or collecting the two keys that set the training range.
#[derive(Debug, PartialEq, Eq)]
pub enum Mode {
    Playing,
    SettingRange(Vec<u8>),
}

/// What became of a note from the keyboard.
#[derive(Debug, Clone, Copy, PartialEq, Eq, Structural)]
pub enum NoteOutcome {
    /// One key of the new training range is in; the range is not complete.
    RangeKey,
    /// Both keys are in: the training range is now `low..=high`.
    RangeSet { low: u8, high: u8 },
    /// The note lies outside the training range and does not count.
    OutOfRange,
    /// The note was judged; `advanced` says that the trainer first moved on
    /// from a note already answered correctly.
    Judged { advanced: bool, correct: bool },
}

/// Total length, in sixteenths, of the first `n` notes of `page`.
pub open spec fn sixteenths_sum(page: Seq<Note>, n: int) -> int
    decreases n,
{
    if n <= 0 {
        0
    } else {
        sixteenths_sum(page, n - 1) + page[n - 1].sixteenths
    }
}

/// Sixteenths gone by when the first note of the page started: the beat
/// cursor less the notes of the page already played (0 if that is more).
pub open spec fn page_start(page: Seq<Note>, cursor: int, beat_cursor: int) -> int {
    if beat_cursor >= sixteenths_sum(page, cursor) {
        beat_cursor - sixteenths_sum(page, cursor)
    } else {
        0
    }
}

/// Length of a measure in sixteenths: `beats_per_measure` quarter beats (at
/// least one).
pub open spec fn measure_length(beats_per_measure: int) -> int {
    (if beats_per_measure < 1 { 1 } else { beats_per_measure }) * 4
}

/// Whether a bar line stands before note `i` of the page: a new measure has
/// begun since note `i - 1` started.
pub open spec fn bar_before(page: Seq<Note>, cursor: int, beat_cursor: int, beats_per_measure: int, i: int) -> bool {
    let start = page_start(page, cursor, beat_cursor);
    let m = measure_length(beats_per_measure);
    i > 0 && (start + sixteenths_sum(page, i)) / m > (start + sixteenths_sum(page, i - 1)) / m
}

/// `a / m` passes `b / m` exactly when a multiple of `m` lies in `b < x <= a`.
proof fn lemma_boundary_between(a: int, b: int, m: int)
    requires
        0 <= b <= a,
        m > 0,
    ensures
        (a / m > b / m) <==> exists|k: int| b < #[trigger] (k * m) <= a,
{
    vstd::arithmetic::div_mod::lemma_fundamental_div_mod(a, m);
    vstd::arithmetic::div_mod::lemma_fundamental_div_mod(b, m);
    vstd::arithmetic::div_mod::lemma_mod_pos_bound(a, m);
    vstd::arithmetic::div_mod::lemma_mod_pos_bound(b, m);
    let qa = a / m;
    let qb = b / m;
    let ra = a % m;
    let rb = b % m;
    if qa > qb {
        assert(b < qa * m && qa * m <= a) by (nonlinear_arith)
            requires
                a == m * qa + ra,
                b == m * qb + rb,
                0 <= ra < m,
                0 <= rb < m,
                qa > qb,
                m > 0,
        ;
    }
    if exists|k: int| b < #[trigger] (k * m) <= a {
        let k = choose|k: int| b < #[trigger] (k * m) <= a;
        assert(k <= qa) by (nonlinear_arith)
            requires
                a == m * qa + ra,
                0 <= ra < m,
                k * m <= a,
                m > 0,
        ;
        assert(qb < k) by (nonlinear_arith)
            requires
                b == m * qb + rb,
                0 <= rb,
                b < k * m,
                m > 0,
        ;
    }
}

/// Bar lines follow the count of sixteenths from the start of the song, not
/// the page: the page starts where the beat cursor stands less the notes of
/// the page already played, and a bar line stands before note `i` exactly
/// when a measure boundary (a multiple of the measure length, which is four
/// sixteenths per beat) falls after the start of note `i - 1` and no later
/// than the start of note `i`. The first note of a page never gets one.
pub proof fn lemma_bar_lines_follow_the_song(page: Seq<Note>, cursor: int, beat_cursor: int, bpm: int, i: int)
    requires
        0 <= cursor <= page.len(),
        0 <= bpm <= 255,
        sixteenths_sum(page, cursor) <= beat_cursor,
        0 <= i <= page.len(),
    ensures
        page_start(page, cursor, beat_cursor) + sixteenths_sum(page, cursor) == beat_cursor,
        sixteenths_sum(page, 0) == 0,
        i > 0 ==> sixteenths_sum(page, i) == sixteenths_sum(page, i - 1) + page[i - 1].sixteenths,
        bpm >= 1 ==> measure_length(bpm) == 4 * bpm,
        bpm == 0 ==> measure_length(bpm) == 4,
        !bar_before(page, cursor, beat_cursor, bpm, 0),
        i > 0 ==> (bar_before(page, cursor, beat_cursor, bpm, i) <==> exists|k: int|
            page_start(page, cursor, beat_cursor) + sixteenths_sum(page, i - 1) < #[trigger] (k * measure_length(
                bpm,
            )) <= page_start(page, cursor, beat_cursor) + sixteenths_sum(page, i)),
{
    if i > 0 {
        lemma_sixteenths_sum_bound(page, i - 1);
        let start = page_start(page, cursor, beat_cursor);
        lemma_boundary_between(
            start + sixteenths_sum(page, i),
            start + sixteenths_sum(page, i - 1),
            measure_length(bpm),
        );
    }
}

/// A page of notes never lasts more than 255 sixteenths per note.
proof fn lemma_sixteenths_sum_bound(page: Seq<Note>, n: int)
    requires
        0 <= n <= page.len(),
    ensures
        0 <= sixteenths_sum(page, n) <= 255 * n,
    decreases n,
{
    if n > 0 {
        lemma_sixteenths_sum_bound(page, n - 1);
    }
}

/// For each of the first `visible` notes of the page, whether a measure bar
/// line stands just before it. The bars follow the sixteenths gone by: the
/// beat cursor stands at the note under `cursor`, and a measure holds
/// `beats_per_measure` quarter beats.
pub fn bar_lines(page: &Vec<Note>, cursor: usize, beat_cursor: u64, beats_per_measure: u8, visible: usize) -> (r:
    Vec<bool>)
    requires
        cursor <= page@.len(),
        visible <= page@.len(),
    ensures
        r@.len() == visible,
        forall|i: int|
            0 <= i < visible ==> #[trigger] r@[i] == bar_before(
                page@,
                cursor as int,
                beat_cursor as int,
                beats_per_measure as int,
                i,
            ),
{
    let ghost p = page@;
    let mut played: u128 = 0;
    for i in 0..cursor
        invariant
            p == page@,
            cursor <= p.len(),
            played as int == sixteenths_sum(p, i as int),
    {
        proof {
            lemma_sixteenths_sum_bound(p, i as int);
            assert(255 * (i as int) <= 255 * 18446744073709551615) by (nonlinear_arith)
                requires
                    i < 18446744073709551615int,
            ;
        }
        played = played + page[i].sixteenths as u128;
    }
    let start: u128 = if beat_cursor as u128 >= played { beat_cursor as u128 - played } else { 0 };
    let beats: u128 = if beats_per_measure < 1 { 1 } else { beats_per_measure as u128 };
    let m: u128 = beats * 4;
    let mut r: Vec<bool> = Vec::new();
    let mut running: u128 = start;
    for i in 0..visible
        invariant
            p == page@,
            visible <= p.len(),
            start as int == page_start(p, cursor as int, beat_cursor as int),
            m as int == measure_length(beats_per_measure as int),
            start <= beat_cursor,
            running as int == start + sixteenths_sum(p, i as int),
            r@.len() == i,
            forall|j: int|
                0 <= j < i ==> #[trigger] r@[j] == bar_before(
                    p,
                    cursor as int,
                    beat_cursor as int,
                    beats_per_measure as int,
                    j,
                ),
    {
        proof {
            lemma_sixteenths_sum_bound(p, i as int);
            assert(255 * (i as int) <= 255 * 18446744073709551615) by (nonlinear_arith)
                requires
                    i < 18446744073709551615int,
            ;
        }
        if i == 0 {
            r.push(false);
        } else {
            proof {
                lemma_sixteenths_sum_bound(p, i - 1);
                assert(sixteenths_sum(p, i as int) == sixteenths_sum(p, i - 1) + p[i - 1].sixteenths);
            }
            let before = running - page[i - 1].sixteenths as u128;
            r.push(running / m > before / m);
        }
        running = running + page[i].sixteenths as u128;
    }
    r
}

/// A keyboard shortcut of the trainer.
#[derive(Debug, Clone, Copy, PartialEq, Eq, Structural)]
pub enum Shortcut {
    /// Start the song over (Ctrl+R).
    Restart,
    /// Set the training range by playing two keys (R).
    SetRange,
    /// Stop setting the range, or leave a MIDI-file song (Esc).
    Escape,
}

/// What a shortcut did.
#[derive(Debug, Clone, Copy, PartialEq, Eq, Structural)]
pub enum ShortcutOutcome {
    /// The song started over.
    Restarted,
    /// The trainer now collects the two keys of a new range.
    SettingRange,
    /// Setting the range was given up.
    Cancelled,
    /// The MIDI-file song was left for a random session.
    LeftFile,
    /// The shortcut does nothing in this state.
    Ignored,
}

/// The trainer: the song, the score, the staff page on show and the mode.
pub struct Trainer {
    pub song: Song,
    pub score: Score,
    pub feedback: Feedback,
    pub current_note: Note,
    /// The notes on the staff.
    pub page: Vec<Note>,
    /// Position of the current note on the page.
    pub page_cursor: usize,
    /// How many notes the staff shows.
    pub page_size: usize,
    /// Sixteenths moved past since the page was last reset, for placing the
    /// bar lines.
    pub beat_cursor: u64,
    pub mode: Mode,
}

/// The notes a page of `size` shows for `song`: its first `size` upcoming
/// notes (at least one is asked for).
pub open spec fn is_page_of(song: Song, size: int, page: Seq<Note>) -> bool {
    is_peek_of(song, if size < 1 { 1 } else { size }, page)
}

/// The first note of a page, C4 when the page is empty.
pub open spec fn first_or_c4(page: Seq<Note>) -> Note {
    if page.len() > 0 { page[0] } else { Note { midi: 60, sixteenths: QUARTER } }
}

/// Length, in sixteenths, of the note under the cursor (a quarter when the
/// cursor is past the page).
pub open spec fn cursor_length(t: Trainer) -> int {
    if t.page_cursor < t.page@.len() {
        t.page@[t.page_cursor as int].sixteenths as int
    } else {
        QUARTER as int
    }
}

/// The keys collected for the training range once `midi` is pressed: a key
/// already pressed is not added twice.
pub open spec fn keys_after(keys: Seq<u8>, midi: u8) -> Seq<u8> {
    if keys.contains(midi) { keys } else { keys.push(midi) }
}

/// `after` is `before` moved on to the next note: the beat cursor moves past
/// the length of the note under the cursor, the song advances and the
/// cursor moves along the page; past the end of the page the next page is
/// loaded. The current note becomes the one under the cursor (kept when the
/// page is empty) and the feedback goes back to waiting.
pub open spec fn is_next_note_of(before: Trainer, after: Trainer) -> bool {
    let flipped = before.page_cursor + 1 >= before.page@.len();
    &&& is_song_advance_of(before.song, after.song)
    &&& after.beat_cursor == before.beat_cursor + cursor_length(before)
    &&& flipped ==> is_page_of(after.song, before.page_size as int, after.page@) && after.page_cursor == 0
    &&& !flipped ==> after.page@ == before.page@ && after.page_cursor == before.page_cursor + 1
    &&& after.current_note == if after.page_cursor < after.page@.len() {
        after.page@[after.page_cursor as int]
    } else {
        before.current_note
    }
    &&& after.feedback == Feedback::Waiting
    &&& after.score == before.score
    &&& after.page_size == before.page_size
    &&& after.mode == before.mode
}

/// `after` is `mid` once `played` has been judged against the current note,
/// `latency_ms` milliseconds after it was shown: one more attempt; a match
/// scores, shows `Correct` and moves the note as a correct answer; anything
/// else shows `Wrong` and counts as a wrong answer on the note expected.
pub open spec fn is_judgement_of(mid: Trainer, after: Trainer, played: u8, latency_ms: int) -> bool {
    &&& after.score.attempts == mid.score.attempts + 1
    &&& played == mid.current_note.midi ==> {
        &&& after.score.correct == mid.score.correct + 1
        &&& after.feedback == Feedback::Correct(mid.current_note)
        &&& is_correct_answer_of(mid.song, after.song, played, latency_ms)
    }
    &&& played != mid.current_note.midi ==> {
        &&& after.score.correct == mid.score.correct
        &&& after.feedback == Feedback::Wrong { expected: mid.current_note, got: Note { midi: played, sixteenths: QUARTER } }
        &&& is_wrong_answer_of(mid.song, after.song, mid.current_note.midi)
    }
    &&& after.current_note == mid.current_note
    &&& after.page@ == mid.page@
    &&& after.page_cursor == mid.page_cursor
    &&& after.page_size == mid.page_size
    &&& after.beat_cursor == mid.beat_cursor
    &&& after.mode == mid.mode
}

impl Trainer {
    /// The song is valid, the score never counts more correct answers than
    /// attempts, and the cursor stands on the page (or at 0).
    pub open spec fn wf(&self) -> bool {
        &&& self.song.wf()
        &&& self.score.correct <= self.score.attempts
        &&& self.page_cursor < self.page@.len() || self.page_cursor == 0
    }

    /// Room for one more attempt and one more note.
    pub open spec fn can_play(&self) -> bool {
        &&& self.score.attempts < u32::MAX
        &&& self.beat_cursor <= u64::MAX - 255
        &&& self.song matches Song::Random(r) ==> r.position() < usize::MAX
    }

    /// An endless random session over the naturals of `low..=high`.
    pub fn new(low: u8, high: u8) -> (t: Trainer)
        ensures
            t.wf(),
            t.song matches Song::Random(r) && r.range_low() == low && r.range_high() == high
                && r.session_size() is None && r.position() == 0,
            t.page_size == DEFAULT_PAGE_SIZE,
            is_page_of(t.song, DEFAULT_PAGE_SIZE as int, t.page@),
            t.page_cursor == 0,
            t.current_note == first_or_c4(t.page@),
            t.feedback == Feedback::Waiting,
            t.score == (Score { correct: 0, attempts: 0 }),
            t.beat_cursor == 0,
            t.mode == Mode::Playing,
    {
        let song = Song::Random(RandomSong::new(low, high, None));
        let page = song.peek(DEFAULT_PAGE_SIZE);
        let current_note = if page.len() > 0 { page[0] } else { Note::new(60) };
        Trainer {
            song,
            score: Score::default(),
            feedback: Feedback::Waiting,
            current_note,
            page,
            page_cursor: 0,
            page_size: DEFAULT_PAGE_SIZE,
            beat_cursor: 0,
            mode: Mode::Playing,
        }
    }

    /// Reloads the page from the song's current position, with the beat
    /// cursor back at 0.
    pub fn reset_page(&mut self)
        requires
            old(self).song.wf(),
        ensures
            is_page_of(final(self).song, final(self).page_size as int, final(self).page@),
            final(self).page_cursor == 0,
            final(self).beat_cursor == 0,
            final(self).current_note == first_or_c4(final(self).page@),
            final(self).song == old(self).song,
            final(self).score == old(self).score,
            final(self).feedback == old(self).feedback,
            final(self).page_size == old(self).page_size,
            final(self).mode == old(self).mode,
    {
        let size = if self.page_size < 1 { 1 } else { self.page_size };
        self.page = self.song.peek(size);
        self.page_cursor = 0;
        self.beat_cursor = 0;
        self.current_note = if self.page.len() > 0 { self.page[0] } else { Note::new(60) };
    }

    /// Shows `size` notes from now on, starting a new page at the current
    /// note.
    pub fn set_page_size(&mut self, size: usize)
        requires
            old(self).song.wf(),
        ensures
            final(self).page_size == size,
            is_page_of(final(self).song, size as int, final(self).page@),
            final(self).page_cursor == 0,
            final(self).current_note == if final(self).page@.len() > 0 {
                final(self).page@[0]
            } else {
                old(self).current_note
            },
            final(self).song == old(self).song,
            final(self).score == old(self).score,
            final(self).feedback == old(self).feedback,
            final(self).beat_cursor == old(self).beat_cursor,
            final(self).mode == old(self).mode,
    {
        self.page_size = size;
        let n = if size < 1 { 1 } else { size };
        self.page = self.song.peek(n);
        self.page_cursor = 0;
        if self.page.len() > 0 {
            self.current_note = self.page[0];
        }
    }

    /// Moves on to the next note.
    pub fn advance_to_next(&mut self)
        requires
            old(self).wf(),
            old(self).can_play(),
        ensures
            final(self).wf(),
            is_next_note_of(*old(self), *final(self)),
    {
        let step: u8 = if self.page_cursor < self.page.len() {
            self.page[self.page_cursor].sixteenths
        } else {
            QUARTER
        };
        self.beat_cursor = self.beat_cursor + step as u64;
        self.song.advance();
        if self.page.len() == 0 || self.page_cursor >= self.page.len() - 1 {
            let size = if self.page_size < 1 { 1 } else { self.page_size };
            self.page = self.song.peek(size);
            self.page_cursor = 0;
        } else {
            self.page_cursor = self.page_cursor + 1;
        }
        if self.page_cursor < self.page.len() {
            self.current_note = self.page[self.page_cursor];
        }
        self.feedback = Feedback::Waiting;
    }

    /// Moves on by itself once a correct answer has been on show for
    /// `CORRECT_DISPLAY_MS`: `since_correct_ms` is the time since it was
    /// given. Returns whether it moved on; otherwise nothing changes.
    pub fn auto_advance(&mut self, since_correct_ms: u128) -> (r: bool)
        requires
            old(self).wf(),
            old(self).can_play(),
        ensures
            final(self).wf(),
            r == (old(self).feedback is Correct && since_correct_ms >= CORRECT_DISPLAY_MS),
            r ==> is_next_note_of(*old(self), *final(self)),
            !r ==> *final(self) == *old(self),
    {
        let due = match self.feedback {
            Feedback::Correct(_) => since_correct_ms >= CORRECT_DISPLAY_MS,
            _ => false,
        };
        if due {
            self.advance_to_next();
        }
        due
    }

    /// Starts the song over with a clean score.
    pub fn restart_song(&mut self)
        requires
            old(self).wf(),
        ensures
            final(self).wf(),
            is_song_restart_of(old(self).song, final(self).song),
            is_page_of(final(self).song, final(self).page_size as int, final(self).page@),
            final(self).page_cursor == 0,
            final(self).current_note == first_or_c4(final(self).page@),
            final(self).score == (Score { correct: 0, attempts: 0 }),
            final(self).feedback == Feedback::Waiting,
            final(self).page_size == old(self).page_size,
            final(self).beat_cursor == 0,
            final(self).mode == old(self).mode,
    {
        self.song.restart();
        self.reset_page();
        self.score = Score::default();
        self.feedback = Feedback::Waiting;
    }

    /// Judges `played` against the current note, `latency_ms` milliseconds
    /// after the note was shown. When the current note was already answered
    /// correctly, the trainer first moves on to the next one, which is then
    /// judged as answered at once. Returns whether it moved on, and whether
    /// the note played was right.
    pub fn handle_midi_note(&mut self, played: u8, latency_ms: u128) -> (r: (bool, bool))
        requires
            old(self).wf(),
            old(self).can_play(),
        ensures
            final(self).wf(),
            r.0 == old(self).feedback is Correct,
            exists|mid: Trainer|
                #![trigger is_judgement_of(mid, *final(self), played, 0)]
                #![trigger is_judgement_of(mid, *final(self), played, latency_ms as int)]
                {
                    &&& r.0 ==> is_next_note_of(*old(self), mid) && is_judgement_of(mid, *final(self), played, 0)
                    &&& !r.0 ==> mid == *old(self) && is_judgement_of(mid, *final(self), played, latency_ms as int)
                    &&& r.1 == (played == mid.current_note.midi)
                },
    {
        let ghost start = *self;
        let advanced = match self.feedback {
            Feedback::Correct(_) => true,
            _ => false,
        };
        let latency = if advanced {
            self.advance_to_next();
            0
        } else {
            latency_ms
        };
        let ghost mid = *self;
        self.score.attempts = self.score.attempts + 1;
        let correct = played == self.current_note.midi;
        if correct {
            self.song.record_correct(played, latency);
            self.score.correct = self.score.correct + 1;
            self.feedback = Feedback::Correct(self.current_note);
        } else {
            self.song.record_incorrect(self.current_note.midi);
            self.feedback = Feedback::Wrong { expected: self.current_note, got: Note::new(played) };
        }
        proof {
            if advanced {
                assert(is_next_note_of(start, mid) && is_judgement_of(mid, *self, played, 0));
            } else {
                assert(mid == start);
                assert(is_judgement_of(mid, *self, played, latency_ms as int));
            }
        }
        (advanced, correct)
    }

    /// Starts collecting the two keys of a new training range.
    pub fn start_setting_range(&mut self)
        ensures
            final(self).mode matches Mode::SettingRange(keys) && keys@.len() == 0,
            final(self).feedback == Feedback::Waiting,
            final(self).song == old(self).song,
            final(self).score == old(self).score,
            final(self).current_note == old(self).current_note,
            final(self).page@ == old(self).page@,
            final(self).page_cursor == old(self).page_cursor,
            final(self).page_size == old(self).page_size,
            final(self).beat_cursor == old(self).beat_cursor,
    {
        self.mode = Mode::SettingRange(Vec::new());
        self.feedback = Feedback::Waiting;
    }

    /// Stops collecting range keys.
    pub fn cancel_setting_range(&mut self)
        ensures
            final(self).mode == Mode::Playing,
            final(self).feedback == old(self).feedback,
            final(self).song == old(self).song,
            final(self).score == old(self).score,
            final(self).current_note == old(self).current_note,
            final(self).page@ == old(self).page@,
            final(self).page_cursor == old(self).page_cursor,
            final(self).page_size == old(self).page_size,
            final(self).beat_cursor == old(self).beat_cursor,
    {
        self.mode = Mode::Playing;
    }

    /// Trains on a new endless random session over `low..=high`, back in
    /// playing mode.
    pub fn set_active_range(&mut self, low: u8, high: u8)
        ensures
            final(self).wf() <== old(self).score.correct <= old(self).score.attempts,
            final(self).song matches Song::Random(r) && r.range_low() == low && r.range_high() == high
                && r.session_size() is None && r.position() == 0,
            is_page_of(final(self).song, final(self).page_size as int, final(self).page@),
            final(self).page_cursor == 0,
            final(self).current_note == first_or_c4(final(self).page@),
            final(self).mode == Mode::Playing,
            final(self).feedback == Feedback::Waiting,
            final(self).score == old(self).score,
            final(self).page_size == old(self).page_size,
            final(self).beat_cursor == 0,
    {
        self.song = Song::Random(RandomSong::new(low, high, None));
        self.reset_page();
        self.mode = Mode::Playing;
        self.feedback = Feedback::Waiting;
    }

    /// Leaves a MIDI-file song for an endless random session over
    /// `low..=high`.
    pub fn exit_to_random(&mut self, low: u8, high: u8)
        ensures
            final(self).wf() <== old(self).score.correct <= old(self).score.attempts,
            final(self).song matches Song::Random(r) && r.range_low() == low && r.range_high() == high
                && r.session_size() is None && r.position() == 0,
            is_page_of(final(self).song, final(self).page_size as int, final(self).page@),
            final(self).page_cursor == 0,
            final(self).current_note == first_or_c4(final(self).page@),
            final(self).feedback == Feedback::Waiting,
            final(self).score == old(self).score,
            final(self).page_size == old(self).page_size,
            final(self).beat_cursor == 0,
            final(self).mode == old(self).mode,
    {
        self.song = Song::Random(RandomSong::new(low, high, None));
        self.reset_page();
        self.feedback = Feedback::Waiting;
    }

    /// Plays a song from a MIDI file, from its first note, with a clean
    /// score.
    pub fn load_song(&mut self, song: MidiFileSong)
        requires
            song.position() <= song.notes().len(),
        ensures
            final(self).wf(),
            final(self).song == Song::MidiFile(song),
            is_page_of(final(self).song, final(self).page_size as int, final(self).page@),
            final(self).page_cursor == 0,
            final(self).current_note == first_or_c4(final(self).page@),
            final(self).score == (Score { correct: 0, attempts: 0 }),
            final(self).feedback == Feedback::Waiting,
            final(self).mode == Mode::Playing,
            final(self).page_size == old(self).page_size,
            final(self).beat_cursor == 0,
    {
        self.song = Song::MidiFile(song);
        self.reset_page();
        self.score = Score::default();
        self.feedback = Feedback::Waiting;
        self.mode = Mode::Playing;
    }

    /// Acts on a shortcut. Restart works while playing; setting the range
    /// works while playing a random session; Esc gives up setting the range,
    /// or, while playing a MIDI-file song, leaves it for an endless random
    /// session over `low..=high`. Anything else is ignored and changes
    /// nothing.
    pub fn shortcut(&mut self, key: Shortcut, low: u8, high: u8) -> (r: ShortcutOutcome)
        requires
            old(self).wf(),
        ensures
            final(self).wf(),
            r == match key {
                Shortcut::Restart => if old(self).mode == Mode::Playing {
                    ShortcutOutcome::Restarted
                } else {
                    ShortcutOutcome::Ignored
                },
                Shortcut::SetRange => if old(self).mode == Mode::Playing && old(self).song is Random {
                    ShortcutOutcome::SettingRange
                } else {
                    ShortcutOutcome::Ignored
                },
                Shortcut::Escape => if old(self).mode != Mode::Playing {
                    ShortcutOutcome::Cancelled
                } else if old(self).song is MidiFile {
                    ShortcutOutcome::LeftFile
                } else {
                    ShortcutOutcome::Ignored
                },
            },
            r == ShortcutOutcome::Ignored ==> *final(self) == *old(self),
            r == ShortcutOutcome::Restarted ==> {
                &&& is_song_restart_of(old(self).song, final(self).song)
                &&& is_page_of(final(self).song, final(self).page_size as int, final(self).page@)
                &&& final(self).page_cursor == 0
                &&& final(self).beat_cursor == 0
                &&& final(self).current_note == first_or_c4(final(self).page@)
                &&& final(self).score == (Score { correct: 0, attempts: 0 })
                &&& final(self).feedback == Feedback::Waiting
                &&& final(self).mode == Mode::Playing
            },
            r == ShortcutOutcome::SettingRange ==> {
                &&& final(self).mode matches Mode::SettingRange(keys) && keys@.len() == 0
                &&& final(self).feedback == Feedback::Waiting
                &&& final(self).song == old(self).song
                &&& final(self).score == old(self).score
                &&& final(self).page@ == old(self).page@
                &&& final(self).page_cursor == old(self).page_cursor
            },
            r == ShortcutOutcome::Cancelled ==> {
                &&& final(self).mode == Mode::Playing
                &&& final(self).feedback == old(self).feedback
                &&& final(self).song == old(self).song
                &&& final(self).score == old(self).score
                &&& final(self).page@ == old(self).page@
                &&& final(self).page_cursor == old(self).page_cursor
            },
            r == ShortcutOutcome::LeftFile ==> {
                &&& final(self).song matches Song::Random(s) && s.range_low() == low && s.range_high() == high
                    && s.session_size() is None && s.position() == 0
                &&& is_page_of(final(self).song, final(self).page_size as int, final(self).page@)
                &&& final(self).page_cursor == 0
                &&& final(self).beat_cursor == 0
                &&& final(self).current_note == first_or_c4(final(self).page@)
                &&& final(self).feedback == Feedback::Waiting
                &&& final(self).score == old(self).score
                &&& final(self).mode == Mode::Playing
            },
    {
        let playing = match self.mode {
            Mode::Playing => true,
            Mode::SettingRange(_) => false,
        };
        let random = match self.song {
            Song::Random(_) => true,
            Song::MidiFile(_) => false,
        };
        match key {
            Shortcut::Restart => {
                if playing {
                    self.restart_song();
                    ShortcutOutcome::Restarted
                } else {
                    ShortcutOutcome::Ignored
                }
            },
            Shortcut::SetRange => {
                if playing && random {
                    self.start_setting_range();
                    ShortcutOutcome::SettingRange
                } else {
                    ShortcutOutcome::Ignored
                }
            },
            Shortcut::Escape => {
                if !playing {
                    self.cancel_setting_range();
                    ShortcutOutcome::Cancelled
                } else if !random {
                    self.exit_to_random(low, high);
                    ShortcutOutcome::LeftFile
                } else {
                    ShortcutOutcome::Ignored
                }
            },
        }
    }

    /// Handles a note from the keyboard. While the range is being set it is
    /// a range key, and the second different key sets the range to run from
    /// the lower to the higher of them. Otherwise a note the song does not
    /// accept shows `OutOfRange` and changes nothing else, and a note it
    /// accepts is judged.
    pub fn receive_note(&mut self, midi: u8, latency_ms: u128) -> (r: NoteOutcome)
        requires
            old(self).wf(),
            old(self).mode == Mode::Playing && accepts(old(self).song, midi) ==> old(self).can_play(),
        ensures
            final(self).wf(),
            match old(self).mode {
                Mode::SettingRange(keys) => {
                    &&& final(self).score == old(self).score
                    &&& keys_after(keys@, midi).len() < 2 ==> {
                        &&& r == NoteOutcome::RangeKey
                        &&& final(self).mode matches Mode::SettingRange(k) && k@ == keys_after(keys@, midi)
                        &&& final(self).song == old(self).song
                        &&& final(self).feedback == old(self).feedback
                        &&& final(self).beat_cursor == old(self).beat_cursor
                    }
                    &&& keys_after(keys@, midi).len() >= 2 ==> {
                        &&& r matches NoteOutcome::RangeSet { low, high }
                        &&& keys_after(keys@, midi).contains(low) && keys_after(keys@, midi).contains(high)
                        &&& forall|i: int| 0 <= i < keys_after(keys@, midi).len() ==> low
                            <= #[trigger] keys_after(keys@, midi)[i] <= high
                        &&& final(self).song matches Song::Random(s) && s.range_low() == low
                            && s.range_high() == high && s.session_size() is None && s.position() == 0
                        &&& is_page_of(final(self).song, final(self).page_size as int, final(self).page@)
                        &&& final(self).page_cursor == 0
                        &&& final(self).current_note == first_or_c4(final(self).page@)
                        &&& final(self).mode == Mode::Playing
                        &&& final(self).feedback == Feedback::Waiting
                        &&& final(self).beat_cursor == 0
                    }
                },
                Mode::Playing => if !accepts(old(self).song, midi) {
                    &&& r == NoteOutcome::OutOfRange
                    &&& final(self).feedback == Feedback::OutOfRange(Note { midi, sixteenths: QUARTER })
                    &&& final(self).song == old(self).song
                    &&& final(self).score == old(self).score
                    &&& final(self).current_note == old(self).current_note
                    &&& final(self).page@ == old(self).page@
                    &&& final(self).page_cursor == old(self).page_cursor
                    &&& final(self).beat_cursor == old(self).beat_cursor
                    &&& final(self).mode == old(self).mode
                } else {
                    &&& r matches NoteOutcome::Judged { advanced, correct }
                    &&& advanced == old(self).feedback is Correct
                    &&& exists|mid: Trainer|
                        #![trigger is_judgement_of(mid, *final(self), midi, 0)]
                        #![trigger is_judgement_of(mid, *final(self), midi, latency_ms as int)]
                        {
                            &&& advanced ==> is_next_note_of(*old(self), mid) && is_judgement_of(mid, *final(self), midi, 0)
                            &&& !advanced ==> mid == *old(self) && is_judgement_of(mid, *final(self), midi, latency_ms as int)
                            &&& correct == (midi == mid.current_note.midi)
                        }
                },
            },
    {
        match &self.mode {
            Mode::SettingRange(keys) => {
                let mut collected = keys.clone();
                proof {
                    assert(collected@ == keys@);
                }
                match add_range_key(&mut collected, midi) {
                    Some((low, high)) => {
                        self.set_active_range(low, high);
                        NoteOutcome::RangeSet { low, high }
                    },
                    None => {
                        self.mode = Mode::SettingRange(collected);
                        NoteOutcome::RangeKey
                    },
                }
            },
            Mode::Playing => {
                if self.song.in_range(midi) {
                    let (advanced, correct) = self.handle_midi_note(midi, latency_ms);
                    NoteOutcome::Judged { advanced, correct }
                } else {
                    self.feedback = Feedback::OutOfRange(Note::new(midi));
                    NoteOutcome::OutOfRange
                }
            },
        }
    }
}

} // verus!
