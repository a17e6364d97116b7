//! Songs to practise: a random session drawn from the Leitner scheduler, a
//! note sequence read from a MIDI file, and `Song`, which offers both through
//! one interface.

use crate::scheduler::{
    count_in_box, is_fresh, is_pick, is_pick_chain, lemma_pick_facts, levels_after_correct,
    levels_after_incorrect, natural_set, Scheduler,
};
use crate::smf::{parse_smf, smf_contents, tracks_view, SmfEvent};
use crate::staff::{Note, QUARTER};
use std::collections::VecDeque;
use vstd::prelude::*;

verus! {

/// How many notes a random session draws ahead of the current position,
/// the current note included.
pub const LOOKAHEAD: usize = 16;

/// Length of the look-ahead queue of a random session of `size` notes
/// (`None`: endless) once `index` notes have been played: the notes still
/// to come, at most `LOOKAHEAD` of them.
pub open spec fn queue_len_for(size: Option<usize>, index: int) -> int {
    match size {
        None => LOOKAHEAD as int,
        Some(s) => if index <= s {
            if s - index < LOOKAHEAD {
                s - index
            } else {
                LOOKAHEAD as int
            }
        } else {
            0
        },
    }
}

/// A note the scheduler with these box levels can hand out: a quarter note
/// on a tracked key, or on C4 when nothing is tracked.
pub open spec fn drawable(levels: Map<u8, u8>, n: Note) -> bool {
    &&& n.sixteenths == QUARTER
    &&& if levels.dom().len() == 0 {
        n.midi == 60
    } else {
        levels.contains_key(n.midi)
    }
}

/// What a chain of draws keeps: the box levels, the validity of every
/// scheduler, notes the scheduler can hand out, no note twice in a row while
/// more than one note is tracked, and the last note drawn.
proof fn lemma_pick_chain(chain: Seq<Scheduler>, notes: Seq<Note>)
    requires
        is_pick_chain(chain, notes),
        chain[0].wf(),
    ensures
        forall|i: int| 0 <= i < chain.len() ==> (#[trigger] chain[i]).box_levels() == chain[0].box_levels()
            && chain[i].wf(),
        forall|i: int| 0 <= i < notes.len() ==> drawable(chain[0].box_levels(), #[trigger] notes[i]),
        chain[0].box_levels().dom().len() > 1 ==> forall|i: int|
            #![trigger notes[i]]
            0 <= i < notes.len() - 1 ==> notes[i] != notes[i + 1],
        notes.len() > 0 && chain[0].box_levels().dom().len() > 0 ==> chain.last().last_pick() == Some(
            notes.last().midi,
        ),
        notes.len() > 0 && chain[0].box_levels().dom().len() > 1 && chain[0].last_pick() is Some
            ==> notes[0].midi != chain[0].last_pick().unwrap(),
    decreases notes.len(),
{
    if notes.len() > 0 {
        let k = notes.len() - 1;
        let c2 = chain.drop_last();
        let n2 = notes.drop_last();
        assert(is_pick_chain(c2, n2)) by {
            assert forall|i: int| 0 <= i < n2.len() implies is_pick(c2[i], c2[i + 1], #[trigger] n2[i]) by {
                assert(is_pick(chain[i], chain[i + 1], notes[i]));
            }
        }
        lemma_pick_chain(c2, n2);
        assert(is_pick(chain[k], chain[k + 1], notes[k]));
        lemma_pick_facts(chain[k], chain[k + 1], notes[k]);
        assert(c2[k].box_levels() == chain[0].box_levels());
        if chain[0].box_levels().dom().len() > 1 {
            assert forall|i: int| #![trigger notes[i]] 0 <= i < notes.len() - 1 implies notes[i] != notes[i + 1] by {
                if i < k - 1 {
                    assert(n2[i] != n2[i + 1]);
                } else {
                    assert(c2.last().last_pick() == Some(n2.last().midi));
                }
            }
        }
        assert(is_pick(chain[0], chain[1], notes[0]));
        lemma_pick_facts(chain[0], chain[1], notes[0]);
        assert forall|i: int| 0 <= i < chain.len() implies (#[trigger] chain[i]).box_levels()
            == chain[0].box_levels() && chain[i].wf() by {
            if i < chain.len() - 1 {
                assert(chain[i] == c2[i]);
            }
        }
        assert forall|i: int| 0 <= i < notes.len() implies drawable(chain[0].box_levels(), #[trigger] notes[i]) by {
            if i < k {
                assert(notes[i] == n2[i]);
            }
        }
    }
}

/// `after` is `before` moved on by one note: the position goes up by one and
/// the current note leaves the queue; unless the session has already drawn
/// all its notes, one more note is drawn onto the back of the queue.
pub open spec fn is_advance_of(before: RandomSong, after: RandomSong) -> bool {
    let q = before.upcoming();
    let rest = if q.len() > 0 { q.drop_first() } else { q };
    let refill = match before.session_size() {
        None => true,
        Some(s) => before.position() + 1 + rest.len() < s,
    };
    &&& after.wf()
    &&& after.position() == before.position() + 1
    &&& after.range_low() == before.range_low()
    &&& after.range_high() == before.range_high()
    &&& after.session_size() == before.session_size()
    &&& refill ==> {
        &&& after.upcoming().len() == rest.len() + 1
        &&& after.upcoming().drop_last() == rest
        &&& is_pick(before.scheduler(), after.scheduler(), after.upcoming().last())
    }
    &&& !refill ==> {
        &&& after.upcoming() == rest
        &&& after.scheduler() == before.scheduler()
    }
}

/// `after` is `before` started over: back to position 0 with a new queue
/// drawn by the scheduler, which keeps what it has learnt.
pub open spec fn is_restart_of(before: RandomSong, after: RandomSong) -> bool {
    &&& after.wf()
    &&& after.position() == 0
    &&& after.range_low() == before.range_low()
    &&& after.range_high() == before.range_high()
    &&& after.session_size() == before.session_size()
    &&& after.upcoming().len() == queue_len_for(before.session_size(), 0)
    &&& exists|chain: Seq<Scheduler>|
        #![trigger is_pick_chain(chain, after.upcoming())]
        is_pick_chain(chain, after.upcoming()) && chain[0] == before.scheduler()
            && chain.last() == after.scheduler()
}

/// `after` is `before` once an answer has been recorded: only the box levels
/// may differ.
pub open spec fn is_answer_of(before: RandomSong, after: RandomSong) -> bool {
    &&& after.wf()
    &&& after.scheduler().seen_notes() == before.scheduler().seen_notes()
    &&& after.scheduler().last_pick() == before.scheduler().last_pick()
    &&& after.upcoming() == before.upcoming()
    &&& after.position() == before.position()
    &&& after.range_low() == before.range_low()
    &&& after.range_high() == before.range_high()
    &&& after.session_size() == before.session_size()
}

/// A practice session of random notes drawn by the Leitner scheduler.
/// With `size = None` the session never ends; with `size = Some(n)` it ends
/// after `n` notes.
pub struct RandomSong {
    active_low: u8,
    active_high: u8,
    scheduler: Scheduler,
    /// The current note and the upcoming ones.
    queue: VecDeque<Note>,
    size: Option<usize>,
    index: usize,
}

impl RandomSong {
    /// The scheduler that draws the notes.
    pub closed spec fn scheduler(&self) -> Scheduler {
        self.scheduler
    }

    /// The current note followed by the notes drawn ahead.
    pub closed spec fn upcoming(&self) -> Seq<Note> {
        self.queue@
    }

    /// Lowest note of the active range.
    pub closed spec fn range_low(&self) -> u8 {
        self.active_low
    }

    /// Highest note of the active range.
    pub closed spec fn range_high(&self) -> u8 {
        self.active_high
    }

    /// Number of notes played so far.
    pub closed spec fn position(&self) -> usize {
        self.index
    }

    /// Lowest note of the active range.
    pub fn active_low(&self) -> (r: u8)
        ensures
            r == self.range_low(),
    {
        self.active_low
    }

    /// Highest note of the active range.
    pub fn active_high(&self) -> (r: u8)
        ensures
            r == self.range_high(),
    {
        self.active_high
    }

    /// Number of notes played so far.
    pub fn index(&self) -> (r: usize)
        ensures
            r == self.position(),
    {
        self.index
    }

    /// Number of notes in the session, `None` when it is endless.
    pub closed spec fn session_size(&self) -> Option<usize> {
        self.size
    }

    /// The scheduler tracks the naturals of the active range; the queue holds
    /// exactly the notes still to come, at most `LOOKAHEAD`; every queued
    /// note can be handed out by the scheduler, no note is queued twice in a
    /// row while more than one note is tracked, and the last queued note is
    /// the one the scheduler drew last.
    pub closed spec fn wf(&self) -> bool {
        let levels = self.scheduler.box_levels();
        let q = self.queue@;
        &&& self.scheduler.wf()
        &&& levels.dom() == natural_set(self.active_low as int, self.active_high as int)
        &&& q.len() == queue_len_for(self.size, self.index as int)
        &&& forall|i: int| 0 <= i < q.len() ==> drawable(levels, #[trigger] q[i])
        &&& levels.dom().len() > 1 ==> forall|i: int|
            #![trigger q[i]]
            0 <= i < q.len() - 1 ==> q[i] != q[i + 1]
        &&& q.len() > 0 && levels.dom().len() > 0 ==> self.scheduler.last_pick() == Some(q.last().midi)
    }

    /// What a valid session guarantees: the scheduler tracks exactly the
    /// naturals of the active range; the queue holds the notes still to come
    /// (all `LOOKAHEAD` of them in an endless session; in a session of `n`
    /// notes none once `n` notes have been played); every queued note is a
    /// natural of the active range, or C4 when the range has none; and no
    /// note is queued twice in a row while the range has more than one
    /// natural.
    pub proof fn lemma_session_guarantees(&self)
        requires
            self.wf(),
        ensures
            self.scheduler().box_levels().dom() == natural_set(
                self.range_low() as int,
                self.range_high() as int,
            ),
            self.upcoming().len() == queue_len_for(self.session_size(), self.position() as int),
            self.session_size() is None ==> self.upcoming().len() == LOOKAHEAD,
            self.session_size() matches Some(n) ==> (self.upcoming().len() == 0 <==> self.position() >= n),
            forall|i: int| 0 <= i < self.upcoming().len() ==> drawable(
                self.scheduler().box_levels(),
                #[trigger] self.upcoming()[i],
            ),
            forall|i: int|
                0 <= i < self.upcoming().len() && natural_set(
                    self.range_low() as int,
                    self.range_high() as int,
                ).len() > 0 ==> #[trigger] natural_set(self.range_low() as int, self.range_high() as int).contains(
                    self.upcoming()[i].midi,
                ),
            natural_set(self.range_low() as int, self.range_high() as int).len() > 1 ==> forall|i: int|
                #![trigger self.upcoming()[i]]
                0 <= i < self.upcoming().len() - 1 ==> self.upcoming()[i] != self.upcoming()[i + 1],
    {
        assert forall|i: int|
            0 <= i < self.upcoming().len() && natural_set(
                self.range_low() as int,
                self.range_high() as int,
            ).len() > 0 implies #[trigger] natural_set(self.range_low() as int, self.range_high() as int).contains(
            self.upcoming()[i].midi,
        ) by {
            assert(drawable(self.scheduler().box_levels(), self.upcoming()[i]));
        }
    }

    /// Draws `count` notes onto the back of `queue`.
    fn draw_into(scheduler: &mut Scheduler, queue: &mut VecDeque<Note>, count: usize) -> (chain: Ghost<
        Seq<Scheduler>,
    >)
        requires
            old(scheduler).wf(),
        ensures
            final(queue)@.len() == old(queue)@.len() + count,
            final(queue)@.take(old(queue)@.len() as int) == old(queue)@,
            chain@.len() > 0,
            chain@[0] == *old(scheduler),
            chain@.last() == *final(scheduler),
            is_pick_chain(chain@, final(queue)@.skip(old(queue)@.len() as int)),
    {
        let ghost start = queue@;
        let ghost mut chain = seq![*scheduler];
        let mut i: usize = 0;
        while i < count
            invariant
                0 <= i <= count,
                queue@.len() == start.len() + i,
                queue@.take(start.len() as int) == start,
                chain.len() == i + 1,
                chain[0] == *old(scheduler),
                chain.last() == *scheduler,
                scheduler.wf(),
                is_pick_chain(chain, queue@.skip(start.len() as int)),
            decreases count - i,
        {
            let ghost before = *scheduler;
            let ghost drawn = queue@.skip(start.len() as int);
            let n = scheduler.pick_next();
            queue.push_back(n);
            proof {
                lemma_pick_facts(before, *scheduler, n);
                chain = chain.push(*scheduler);
                assert(queue@.skip(start.len() as int) == drawn.push(n));
                assert(queue@.take(start.len() as int) == start);
                assert forall|j: int| 0 <= j < drawn.len() + 1 implies is_pick(
                    chain[j],
                    chain[j + 1],
                    #[trigger] drawn.push(n)[j],
                ) by {
                    if j < drawn.len() {
                        assert(is_pick(chain.drop_last()[j], chain.drop_last()[j + 1], drawn[j]));
                    }
                }
            }
            i = i + 1;
        }
        Ghost(chain)
    }

    /// A new session over the naturals of `low..=high`, with the first
    /// `LOOKAHEAD` notes (fewer if the session is shorter) drawn ahead.
    pub fn new(low: u8, high: u8, size: Option<usize>) -> (s: RandomSong)
        ensures
            s.wf(),
            s.range_low() == low,
            s.range_high() == high,
            s.position() == 0,
            s.session_size() == size,
            s.upcoming().len() == queue_len_for(size, 0),
            exists|chain: Seq<Scheduler>|
                #![trigger is_pick_chain(chain, s.upcoming())]
                is_pick_chain(chain, s.upcoming()) && is_fresh(chain[0], low as int, high as int)
                    && chain.last() == s.scheduler(),
    {
        let mut scheduler = Scheduler::new(low, high);
        let fill = match size {
            None => LOOKAHEAD,
            Some(n) => if n < LOOKAHEAD { n } else { LOOKAHEAD },
        };
        let mut queue: VecDeque<Note> = VecDeque::new();
        let chain = Self::draw_into(&mut scheduler, &mut queue, fill);
        proof {
            assert(queue@.skip(0) == queue@);
            lemma_pick_chain(chain@, queue@);
            assert(chain@.last() == chain@[chain@.len() - 1]);
        }
        let s = RandomSong { active_low: low, active_high: high, scheduler, queue, size, index: 0 };
        proof {
            assert(is_pick_chain(chain@, s.upcoming()) && is_fresh(chain@[0], low as int, high as int)
                && chain@.last() == s.scheduler());
        }
        s
    }

    /// The note to play now, if any.
    pub fn current(&self) -> (r: Option<Note>)
        ensures
            r == if self.upcoming().len() > 0 {
                Some(self.upcoming()[0])
            } else {
                None
            },
    {
        if self.queue.len() > 0 {
            Some(self.queue[0])
        } else {
            None
        }
    }

    /// Moves on to the next note, drawing one more note ahead unless the
    /// session has already drawn all its notes.
    pub fn advance(&mut self)
        requires
            old(self).wf(),
            old(self).position() < usize::MAX,
        ensures
            is_advance_of(*old(self), *final(self)),
    {
        let ghost q = self.queue@;
        let ghost rest = if q.len() > 0 { q.drop_first() } else { q };
        let _ = self.queue.pop_front();
        proof {
            assert(self.queue@ == rest);
        }
        self.index = self.index + 1;
        let total_selected = self.index as u128 + self.queue.len() as u128;
        let refill = match self.size {
            None => true,
            Some(s) => total_selected < s as u128,
        };
        if refill {
            let ghost before = self.scheduler;
            let n = self.scheduler.pick_next();
            self.queue.push_back(n);
            proof {
                lemma_pick_facts(before, self.scheduler, n);
                assert(self.queue@.drop_last() == rest);
                let levels = before.box_levels();
                if levels.dom().len() > 1 && rest.len() > 0 {
                    assert(rest.last() == q.last());
                    assert forall|i: int| #![trigger self.queue@[i]] 0 <= i < self.queue@.len() - 1 implies self.queue@[i]
                        != self.queue@[i + 1] by {
                        if i < rest.len() - 1 {
                            assert(self.queue@[i] == q[i + 1]);
                            assert(self.queue@[i + 1] == q[i + 2]);
                        } else {
                            assert(self.queue@[i] == rest.last());
                        }
                    }
                }
                if levels.dom().len() > 1 && rest.len() == 0 {
                    assert(self.queue@.len() == 1);
                }
                assert forall|i: int| 0 <= i < self.queue@.len() implies drawable(levels, #[trigger] self.queue@[i]) by {
                    if i < rest.len() {
                        assert(self.queue@[i] == q[i + 1]);
                    }
                }
            }
        } else {
            proof {
                let levels = self.scheduler.box_levels();
                if rest.len() > 0 {
                    assert(rest.last() == q.last());
                }
                assert forall|i: int| 0 <= i < self.queue@.len() implies drawable(levels, #[trigger] self.queue@[i]) by {
                    assert(self.queue@[i] == q[i + 1]);
                }
                if levels.dom().len() > 1 {
                    assert forall|i: int| #![trigger self.queue@[i]] 0 <= i < self.queue@.len() - 1 implies self.queue@[i]
                        != self.queue@[i + 1] by {
                        assert(self.queue@[i] == q[i + 1]);
                        assert(self.queue@[i + 1] == q[i + 2]);
                    }
                }
            }
        }
    }

    /// Whether a fixed-length session has delivered all its notes; an
    /// endless session never completes.
    pub fn is_complete(&self) -> (r: bool)
        ensures
            r == (self.session_size() is Some && self.upcoming().len() == 0),
            self.wf() ==> (r <==> (self.session_size() matches Some(s) && self.position() >= s)),
    {
        self.size.is_some() && self.queue.len() == 0
    }

    /// `Some((index, size))` when the session has a fixed length, `None` for
    /// an endless one.
    pub fn progress(&self) -> (r: Option<(usize, usize)>)
        ensures
            r == match self.session_size() {
                Some(s) => Some((self.position(), s)),
                None => None,
            },
    {
        match self.size {
            Some(s) => Some((self.index, s)),
            None => None,
        }
    }

    /// Up to `count` upcoming notes starting from the current one.
    pub fn peek(&self, count: usize) -> (r: Vec<Note>)
        ensures
            r@ == self.upcoming().take(if count < self.upcoming().len() { count as int } else { self.upcoming().len() as int }),
    {
        let n = if count < self.queue.len() { count } else { self.queue.len() };
        let mut r: Vec<Note> = Vec::new();
        for i in 0..n
            invariant
                n <= self.queue@.len(),
                n == if count < self.upcoming().len() { count as int } else { self.upcoming().len() as int },
                r@ == self.queue@.take(i as int),
        {
            r.push(self.queue[i]);
            proof {
                assert(self.queue@.take(i + 1) == self.queue@.take(i as int).push(self.queue@[i as int]));
            }
        }
        r
    }

    /// Whether `midi` lies in the active range `active_low..=active_high`.
    pub fn in_range(&self, midi: u8) -> (r: bool)
        ensures
            r == (self.range_low() <= midi && midi <= self.range_high()),
    {
        self.active_low <= midi && midi <= self.active_high
    }

    /// Correct answer on `midi` after `latency_ms` milliseconds: passed on to
    /// the scheduler.
    pub fn record_correct(&mut self, midi: u8, latency_ms: u128)
        requires
            old(self).wf(),
        ensures
            is_answer_of(*old(self), *final(self)),
            final(self).scheduler().box_levels() == levels_after_correct(
                old(self).scheduler().box_levels(),
                midi,
                latency_ms as int,
            ),
    {
        self.scheduler.record_correct(midi, latency_ms);
        proof {
            assert(self.scheduler.box_levels().dom() =~= old(self).scheduler.box_levels().dom());
        }
    }

    /// Wrong answer on `midi`: passed on to the scheduler.
    pub fn record_incorrect(&mut self, midi: u8)
        requires
            old(self).wf(),
        ensures
            is_answer_of(*old(self), *final(self)),
            final(self).scheduler().box_levels() == levels_after_incorrect(
                old(self).scheduler().box_levels(),
                midi,
            ),
    {
        self.scheduler.record_incorrect(midi);
        proof {
            assert(self.scheduler.box_levels().dom() =~= old(self).scheduler.box_levels().dom());
        }
    }

    /// Number of notes in each box.
    pub fn box_counts(&self) -> (counts: [usize; 5])
        requires
            self.wf(),
        ensures
            forall|b: int| 0 <= b < 5 ==> #[trigger] counts@[b] == count_in_box(self.scheduler().box_levels(), b),
    {
        self.scheduler.box_counts()
    }

    /// Box level of `midi` (0 if it is not tracked).
    pub fn note_box(&self, midi: u8) -> (b: u8)
        ensures
            b == if self.scheduler().box_levels().contains_key(midi) {
                self.scheduler().box_levels()[midi]
            } else {
                0
            },
    {
        self.scheduler.note_box(midi)
    }

    /// Starts the session over: back to the first note, with a fresh set of
    /// notes drawn ahead. The scheduler keeps what it has learnt.
    pub fn restart(&mut self)
        requires
            old(self).wf(),
        ensures
            is_restart_of(*old(self), *final(self)),
    {
        self.index = 0;
        self.queue.clear();
        let fill = match self.size {
            None => LOOKAHEAD,
            Some(n) => if n < LOOKAHEAD { n } else { LOOKAHEAD },
        };
        let chain = Self::draw_into(&mut self.scheduler, &mut self.queue, fill);
        proof {
            assert(self.queue@.skip(0) == self.queue@);
            lemma_pick_chain(chain@, self.queue@);
            assert(chain@.last() == chain@[chain@.len() - 1]);
            assert(is_pick_chain(chain@, self.upcoming()) && chain@[0] == old(self).scheduler()
                && chain@.last() == self.scheduler());
        }
    }
}

/// Why a MIDI file gives no song.
#[derive(Debug)]
pub enum LoadError {
    /// `midly` refused the bytes.
    InvalidMidi(midly::Error),
    /// The file holds no note-on event with a positive velocity.
    NoNotes,
}

/// Total delta time of the events of a track, in ticks.
pub open spec fn track_ticks(t: Seq<SmfEvent>) -> int
    decreases t.len(),
{
    if t.len() == 0 {
        0
    } else {
        track_ticks(t.drop_last()) + t.last().0
    }
}

/// Absolute time of event `i` of a track, in ticks.
pub open spec fn event_time(t: Seq<SmfEvent>, i: int) -> int {
    track_ticks(t.take(i + 1))
}

/// Whether an event starts a note: a note-on with a positive velocity.
pub open spec fn starts_note(e: SmfEvent) -> bool {
    match e.1 {
        Some(m) => m.2 && m.1 > 0,
        None => false,
    }
}

/// Whether an event ends a sounding `key`: a note-off for it, or a note-on
/// for it with velocity 0.
pub open spec fn releases(e: SmfEvent, key: u8) -> bool {
    match e.1 {
        Some(m) => m.0 == key && (!m.2 || m.1 == 0),
        None => false,
    }
}

/// Index of the first event of `t` from `j` on that ends `key`; the length
/// of `t` when none does.
pub open spec fn release_from(t: Seq<SmfEvent>, j: int, key: u8) -> int
    decreases t.len() - j,
{
    if j < 0 || j >= t.len() {
        t.len() as int
    } else if releases(t[j], key) {
        j
    } else {
        release_from(t, j + 1, key)
    }
}

/// The note value nearest to `ticks` with `tpb` ticks per beat (a quarter
/// note), ties going to the longer value: whole from 3 beats, half from 1.5,
/// quarter from 0.75, eighth from 0.375, sixteenth below. Without a usable
/// beat length, a quarter.
pub open spec fn note_value_of(ticks: int, tpb: Option<u16>) -> u8 {
    if tpb is None || tpb.unwrap() == 0 {
        QUARTER
    } else {
        let q = tpb.unwrap() as int;
        if ticks >= 3 * q {
            16
        } else if 2 * ticks >= 3 * q {
            8
        } else if 4 * ticks >= 3 * q {
            4
        } else if 8 * ticks >= 3 * q {
            2
        } else {
            1
        }
    }
}

/// A note held a whole number of beats, or a half or a quarter of a beat,
/// gets that written length whatever the ticks per beat: four beats a
/// whole, two a half, one a quarter, half a beat an eighth, a quarter of a
/// beat a sixteenth. Without a beat length every note is a quarter.
pub proof fn lemma_note_value_of_beats(q: int)
    requires
        0 < q <= 65535,
    ensures
        note_value_of(4 * q, Some(q as u16)) == 16,
        note_value_of(3 * q, Some(q as u16)) == 16,
        note_value_of(2 * q, Some(q as u16)) == 8,
        note_value_of(q, Some(q as u16)) == 4,
        q % 2 == 0 ==> note_value_of(q / 2, Some(q as u16)) == 2,
        q % 4 == 0 ==> note_value_of(q / 4, Some(q as u16)) == 1,
        forall|ticks: int| #[trigger] note_value_of(ticks, None) == 4,
{
}

/// The written length depends on the held time only through its ratio to
/// the beat: scaling both the ticks and the ticks per beat by `c` changes
/// nothing, and a longer hold never gives a shorter note.
pub proof fn lemma_note_value_of_ratio(t: int, q: int, c: int, t2: int)
    requires
        0 < q,
        0 < c,
        c * q <= 65535,
        t <= t2,
    ensures
        note_value_of(c * t, Some((c * q) as u16)) == note_value_of(t, Some(q as u16)),
        note_value_of(t, Some(q as u16)) <= note_value_of(t2, Some(q as u16)),
{
    assert(c * t >= 3 * (c * q) <==> t >= 3 * q) by (nonlinear_arith)
        requires
            c > 0,
    ;
    assert(2 * (c * t) >= 3 * (c * q) <==> 2 * t >= 3 * q) by (nonlinear_arith)
        requires
            c > 0,
    ;
    assert(4 * (c * t) >= 3 * (c * q) <==> 4 * t >= 3 * q) by (nonlinear_arith)
        requires
            c > 0,
    ;
    assert(8 * (c * t) >= 3 * (c * q) <==> 8 * t >= 3 * q) by (nonlinear_arith)
        requires
            c > 0,
    ;
    assert(0 < q <= c * q) by (nonlinear_arith)
        requires
            c > 0,
            q > 0,
    ;
    assert((q as u16) as int == q);
    assert(((c * q) as u16) as int == c * q);
}

/// Written length of the note that event `i` of `t` starts: the note value
/// of the time until the first event after it that ends its key, a quarter
/// when none does.
pub open spec fn note_length(t: Seq<SmfEvent>, i: int, tpb: Option<u16>) -> u8 {
    let j = release_from(t, i + 1, t[i].1.unwrap().0);
    if j >= t.len() {
        QUARTER
    } else {
        note_value_of(event_time(t, j) - event_time(t, i), tpb)
    }
}

/// The notes the first `n` events of a track start, in track order: for each
/// note-on with a positive velocity, its absolute time, its key and its
/// written length.
pub open spec fn track_notes(t: Seq<SmfEvent>, n: int, tpb: Option<u16>) -> Seq<(u128, u8, u8)>
    decreases n,
{
    if n <= 0 {
        seq![]
    } else {
        let prev = track_notes(t, n - 1, tpb);
        if starts_note(t[n - 1]) {
            prev.push((event_time(t, n - 1) as u128, t[n - 1].1.unwrap().0, note_length(t, n - 1, tpb)))
        } else {
            prev
        }
    }
}

/// The notes every track starts, track after track.
pub open spec fn note_ons(tracks: Seq<Seq<SmfEvent>>, tpb: Option<u16>) -> Seq<(u128, u8, u8)>
    decreases tracks.len(),
{
    if tracks.len() == 0 {
        seq![]
    } else {
        note_ons(tracks.drop_last(), tpb) + track_notes(tracks.last(), tracks.last().len() as int, tpb)
    }
}

/// Order by time, then by key, then by length.
pub open spec fn time_key_le(a: (u128, u8, u8), b: (u128, u8, u8)) -> bool {
    a.0 < b.0 || (a.0 == b.0 && (a.1 < b.1 || (a.1 == b.1 && a.2 <= b.2)))
}

/// Sorted by time, then by key, then by length.
pub open spec fn time_key_sorted(s: Seq<(u128, u8, u8)>) -> bool {
    forall|i: int, j: int| 0 <= i < j < s.len() ==> time_key_le(#[trigger] s[i], #[trigger] s[j])
}

/// The notes of a sequence of timed notes.
pub open spec fn notes_of(s: Seq<(u128, u8, u8)>) -> Seq<Note> {
    Seq::new(s.len(), |i: int| Note { midi: s[i].1, sixteenths: s[i].2 })
}

/// The notes a song made of these tracks plays: the notes all tracks start,
/// sorted by time, then by key, then by length.
pub open spec fn is_song_of(notes: Seq<Note>, tpb: Option<u16>, tracks: Seq<Seq<SmfEvent>>) -> bool {
    exists|s: Seq<(u128, u8, u8)>|
        #![trigger notes_of(s)]
        time_key_sorted(s) && s.to_multiset() == note_ons(tracks, tpb).to_multiset() && notes == notes_of(s)
}

/// Two to the power `d`, for `d` up to 6.
pub open spec fn pow2(d: int) -> int {
    if d <= 0 { 1 }
    else if d == 1 { 2 }
    else if d == 2 { 4 }
    else if d == 3 { 8 }
    else if d == 4 { 16 }
    else if d == 5 { 32 }
    else { 64 }
}

/// The time signature, as beats per measure and beat unit, that a
/// well-formed time-signature event gives (a positive numerator and a
/// denominator of at most 64).
pub open spec fn time_sig_of(e: SmfEvent) -> Option<(u8, u8)> {
    match e.2 {
        Some(ts) => if ts.0 > 0 && ts.1 <= 6 {
            Some((ts.0, pow2(ts.1 as int) as u8))
        } else {
            None
        },
        None => None,
    }
}

/// Powers of two double from one step to the next, starting at 1.
pub proof fn lemma_pow2_doubles(d: int)
    requires
        1 <= d <= 6,
    ensures
        pow2(0) == 1,
        pow2(d) == 2 * pow2(d - 1),
{
}

/// Every time-signature event with a positive numerator `n` and a
/// denominator of `2^d` with `d` at most 6 is well formed and gives `n`
/// beats of `1/2^d`; any other event gives no time signature.
pub proof fn lemma_time_sig_of_event(delta: u32, note: Option<(u8, u8, bool)>, n: u8, d: u8)
    ensures
        n > 0 && d <= 6 ==> time_sig_of((delta, note, Some((n, d)))) == Some((n, pow2(d as int) as u8)),
        n > 0 && d <= 6 ==> 1 <= pow2(d as int) <= 64,
        n == 0 || d > 6 ==> time_sig_of((delta, note, Some((n, d)))) is None,
        time_sig_of((delta, note, None)) is None,
{
}

/// The first of two options that is `Some`.
pub open spec fn first_some(a: Option<(u8, u8)>, b: Option<(u8, u8)>) -> Option<(u8, u8)> {
    if a is Some { a } else { b }
}

/// The time signature of the first well-formed time-signature event of a
/// track.
pub open spec fn track_time_sig(t: Seq<SmfEvent>) -> Option<(u8, u8)>
    decreases t.len(),
{
    if t.len() == 0 {
        None
    } else {
        first_some(track_time_sig(t.drop_last()), time_sig_of(t.last()))
    }
}

/// The time signature of the first well-formed time-signature event, track
/// after track.
pub open spec fn tracks_time_sig(tracks: Seq<Seq<SmfEvent>>) -> Option<(u8, u8)>
    decreases tracks.len(),
{
    if tracks.len() == 0 {
        None
    } else {
        first_some(tracks_time_sig(tracks.drop_last()), track_time_sig(tracks.last()))
    }
}

/// The time signature of a song made of these tracks: that of its first
/// well-formed time-signature event, 4/4 when there is none.
pub open spec fn time_signature_of(tracks: Seq<Seq<SmfEvent>>) -> (u8, u8) {
    match tracks_time_sig(tracks) {
        Some(ts) => ts,
        None => (4, 4),
    }
}

/// The time of a track's events never exceeds the largest delta time per
/// event, and it never decreases from one event to the next.
proof fn lemma_track_ticks_bound(t: Seq<SmfEvent>)
    ensures
        0 <= track_ticks(t) <= t.len() * 4294967295,
    decreases t.len(),
{
    if t.len() > 0 {
        lemma_track_ticks_bound(t.drop_last());
    }
}

/// The time of event `i + 1` is that of event `i` plus its delta.
proof fn lemma_event_time_step(t: Seq<SmfEvent>, i: int)
    requires
        0 <= i + 1 < t.len(),
    ensures
        event_time(t, i + 1) == track_ticks(t.take(i + 1)) + t[i + 1].0,
        event_time(t, i + 1) >= track_ticks(t.take(i + 1)),
{
    assert(t.take(i + 2).drop_last() == t.take(i + 1));
}

/// The note value of `ticks` with `tpb` ticks per beat.
fn note_value(ticks: u128, tpb: Option<u16>) -> (r: u8)
    requires
        ticks <= 0x1_0000_0000_0000_0000_0000_0000_0000,
    ensures
        r == note_value_of(ticks as int, tpb),
{
    match tpb {
        None => QUARTER,
        Some(q) => {
            if q == 0 {
                QUARTER
            } else {
                let q3 = 3 * q as u128;
                if ticks >= q3 {
                    16
                } else if 2 * ticks >= q3 {
                    8
                } else if 4 * ticks >= q3 {
                    4
                } else if 8 * ticks >= q3 {
                    2
                } else {
                    1
                }
            }
        },
    }
}

/// Whether an event ends a sounding `key`.
fn ends_key(e: SmfEvent, key: u8) -> (r: bool)
    ensures
        r == releases(e, key),
{
    match e.1 {
        Some(m) => m.0 == key && (!m.2 || m.1 == 0),
        None => false,
    }
}

/// Written length of the note that event `i` of `track` starts, given the
/// event's absolute time.
fn length_at(track: &Vec<SmfEvent>, i: usize, tick_i: u128, tpb: Option<u16>) -> (r: u8)
    requires
        i < track@.len(),
        starts_note(track@[i as int]),
        tick_i as int == event_time(track@, i as int),
    ensures
        r == note_length(track@, i as int, tpb),
{
    let ghost t = track@;
    let key = match track[i].1 {
        Some(m) => m.0,
        None => 0,
    };
    let n = track.len();
    let mut k = i + 1;
    let mut tk: u128 = tick_i;
    proof {
        lemma_track_ticks_bound(t.take(i + 1));
    }
    while k < n && !ends_key(track[k], key)
        invariant
            t == track@,
            n == t.len(),
            i < k <= n,
            key == t[i as int].1.unwrap().0,
            tk as int == event_time(t, k - 1),
            tick_i <= tk,
            tk <= k * 4294967295,
            release_from(t, i + 1, key) == release_from(t, k as int, key),
        decreases n - k,
    {
        proof {
            lemma_event_time_step(t, k - 1);
            assert((k + 1) * 4294967295 <= 18446744073709551616 * 4294967295) by (nonlinear_arith)
                requires
                    k < 18446744073709551615,
            ;
        }
        tk = tk + track[k].0 as u128;
        k = k + 1;
    }
    if k >= n {
        QUARTER
    } else {
        proof {
            lemma_event_time_step(t, k - 1);
            assert(k * 4294967295 <= 18446744073709551616 * 4294967295) by (nonlinear_arith)
                requires
                    k < 18446744073709551616,
            ;
        }
        let end = tk + track[k].0 as u128;
        note_value(end - tick_i, tpb)
    }
}

/// Sorts timed notes by time, then by key, then by length (insertion sort).
fn sort_by_time_key(events: &Vec<(u128, u8, u8)>) -> (r: Vec<(u128, u8, u8)>)
    ensures
        time_key_sorted(r@),
        r@.to_multiset() == events@.to_multiset(),
{
    let mut sorted: Vec<(u128, u8, u8)> = Vec::new();
    let n = events.len();
    proof {
        assert(sorted@ =~= events@.take(0));
    }
    for i in 0..n
        invariant
            n == events@.len(),
            sorted@.len() == i,
            time_key_sorted(sorted@),
            sorted@.to_multiset() == events@.take(i as int).to_multiset(),
    {
        let e = events[i];
        let mut pos = sorted.len();
        while pos > 0 && (e.0 < sorted[pos - 1].0 || (e.0 == sorted[pos - 1].0 && (e.1 < sorted[pos - 1].1 || (
        e.1 == sorted[pos - 1].1 && e.2 < sorted[pos - 1].2))))
            invariant
                0 <= pos <= sorted@.len(),
                forall|j: int| pos <= j < sorted@.len() ==> !time_key_le(#[trigger] sorted@[j], e),
            decreases pos,
        {
            pos = pos - 1;
        }
        let ghost before = sorted@;
        sorted.insert(pos, e);
        proof {
            assert(sorted@.remove(pos as int) =~= before);
            vstd::seq_lib::to_multiset_remove(sorted@, pos as int);
            assert(sorted@[pos as int] == e);
            assert(sorted@.contains(e));
            broadcast use vstd::seq_lib::group_to_multiset_ensures;
            broadcast use vstd::multiset::group_multiset_axioms;
            assert(sorted@.to_multiset().count(e) > 0);
            assert(sorted@.to_multiset() =~= before.to_multiset().insert(e));
            assert(events@.take(i + 1) == events@.take(i as int).push(e));
            assert forall|a: int, b: int| 0 <= a < b < sorted@.len() implies time_key_le(
                #[trigger] sorted@[a],
                #[trigger] sorted@[b],
            ) by {
                if b < pos {
                    assert(sorted@[a] == before[a] && sorted@[b] == before[b]);
                } else if b == pos {
                    assert(sorted@[a] == before[a]);
                    assert(time_key_le(before[a], before[pos - 1]));
                } else if a == pos {
                    assert(sorted@[b] == before[b - 1]);
                } else if a < pos {
                    assert(sorted@[a] == before[a] && sorted@[b] == before[b - 1]);
                } else {
                    assert(sorted@[a] == before[a - 1] && sorted@[b] == before[b - 1]);
                }
            }
        }
    }
    proof {
        assert(events@.take(n as int) == events@);
    }
    sorted
}

/// The time signature a time-signature event gives, if it is well formed.
fn time_sig_at(e: SmfEvent) -> (r: Option<(u8, u8)>)
    ensures
        r == time_sig_of(e),
{
    match e.2 {
        Some(ts) => {
            if ts.0 > 0 && ts.1 <= 6 {
                let unit: u8 = match ts.1 {
                    0 => 1,
                    1 => 2,
                    2 => 4,
                    3 => 8,
                    4 => 16,
                    5 => 32,
                    _ => 64,
                };
                Some((ts.0, unit))
            } else {
                None
            }
        },
        None => None,
    }
}

/// A song read from a MIDI file: its notes in time order, with their
/// written lengths, and its time signature.
pub struct MidiFileSong {
    filename: String,
    notes: Vec<Note>,
    index: usize,
    beats_per_measure: u8,
    beat_unit: u8,
}

impl MidiFileSong {
    /// Name of the file the song came from.
    pub closed spec fn file_name(&self) -> String {
        self.filename
    }

    /// The notes of the song, in playing order.
    pub closed spec fn notes(&self) -> Seq<Note> {
        self.notes@
    }

    /// Number of notes played so far.
    pub closed spec fn position(&self) -> usize {
        self.index
    }

    /// Beats per measure and beat unit.
    pub closed spec fn meter(&self) -> (u8, u8) {
        (self.beats_per_measure, self.beat_unit)
    }

    /// The number of notes fits in a `usize`.
    pub proof fn lemma_note_count_fits(&self)
        ensures
            self.notes().len() <= usize::MAX,
    {
        assert(self.notes.len() == self.notes@.len());
    }

    /// The song made of the notes (note-on events with a positive velocity)
    /// of every track, each with the written length of its time until the
    /// key is released, with `ticks_per_beat` ticks to a beat, sorted by
    /// time, then by key, then by length, under the time signature of the
    /// first well-formed time-signature event (4/4 when there is none).
    /// Refused with `NoNotes` when there is no note.
    pub fn from_tracks(filename: String, ticks_per_beat: Option<u16>, tracks: &Vec<Vec<SmfEvent>>) -> (r:
        Result<MidiFileSong, LoadError>)
        ensures
            r is Err <==> note_ons(tracks_view(*tracks), ticks_per_beat).len() == 0,
            r matches Err(e) ==> e is NoNotes,
            r matches Ok(song) ==> {
                &&& song.file_name() == filename
                &&& song.position() == 0
                &&& is_song_of(song.notes(), ticks_per_beat, tracks_view(*tracks))
                &&& song.meter() == time_signature_of(tracks_view(*tracks))
            },
    {
        let ghost tv = tracks_view(*tracks);
        let ghost tpb = ticks_per_beat;
        let mut events: Vec<(u128, u8, u8)> = Vec::new();
        let mut found: Option<(u8, u8)> = None;
        let n = tracks.len();
        for t in 0..n
            invariant
                n == tracks@.len(),
                tv == tracks_view(*tracks),
                tpb == ticks_per_beat,
                events@ == note_ons(tv.take(t as int), tpb),
                found == tracks_time_sig(tv.take(t as int)),
        {
            let track = &tracks[t];
            let m = track.len();
            let mut tick: u128 = 0;
            let ghost found_before = found;
            proof {
                assert(tv[t as int] == track@);
                assert(track@.take(0) =~= Seq::<SmfEvent>::empty());
                assert(tv.take(t + 1).drop_last() == tv.take(t as int));
                assert(tv.take(t + 1).last() == track@);
                assert(note_ons(tv.take(t as int), tpb) + track_notes(track@, 0, tpb) =~= note_ons(
                    tv.take(t as int),
                    tpb,
                ));
            }
            for j in 0..m
                invariant
                    m == track@.len(),
                    m <= usize::MAX,
                    tv == tracks_view(*tracks),
                    tpb == ticks_per_beat,
                    tick as int == track_ticks(track@.take(j as int)),
                    tick <= j * 4294967295,
                    events@ == note_ons(tv.take(t as int), tpb) + track_notes(track@, j as int, tpb),
                    found_before == tracks_time_sig(tv.take(t as int)),
                    found == first_some(found_before, track_time_sig(track@.take(j as int))),
            {
                let ev = track[j];
                proof {
                    assert((j + 1) * 4294967295 <= 18446744073709551616 * 4294967295) by (nonlinear_arith)
                        requires
                            j < 18446744073709551615,
                    ;
                    assert(track@.take(j + 1).drop_last() == track@.take(j as int));
                    assert(track@.take(j + 1).last() == ev);
                }
                tick = tick + ev.0 as u128;
                let is_start = match ev.1 {
                    Some(kv) => kv.2 && kv.1 > 0,
                    None => false,
                };
                if is_start {
                    let len = length_at(track, j, tick, ticks_per_beat);
                    let key = match ev.1 {
                        Some(kv) => kv.0,
                        None => 0,
                    };
                    events.push((tick, key, len));
                }
                if found.is_none() {
                    found = time_sig_at(ev);
                }
                proof {
                    assert(track_ticks(track@.take(j + 1)) as u128 == tick);
                    assert(events@ =~= note_ons(tv.take(t as int), tpb) + track_notes(track@, j + 1, tpb));
                }
            }
            proof {
                assert(track@.take(m as int) == track@);
            }
        }
        proof {
            assert(tv.take(n as int) == tv);
        }
        if events.len() == 0 {
            return Err(LoadError::NoNotes);
        }
        let sorted = sort_by_time_key(&events);
        let mut notes: Vec<Note> = Vec::new();
        let k = sorted.len();
        for i in 0..k
            invariant
                k == sorted@.len(),
                notes@ == notes_of(sorted@.take(i as int)),
        {
            notes.push(Note::with_length(sorted[i].1, sorted[i].2));
            proof {
                assert(notes@ =~= notes_of(sorted@.take(i + 1)));
            }
        }
        proof {
            assert(sorted@.take(k as int) == sorted@);
            assert(time_key_sorted(sorted@) && sorted@.to_multiset() == note_ons(tv, tpb).to_multiset()
                && notes@ == notes_of(sorted@));
        }
        let (beats_per_measure, beat_unit) = match found {
            Some(ts) => ts,
            None => (4, 4),
        };
        Ok(MidiFileSong { filename, notes, index: 0, beats_per_measure, beat_unit })
    }

    /// The song in the bytes of a Standard MIDI File, parsed by `midly`.
    /// Refused with `InvalidMidi` when `midly` refuses the bytes, and with
    /// `NoNotes` when the file starts no note.
    pub fn parse(filename: String, data: &[u8]) -> (r: Result<MidiFileSong, LoadError>)
        ensures
            r matches Err(e) ==> (e is InvalidMidi <==> smf_contents(data@) is None),
            smf_contents(data@) matches Some(c) ==> {
                &&& r is Err <==> note_ons(c.1, c.0).len() == 0
                &&& r matches Ok(song) ==> {
                    &&& song.file_name() == filename
                    &&& song.position() == 0
                    &&& is_song_of(song.notes(), c.0, c.1)
                    &&& song.meter() == time_signature_of(c.1)
                }
            },
            smf_contents(data@) is None ==> r is Err,
    {
        match parse_smf(data) {
            Err(e) => Err(LoadError::InvalidMidi(e)),
            Ok((tpb, tracks)) => Self::from_tracks(filename, tpb, &tracks),
        }
    }

    /// Name of the file the song came from.
    pub fn filename(&self) -> (r: &String)
        ensures
            *r == self.file_name(),
    {
        &self.filename
    }

    /// Number of notes played so far.
    pub fn index(&self) -> (r: usize)
        ensures
            r == self.position(),
    {
        self.index
    }

    /// Beats per measure of the song's time signature.
    pub fn beats_per_measure(&self) -> (r: u8)
        ensures
            r == self.meter().0,
    {
        self.beats_per_measure
    }

    /// Beat unit (the note value of one beat: 4 for a quarter) of the
    /// song's time signature.
    pub fn beat_unit(&self) -> (r: u8)
        ensures
            r == self.meter().1,
    {
        self.beat_unit
    }

    /// The note to play now, if the song is not over.
    pub fn current(&self) -> (r: Option<Note>)
        ensures
            r == if self.position() < self.notes().len() {
                Some(self.notes()[self.position() as int])
            } else {
                None
            },
    {
        if self.index < self.notes.len() {
            Some(self.notes[self.index])
        } else {
            None
        }
    }

    /// Moves on to the next note; at the end of the song nothing changes.
    pub fn advance(&mut self)
        ensures
            final(self).position() == if old(self).position() < old(self).notes().len() {
                old(self).position() + 1
            } else {
                old(self).position() as int
            },
            final(self).notes() == old(self).notes(),
            final(self).file_name() == old(self).file_name(),
            final(self).meter() == old(self).meter(),
    {
        if self.index < self.notes.len() {
            self.index = self.index + 1;
        }
    }

    /// Whether every note has been played.
    pub fn is_complete(&self) -> (r: bool)
        ensures
            r == (self.position() >= self.notes().len()),
    {
        self.index >= self.notes.len()
    }

    /// `(index, number of notes)`.
    pub fn progress(&self) -> (r: (usize, usize))
        ensures
            r.0 == self.position(),
            r.1 == self.notes().len(),
    {
        (self.index, self.notes.len())
    }

    /// Up to `count` upcoming notes starting from the current one.
    pub fn peek(&self, count: usize) -> (r: Vec<Note>)
        requires
            self.position() <= self.notes().len(),
        ensures
            r@ == self.notes().subrange(
                self.position() as int,
                if count < self.notes().len() - self.position() {
                    self.position() + count
                } else {
                    self.notes().len() as int
                },
            ),
    {
        let rest = self.notes.len() - self.index;
        let n = if count < rest { count } else { rest };
        let mut r: Vec<Note> = Vec::new();
        for i in 0..n
            invariant
                self.index <= self.notes@.len(),
                n <= self.notes@.len() - self.index,
                self.index + n <= self.notes.len(),
                r@ == self.notes@.subrange(self.index as int, self.index + i),
        {
            r.push(self.notes[self.index + i]);
            proof {
                assert(r@ =~= self.notes@.subrange(self.index as int, self.index + i + 1));
            }
        }
        r
    }

    /// Back to the first note.
    pub fn restart(&mut self)
        ensures
            final(self).position() == 0,
            final(self).notes() == old(self).notes(),
            final(self).file_name() == old(self).file_name(),
            final(self).meter() == old(self).meter(),
    {
        self.index = 0;
    }
}

/// Whether `song` takes `midi` as an answer: a random session only within
/// its active range, a MIDI-file song any note.
pub open spec fn accepts(song: Song, midi: u8) -> bool {
    match song {
        Song::Random(s) => s.range_low() <= midi && midi <= s.range_high(),
        Song::MidiFile(_) => true,
    }
}

/// `notes` are the first `count` upcoming notes of `song`, current note
/// first (fewer when fewer are known).
pub open spec fn is_peek_of(song: Song, count: int, notes: Seq<Note>) -> bool {
    match song {
        Song::Random(s) => notes == s.upcoming().take(
            if count < s.upcoming().len() { count } else { s.upcoming().len() as int },
        ),
        Song::MidiFile(f) => notes == f.notes().subrange(
            f.position() as int,
            if count < f.notes().len() - f.position() {
                f.position() + count
            } else {
                f.notes().len() as int
            },
        ),
    }
}

/// `after` is `before` moved on by one note: a random session as
/// `is_advance_of` says; a MIDI-file song one note further, unless it is over.
pub open spec fn is_song_advance_of(before: Song, after: Song) -> bool {
    match (before, after) {
        (Song::Random(a), Song::Random(b)) => is_advance_of(a, b),
        (Song::MidiFile(a), Song::MidiFile(b)) => {
            &&& b.position() == if a.position() < a.notes().len() {
                a.position() + 1
            } else {
                a.position() as int
            }
            &&& b.notes() == a.notes()
            &&& b.file_name() == a.file_name()
            &&& b.meter() == a.meter()
        },
        _ => false,
    }
}

/// `after` is `before` started over: a random session as `is_restart_of`
/// says; a MIDI-file song back at its first note.
pub open spec fn is_song_restart_of(before: Song, after: Song) -> bool {
    match (before, after) {
        (Song::Random(a), Song::Random(b)) => is_restart_of(a, b),
        (Song::MidiFile(a), Song::MidiFile(b)) => {
            &&& b.position() == 0
            &&& b.notes() == a.notes()
            &&& b.file_name() == a.file_name()
            &&& b.meter() == a.meter()
        },
        _ => false,
    }
}

/// `after` is `before` once a correct answer on `midi`, given `latency_ms`
/// milliseconds after the note was shown, has been recorded: a random
/// session moves the note as `levels_after_correct` says; a MIDI-file song
/// stays as it was.
pub open spec fn is_correct_answer_of(before: Song, after: Song, midi: u8, latency_ms: int) -> bool {
    match (before, after) {
        (Song::Random(a), Song::Random(b)) => is_answer_of(a, b) && b.scheduler().box_levels()
            == levels_after_correct(a.scheduler().box_levels(), midi, latency_ms),
        (Song::MidiFile(a), Song::MidiFile(b)) => a == b,
        _ => false,
    }
}

/// `after` is `before` once a wrong answer on `midi` has been recorded: a
/// random session sends the note back to box 0; a MIDI-file song stays as it
/// was.
pub open spec fn is_wrong_answer_of(before: Song, after: Song, midi: u8) -> bool {
    match (before, after) {
        (Song::Random(a), Song::Random(b)) => is_answer_of(a, b) && b.scheduler().box_levels()
            == levels_after_incorrect(a.scheduler().box_levels(), midi),
        (Song::MidiFile(a), Song::MidiFile(b)) => a == b,
        _ => false,
    }
}

/// The time signature a song is shown in, as beats per measure and beat
/// unit: the file's for a MIDI-file song, 4/4 for a random session.
pub open spec fn song_meter(song: Song) -> (u8, u8) {
    match song {
        Song::Random(_) => (4, 4),
        Song::MidiFile(f) => f.meter(),
    }
}

/// A sequence of notes to practise: a random session or a MIDI file.
/// Both offer the same interface, so note delivery never has to know which
/// one it is.
pub enum Song {
    Random(RandomSong),
    MidiFile(MidiFileSong),
}

impl Song {
    /// A random session is valid as `RandomSong::wf` says; a MIDI-file song
    /// never stands past its end.
    pub open spec fn wf(&self) -> bool {
        match self {
            Song::Random(r) => r.wf(),
            Song::MidiFile(f) => f.position() <= f.notes().len(),
        }
    }

    /// The note to play now, if any.
    pub fn current(&self) -> (r: Option<Note>)
        ensures
            r == match self {
                Song::Random(s) => if s.upcoming().len() > 0 {
                    Some(s.upcoming()[0])
                } else {
                    None
                },
                Song::MidiFile(f) => if f.position() < f.notes().len() {
                    Some(f.notes()[f.position() as int])
                } else {
                    None
                },
            },
    {
        match self {
            Song::Random(r) => r.current(),
            Song::MidiFile(f) => f.current(),
        }
    }

    /// Moves on to the next note.
    pub fn advance(&mut self)
        requires
            old(self).wf(),
            *old(self) matches Song::Random(r) ==> r.position() < usize::MAX,
        ensures
            final(self).wf(),
            is_song_advance_of(*old(self), *final(self)),
    {
        match self {
            Song::Random(r) => r.advance(),
            Song::MidiFile(f) => f.advance(),
        }
    }

    /// Whether a fixed-length song is over; an endless random session never
    /// is.
    pub fn is_complete(&self) -> (r: bool)
        ensures
            r == match self {
                Song::Random(s) => s.session_size() is Some && s.upcoming().len() == 0,
                Song::MidiFile(f) => f.position() >= f.notes().len(),
            },
    {
        match self {
            Song::Random(r) => r.is_complete(),
            Song::MidiFile(f) => f.is_complete(),
        }
    }

    /// `Some((index, total))` for a finite song or session, `None` for an
    /// endless random session.
    pub fn progress(&self) -> (r: Option<(usize, usize)>)
        ensures
            r == match self {
                Song::Random(s) => match s.session_size() {
                    Some(n) => Some((s.position(), n)),
                    None => None,
                },
                Song::MidiFile(f) => Some((f.position(), f.notes().len() as usize)),
            },
    {
        match self {
            Song::Random(r) => r.progress(),
            Song::MidiFile(f) => Some(f.progress()),
        }
    }

    /// Up to `count` upcoming notes from the current position.
    pub fn peek(&self, count: usize) -> (r: Vec<Note>)
        requires
            self.wf(),
        ensures
            is_peek_of(*self, count as int, r@),
    {
        match self {
            Song::Random(r) => r.peek(count),
            Song::MidiFile(f) => f.peek(count),
        }
    }

    /// Whether `midi` falls within the accepted input range: the active
    /// range of a random session; any note for a MIDI-file song.
    pub fn in_range(&self, midi: u8) -> (r: bool)
        ensures
            r == accepts(*self, midi),
    {
        match self {
            Song::Random(r) => r.in_range(midi),
            Song::MidiFile(_) => true,
        }
    }

    /// Correct answer on `midi` after `latency_ms` milliseconds: a random
    /// session passes it on to its scheduler; a MIDI-file song ignores it.
    pub fn record_correct(&mut self, midi: u8, latency_ms: u128)
        requires
            old(self).wf(),
        ensures
            final(self).wf(),
            is_correct_answer_of(*old(self), *final(self), midi, latency_ms as int),
    {
        match self {
            Song::Random(r) => r.record_correct(midi, latency_ms),
            Song::MidiFile(_) => {},
        }
    }

    /// Wrong answer on `midi`: a random session passes it on to its
    /// scheduler; a MIDI-file song ignores it.
    pub fn record_incorrect(&mut self, midi: u8)
        requires
            old(self).wf(),
        ensures
            final(self).wf(),
            is_wrong_answer_of(*old(self), *final(self), midi),
    {
        match self {
            Song::Random(r) => r.record_incorrect(midi),
            Song::MidiFile(_) => {},
        }
    }

    /// Starts the song over.
    pub fn restart(&mut self)
        requires
            old(self).wf(),
        ensures
            final(self).wf(),
            is_song_restart_of(*old(self), *final(self)),
    {
        match self {
            Song::Random(r) => r.restart(),
            Song::MidiFile(f) => f.restart(),
        }
    }

    /// Beats per measure: those of the file's time signature for a MIDI-file
    /// song, 4 for a random session.
    pub fn beats_per_measure(&self) -> (r: u8)
        ensures
            r == song_meter(*self).0,
    {
        match self {
            Song::Random(_) => 4,
            Song::MidiFile(f) => f.beats_per_measure(),
        }
    }

    /// Beat unit: that of the file's time signature for a MIDI-file song, a
    /// quarter (4) for a random session.
    pub fn beat_unit(&self) -> (r: u8)
        ensures
            r == song_meter(*self).1,
    {
        match self {
            Song::Random(_) => 4,
            Song::MidiFile(f) => f.beat_unit(),
        }
    }

    /// The random session, if this is one.
    pub fn as_random(&self) -> (r: Option<&RandomSong>)
        ensures
            r == match self {
                Song::Random(s) => Some(s),
                Song::MidiFile(_) => None,
            },
    {
        match self {
            Song::Random(r) => Some(r),
            Song::MidiFile(_) => None,
        }
    }

    /// The MIDI-file song, if this is one.
    pub fn as_midi_file(&self) -> (r: Option<&MidiFileSong>)
        ensures
            r == match self {
                Song::MidiFile(f) => Some(f),
                Song::Random(_) => None,
            },
    {
        match self {
            Song::MidiFile(f) => Some(f),
            Song::Random(_) => None,
        }
    }
}

} // verus!
