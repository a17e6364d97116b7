//! Leitner spaced-repetition scheduler: every natural note of a range sits in
//! one of five boxes; lower boxes are drawn more often, a fast correct answer
//! moves a note up one box and a wrong answer sends it back to box 0.

use crate::clock::now;
use crate::staff::{is_natural, naturals_in, natural_notes_in_range, Note, QUARTER};
use std::collections::HashMap;
use std::time::Instant;
use vstd::prelude::*;
use vstd::std_specs::iter::IteratorSpec;

verus! {

broadcast use vstd::std_specs::hash::group_hash_axioms;

/// Number of boxes; box levels run from 0 to `BOX_COUNT - 1`.
pub const BOX_COUNT: usize = 5;

/// Highest box level.
pub const TOP_BOX: u8 = 4;

/// Sampling weight of each box, in half units: box 0 weighs 10, box 1
/// weighs 6, box 2 weighs 3, box 3 weighs 1.5 and box 4 weighs 0.5.
/// A lower box is drawn more often.
pub const BOX_WEIGHTS: [u32; 5] = [20, 12, 6, 3, 1];

/// A correct answer counts as fast when it arrives within this many
/// milliseconds.
pub const FAST_THRESHOLD_MS: u64 = 1500;

/// The weight of a box level, in half units.
pub open spec fn box_weight(level: int) -> int {
    if level == 0 { 20 }
    else if level == 1 { 12 }
    else if level == 2 { 6 }
    else if level == 3 { 3 }
    else { 1 }
}

/// The notes of `keys` whose box is `b`.
pub open spec fn members_in_box(keys: Set<u8>, levels: Map<u8, u8>, b: int) -> Set<u8> {
    keys.filter(|k: u8| levels[k] == b)
}

/// Number of tracked notes whose box is `b`.
pub open spec fn count_in_box(levels: Map<u8, u8>, b: int) -> nat {
    members_in_box(levels.dom(), levels, b).len()
}

/// The box level after a correct answer given `latency_ms` after the note
/// was shown: one box up (at most the top box) when fast, unchanged when slow.
pub open spec fn level_after_correct(level: int, latency_ms: int) -> int {
    if latency_ms <= FAST_THRESHOLD_MS {
        if level + 1 <= TOP_BOX { level + 1 } else { TOP_BOX as int }
    } else {
        level
    }
}

/// Box levels after a correct answer on `midi`: that note moves as
/// `level_after_correct` says; an untracked note changes nothing.
pub open spec fn levels_after_correct(levels: Map<u8, u8>, midi: u8, latency_ms: int) -> Map<u8, u8> {
    if levels.contains_key(midi) {
        levels.insert(midi, level_after_correct(levels[midi] as int, latency_ms) as u8)
    } else {
        levels
    }
}

/// What an answer does to the boxes: a correct answer within 1500 ms moves
/// the note up one box, but never past box 4; a slower correct answer leaves
/// it where it is; a wrong answer sends it to box 0. No other note moves,
/// and the tracked notes stay the same.
pub proof fn lemma_answer_moves_boxes(levels: Map<u8, u8>, m: u8, latency_ms: int)
    requires
        levels.contains_key(m),
        levels[m] <= 4,
    ensures
        levels_after_correct(levels, m, latency_ms).dom() == levels.dom(),
        levels_after_incorrect(levels, m).dom() == levels.dom(),
        latency_ms > 1500 ==> levels_after_correct(levels, m, latency_ms)[m] == levels[m],
        latency_ms <= 1500 && levels[m] < 4 ==> levels_after_correct(levels, m, latency_ms)[m] == levels[m] + 1,
        latency_ms <= 1500 && levels[m] == 4 ==> levels_after_correct(levels, m, latency_ms)[m] == 4,
        levels_after_incorrect(levels, m)[m] == 0,
        forall|k: u8| #[trigger] levels.contains_key(k) && k != m ==> levels_after_correct(levels, m, latency_ms)[k]
            == levels[k] && levels_after_incorrect(levels, m)[k] == levels[k],
{
    assert(levels_after_correct(levels, m, latency_ms).dom() =~= levels.dom());
    assert(levels_after_incorrect(levels, m).dom() =~= levels.dom());
}

/// Box levels after a wrong answer on `midi`: that note drops to box 0; an
/// untracked note changes nothing.
pub open spec fn levels_after_incorrect(levels: Map<u8, u8>, midi: u8) -> Map<u8, u8> {
    if levels.contains_key(midi) {
        levels.insert(midi, 0)
    } else {
        levels
    }
}

/// The set of naturals in `low..=high`.
pub open spec fn natural_set(low: int, high: int) -> Set<u8> {
    Set::new(|m: u8| low <= m <= high && is_natural(m as int))
}

/// Adding a new key to a finite set of keys adds one to the count of the box
/// it sits in and leaves the other counts alone.
proof fn lemma_count_insert(seen: Set<u8>, x: u8, levels: Map<u8, u8>, b: int)
    requires
        seen.finite(),
        !seen.contains(x),
    ensures
        members_in_box(seen.insert(x), levels, b).len() == members_in_box(seen, levels, b).len()
            + if levels[x] == b { 1int } else { 0int },
{
    vstd::set_lib::lemma_len_subset(members_in_box(seen, levels, b), seen);
    if levels[x] == b {
        assert(members_in_box(seen.insert(x), levels, b) =~= members_in_box(seen, levels, b).insert(x));
    } else {
        assert(members_in_box(seen.insert(x), levels, b) =~= members_in_box(seen, levels, b));
    }
}

/// Every tracked note sits in exactly one box: the five box counts add up to
/// the number of tracked notes.
pub proof fn lemma_box_counts_cover(levels: Map<u8, u8>)
    requires
        levels.dom().finite(),
        forall|k: u8| #[trigger] levels.contains_key(k) ==> levels[k] <= TOP_BOX,
    ensures
        count_in_box(levels, 0) + count_in_box(levels, 1) + count_in_box(levels, 2)
            + count_in_box(levels, 3) + count_in_box(levels, 4) == levels.dom().len(),
    decreases levels.dom().len(),
{
    if levels.dom().len() == 0 {
        assert(levels.dom() =~= Set::<u8>::empty());
        assert forall|b: int| #[trigger] count_in_box(levels, b) == 0 by {
            assert(members_in_box(levels.dom(), levels, b) =~= Set::<u8>::empty());
        }
    } else {
        let x = levels.dom().choose();
        let rest = levels.remove(x);
        assert(rest.dom() =~= levels.dom().remove(x));
        lemma_box_counts_cover(rest);
        assert(levels.dom() =~= rest.dom().insert(x));
        assert forall|b: int| #[trigger] count_in_box(levels, b) == count_in_box(rest, b) + if levels[x]
            == b { 1int } else { 0int } by {
            assert(members_in_box(rest.dom(), rest, b) =~= members_in_box(rest.dom(), levels, b));
            lemma_count_insert(rest.dom(), x, levels, b);
        }
    }
}

/// The keys of a map, in the order its iterator hands them out, are the
/// map's domain without repetition.
proof fn lemma_keys_of(m: &HashMap<u8, NoteState>)
    ensures
        m.keys().remaining().unref().no_duplicates(),
        m.keys().remaining().unref().to_set() == m@.dom(),
        m.keys().remaining().unref().len() == m@.dom().len(),
{
    let keys = m.keys().remaining().unref();
    assert forall|i: int, j: int| 0 <= i < keys.len() && 0 <= j < keys.len() && i != j implies keys[i]
        != keys[j] by {
        assert(m.keys().remaining()[i] != m.keys().remaining()[j]);
    }
}

/// Sum of a sequence of weights.
pub open spec fn weight_sum(w: Seq<u32>) -> int
    decreases w.len(),
{
    if w.len() == 0 {
        0
    } else {
        weight_sum(w.drop_last()) + w.last()
    }
}

/// The index that a draw picks from weighted candidates: the first index
/// whose running weight total exceeds the draw, or the last index when none
/// does.
pub open spec fn draw_index(w: Seq<u32>, draw: int) -> int
    decreases w.len(),
{
    if w.len() <= 1 {
        0
    } else if draw < weight_sum(w.drop_last()) {
        draw_index(w.drop_last(), draw)
    } else {
        w.len() - 1
    }
}

/// The sampling weight of each candidate, from its box level.
pub open spec fn weights_for(candidates: Seq<u8>, levels: Map<u8, u8>) -> Seq<u32> {
    Seq::new(candidates.len(), |i: int| box_weight(levels[candidates[i]] as int) as u32)
}

/// The notes that may be drawn next: every tracked note except the last one
/// drawn, unless that would leave nothing to draw.
pub open spec fn candidate_set(levels: Map<u8, u8>, last: Option<u8>) -> Set<u8> {
    if levels.dom().len() > 1 && last is Some {
        levels.dom().remove(last.unwrap())
    } else {
        levels.dom()
    }
}

/// `after` is `before` once it has drawn `n`, a quarter note: the box levels
/// are kept; with nothing tracked the draw is C4 and nothing changes;
/// otherwise `n` is a candidate (a tracked note other than the last one
/// drawn, unless that is the only tracked note), it becomes the last note
/// drawn and gets a time of last sight while every other note keeps its own,
/// and some ordering of the candidates with their box weights and some draw
/// below the total weight select it.
#[verifier::opaque]
pub open spec fn is_pick(before: Scheduler, after: Scheduler, n: Note) -> bool {
    let levels = before.box_levels();
    &&& after.wf()
    &&& after.box_levels() == levels
    &&& n.sixteenths == QUARTER
    &&& levels.dom().len() == 0 ==> {
        &&& n.midi == 60
        &&& after == before
    }
    &&& levels.dom().len() > 0 ==> {
        &&& candidate_set(levels, before.last_pick()).contains(n.midi)
        &&& levels.contains_key(n.midi)
        &&& levels.dom().len() > 1 && before.last_pick() is Some ==> n.midi != before.last_pick().unwrap()
        &&& after.last_pick() == Some(n.midi)
        &&& after.seen_notes() == before.seen_notes().insert(n.midi)
        &&& after.seen_times().dom() == before.seen_times().dom()
        &&& after.seen_times()[n.midi] is Some
        &&& after.seen_times().remove(n.midi) == before.seen_times().remove(n.midi)
        &&& exists|c: Seq<u8>, draw: int|
            #![trigger weights_for(c, levels), draw_index(weights_for(c, levels), draw)]
            {
                &&& c.no_duplicates()
                &&& c.to_set() == candidate_set(levels, before.last_pick())
                &&& 0 <= draw < weight_sum(weights_for(c, levels))
                &&& n.midi == c[draw_index(weights_for(c, levels), draw)]
            }
    }
}

/// The plain facts of a draw: the scheduler stays valid with the same box
/// levels; with nothing tracked the draw is C4 and nothing changes; else the
/// draw is a tracked note, differs from the previous pick when another note
/// is tracked, becomes the last pick, and is the only note whose time of
/// last sight changes. When every tracked note is a natural, so is the draw.
pub proof fn lemma_pick_facts(before: Scheduler, after: Scheduler, n: Note)
    requires
        is_pick(before, after, n),
    ensures
        after.wf(),
        after.box_levels() == before.box_levels(),
        n.sixteenths == QUARTER,
        before.box_levels().dom().len() == 0 ==> n.midi == 60 && after == before,
        before.box_levels().dom().len() > 0 ==> before.box_levels().contains_key(n.midi)
            && after.last_pick() == Some(n.midi),
        before.box_levels().dom().len() > 1 && before.last_pick() is Some ==> n.midi
            != before.last_pick().unwrap(),
        before.box_levels().dom().len() > 0 ==> after.seen_times().dom() == before.box_levels().dom()
            && after.seen_times()[n.midi] is Some
            && forall|k: u8| #[trigger] before.box_levels().contains_key(k) && k != n.midi
                ==> after.seen_times()[k] == before.seen_times()[k],
        is_natural(n.midi as int),
{
    reveal(is_pick);
    after.lemma_levels_bounded();
    assert(before.seen_times().dom() =~= before.box_levels().dom());
    assert(is_natural(60));
    if before.box_levels().dom().len() > 0 {
        assert forall|k: u8| #[trigger] before.box_levels().contains_key(k) && k != n.midi
            implies after.seen_times()[k] == before.seen_times()[k] by {
            assert(after.box_levels().contains_key(k));
            assert(after.seen_times().dom().contains(k));
            assert(before.seen_times().remove(n.midi).contains_key(k));
            assert(before.seen_times().remove(n.midi)[k] == before.seen_times()[k]);
            assert(after.seen_times().remove(n.midi)[k] == after.seen_times()[k]);
        }
    }
}

/// `s` is a scheduler as it comes new for `low..=high`: every natural of the
/// range tracked in box 0, none drawn yet.
pub open spec fn is_fresh(s: Scheduler, low: int, high: int) -> bool {
    &&& s.wf()
    &&& s.box_levels().dom() == natural_set(low, high)
    &&& forall|k: u8| #[trigger] s.box_levels().contains_key(k) ==> s.box_levels()[k] == 0
    &&& s.seen_notes() == Set::<u8>::empty()
    &&& s.last_pick() is None
}

/// `chain[i + 1]` is `chain[i]` after drawing `notes[i]`, for every draw.
pub open spec fn is_pick_chain(chain: Seq<Scheduler>, notes: Seq<Note>) -> bool {
    &&& chain.len() == notes.len() + 1
    &&& forall|i: int| 0 <= i < notes.len() ==> is_pick(chain[i], chain[i + 1], #[trigger] notes[i])
}

/// Running weight totals never decrease.
proof fn lemma_weight_sum_prefix_monotone(w: Seq<u32>, a: int, b: int)
    requires
        0 <= a <= b <= w.len(),
    ensures
        weight_sum(w.take(a)) <= weight_sum(w.take(b)),
    decreases b - a,
{
    if a < b {
        lemma_weight_sum_prefix_monotone(w, a, b - 1);
        assert(w.take(b).drop_last() == w.take(b - 1));
    }
}

/// A draw that falls in the running-total interval of index `i` (or that
/// reaches past the total, for the last index) picks index `i`.
pub proof fn lemma_draw_index_at(w: Seq<u32>, draw: int, i: int)
    requires
        0 <= i < w.len(),
        weight_sum(w.take(i)) <= draw,
        draw < weight_sum(w.take(i + 1)) || i == w.len() - 1,
    ensures
        draw_index(w, draw) == i,
    decreases w.len(),
{
    if w.len() > 1 {
        let d = w.drop_last();
        assert(w.take(w.len() - 1) == d);
        if i < w.len() - 1 {
            lemma_weight_sum_prefix_monotone(w, i + 1, w.len() - 1);
            assert(d.take(i) == w.take(i));
            assert(d.take(i + 1) == w.take(i + 1));
            lemma_draw_index_at(d, draw, i);
        }
    }
}

/// Every draw below the total weight lands in the running-total interval of
/// the index it picks, so each candidate is picked by exactly as many draws
/// as its weight.
pub proof fn lemma_draw_index_interval(w: Seq<u32>, draw: int)
    requires
        w.len() > 0,
        0 <= draw < weight_sum(w),
    ensures
        0 <= draw_index(w, draw) < w.len(),
        weight_sum(w.take(draw_index(w, draw))) <= draw < weight_sum(w.take(draw_index(w, draw) + 1)),
    decreases w.len(),
{
    assert(w.take(w.len() as int) == w);
    if w.len() == 1 {
        assert(w.take(0) == Seq::<u32>::empty());
    } else {
        let d = w.drop_last();
        if draw < weight_sum(d) {
            lemma_draw_index_interval(d, draw);
            let i = draw_index(d, draw);
            assert(d.take(i) == w.take(i));
            assert(d.take(i + 1) == w.take(i + 1));
        } else {
            assert(w.take(w.len() - 1) == d);
        }
    }
}

/// Picks the candidate that `draw` selects from the weighted candidates.
pub fn weighted_pick(candidates: &[u8], weights: &[u32], draw: u64) -> (m: u8)
    requires
        candidates@.len() == weights@.len(),
        weights@.len() > 0,
    ensures
        0 <= draw_index(weights@, draw as int) < candidates@.len(),
        m == candidates@[draw_index(weights@, draw as int)],
{
    let mut i: usize = 0;
    let mut remaining: u64 = draw;
    while i < weights.len() - 1 && remaining >= weights[i] as u64
        invariant
            candidates@.len() == weights@.len(),
            0 <= i < weights@.len(),
            remaining as int == draw as int - weight_sum(weights@.take(i as int)),
            remaining <= draw,
        decreases weights@.len() - i,
    {
        proof {
            assert(weights@.take(i + 1).drop_last() == weights@.take(i as int));
        }
        remaining = remaining - weights[i] as u64;
        i = i + 1;
    }
    proof {
        assert(weights@.take(i + 1).drop_last() == weights@.take(i as int));
        lemma_draw_index_at(weights@, draw as int, i as int);
    }
    candidates[i]
}

/// A lower box weighs more: its notes are drawn more often.
pub proof fn lemma_lower_box_weighs_more(a: int, b: int)
    requires
        0 <= a < b <= TOP_BOX,
    ensures
        box_weight(a) > box_weight(b),
{
}

/// Practice state of one note.
pub struct NoteState {
    /// Box level, 0 to 4; every note starts in box 0.
    pub box_level: u8,
    /// When the note was last drawn.
    pub last_seen: Option<Instant>,
}

pub struct Scheduler {
    states: HashMap<u8, NoteState>,
    last_note: Option<u8>,
}

impl Scheduler {
    /// Box level of every tracked note.
    pub closed spec fn box_levels(&self) -> Map<u8, u8> {
        self.states@.map_values(|s: NoteState| s.box_level)
    }

    /// The tracked notes that have been drawn at least once.
    pub closed spec fn seen_notes(&self) -> Set<u8> {
        self.states@.dom().filter(|k: u8| self.states@[k].last_seen is Some)
    }

    /// When each tracked note was last drawn, `None` if never.
    pub closed spec fn seen_times(&self) -> Map<u8, Option<Instant>> {
        self.states@.map_values(|s: NoteState| s.last_seen)
    }

    /// Every note a valid scheduler tracks is a natural whose box level is
    /// at most the top box, and it has a time of last sight (`None` when it
    /// was never drawn).
    pub proof fn lemma_levels_bounded(&self)
        requires
            self.wf(),
        ensures
            forall|k: u8| #[trigger] self.box_levels().contains_key(k) ==> self.box_levels()[k] <= TOP_BOX
                && is_natural(k as int),
            self.seen_times().dom() == self.box_levels().dom(),
    {
        assert(self.seen_times().dom() =~= self.box_levels().dom());
    }

    /// The note drawn last, if any.
    pub closed spec fn last_pick(&self) -> Option<u8> {
        self.last_note
    }

    /// Every tracked note is a natural with a box level of at most the top
    /// box, and at most 256 notes are tracked.
    pub closed spec fn wf(&self) -> bool {
        &&& forall|k: u8| #[trigger] self.states@.contains_key(k) ==> self.states@[k].box_level <= TOP_BOX
            && is_natural(k as int)
        &&& self.states@.len() <= 256
    }

    /// Every tracked note sits in exactly one box: the box counts add up to
    /// the number of tracked notes.
    pub proof fn lemma_counts_cover_tracked(&self)
        requires
            self.wf(),
        ensures
            count_in_box(self.box_levels(), 0) + count_in_box(self.box_levels(), 1) + count_in_box(
                self.box_levels(),
                2,
            ) + count_in_box(self.box_levels(), 3) + count_in_box(self.box_levels(), 4)
                == self.box_levels().dom().len(),
    {
        assert(self.box_levels().dom() =~= self.states@.dom());
        lemma_box_counts_cover(self.box_levels());
    }

    /// A scheduler that tracks every natural note in `low..=high`, all in box
    /// 0, none drawn yet.
    pub fn new(low: u8, high: u8) -> (s: Scheduler)
        ensures
            is_fresh(s, low as int, high as int),
    {
        let notes = natural_notes_in_range(low, high);
        let mut states: HashMap<u8, NoteState> = HashMap::new();
        let n = notes.len();
        proof {
            crate::staff::lemma_naturals_in(low as int, high as int + 1);
        }
        for i in 0..n
            invariant
                n == notes@.len(),
                notes@ == naturals_in(low as int, high as int + 1),
                notes@.no_duplicates(),
                n <= 256,
                states@.dom() == notes@.take(i as int).to_set(),
                forall|k: u8| #[trigger] states@.contains_key(k) ==> states@[k].box_level == 0
                    && states@[k].last_seen is None,
        {
            let m = notes[i];
            states.insert(m, NoteState { box_level: 0, last_seen: None });
            proof {
                assert(notes@.take(i + 1) == notes@.take(i as int).push(m));
                broadcast use vstd::seq_lib::group_seq_properties;
                assert(states@.dom() =~= notes@.take(i + 1).to_set());
            }
        }
        proof {
            assert(notes@.take(n as int) == notes@);
            notes@.unique_seq_to_set();
            assert forall|k: u8| states@.dom().contains(k) <==> natural_set(low as int, high as int).contains(k) by {
                if natural_set(low as int, high as int).contains(k) {
                    assert(notes@.contains(k));
                }
                if states@.dom().contains(k) {
                    assert(notes@.contains(k));
                    let j = choose|j: int| 0 <= j < notes@.len() && notes@[j] == k;
                    assert(low <= notes@[j] <= high);
                }
            }
            assert(states@.dom() =~= natural_set(low as int, high as int));
        }
        let s = Scheduler { states, last_note: None };
        proof {
            assert(s.box_levels().dom() =~= natural_set(low as int, high as int));
            assert(s.seen_notes() =~= Set::<u8>::empty());
        }
        s
    }

    /// The per-note practice states, keyed by MIDI note number.
    pub fn states(&self) -> (r: &HashMap<u8, NoteState>)
        ensures
            r@.dom() == self.box_levels().dom(),
            self.seen_times().dom() == self.box_levels().dom(),
            forall|k: u8| #[trigger] r@.contains_key(k) ==> r@[k].box_level == self.box_levels()[k]
                && r@[k].last_seen == self.seen_times()[k]
                && (r@[k].last_seen is Some <==> self.seen_notes().contains(k)),
    {
        &self.states
    }

    /// Correct answer given `latency_ms` milliseconds after the note was
    /// shown: the note moves up one box if the answer was fast, and stays if
    /// it was slow. An untracked note changes nothing.
    pub fn record_correct(&mut self, midi: u8, latency_ms: u128)
        requires
            old(self).wf(),
        ensures
            final(self).wf(),
            final(self).box_levels() == levels_after_correct(old(self).box_levels(), midi, latency_ms as int),
            final(self).box_levels().dom() == old(self).box_levels().dom(),
            forall|k: u8| #[trigger] old(self).box_levels().contains_key(k) && k != midi
                ==> final(self).box_levels()[k] == old(self).box_levels()[k],
            old(self).box_levels().contains_key(midi) && latency_ms > 1500 ==> final(self).box_levels()[midi]
                == old(self).box_levels()[midi],
            old(self).box_levels().contains_key(midi) && latency_ms <= 1500 ==> final(self).box_levels()[midi]
                == if old(self).box_levels()[midi] < 4 { old(self).box_levels()[midi] + 1 } else { 4 },
            final(self).seen_notes() == old(self).seen_notes(),
            final(self).seen_times() == old(self).seen_times(),
            final(self).last_pick() == old(self).last_pick(),
    {
        let ghost before = self.states@;
        match self.states.get(&midi) {
            Some(state) => {
                if latency_ms <= FAST_THRESHOLD_MS as u128 {
                    let raised = if state.box_level + 1 <= TOP_BOX { state.box_level + 1 } else { TOP_BOX };
                    let seen = state.last_seen;
                    self.states.insert(midi, NoteState { box_level: raised, last_seen: seen });
                    proof {
                        assert(self.states@.dom() =~= before.dom());
                    }
                }
            },
            None => {},
        }
        proof {
            assert(self.box_levels() =~= (if before.contains_key(midi) {
                before.map_values(|s: NoteState| s.box_level).insert(
                    midi,
                    level_after_correct(before[midi].box_level as int, latency_ms as int) as u8,
                )
            } else {
                before.map_values(|s: NoteState| s.box_level)
            }));
            assert(self.seen_notes() =~= before.dom().filter(|k: u8| before[k].last_seen is Some));
            assert(self.seen_times() =~= before.map_values(|s: NoteState| s.last_seen));
        }
    }

    /// Wrong answer: the note drops back to box 0. An untracked note changes
    /// nothing.
    pub fn record_incorrect(&mut self, midi: u8)
        requires
            old(self).wf(),
        ensures
            final(self).wf(),
            final(self).box_levels() == levels_after_incorrect(old(self).box_levels(), midi),
            final(self).box_levels().dom() == old(self).box_levels().dom(),
            forall|k: u8| #[trigger] old(self).box_levels().contains_key(k) && k != midi
                ==> final(self).box_levels()[k] == old(self).box_levels()[k],
            old(self).box_levels().contains_key(midi) ==> final(self).box_levels()[midi] == 0,
            final(self).seen_notes() == old(self).seen_notes(),
            final(self).seen_times() == old(self).seen_times(),
            final(self).last_pick() == old(self).last_pick(),
    {
        let ghost before = self.states@;
        match self.states.get(&midi) {
            Some(state) => {
                let seen = state.last_seen;
                self.states.insert(midi, NoteState { box_level: 0, last_seen: seen });
                proof {
                    assert(self.states@.dom() =~= before.dom());
                }
            },
            None => {},
        }
        proof {
            assert(self.box_levels() =~= (if before.contains_key(midi) {
                before.map_values(|s: NoteState| s.box_level).insert(midi, 0)
            } else {
                before.map_values(|s: NoteState| s.box_level)
            }));
            assert(self.seen_notes() =~= before.dom().filter(|k: u8| before[k].last_seen is Some));
            assert(self.seen_times() =~= before.map_values(|s: NoteState| s.last_seen));
        }
    }

    /// Number of tracked notes in each box.
    pub fn box_counts(&self) -> (counts: [usize; 5])
        requires
            self.wf(),
        ensures
            forall|b: int| 0 <= b < 5 ==> #[trigger] counts@[b] == count_in_box(self.box_levels(), b),
    {
        let mut counts: [usize; 5] = [0; 5];
        let ghost levels = self.box_levels();
        let ghost keys = self.states.keys().remaining().unref();
        proof {
            lemma_keys_of(&self.states);
        }
        proof {
            assert(levels.dom() =~= self.states@.dom());
            assert(keys.take(0).to_set() =~= Set::<u8>::empty());
            assert forall|b: int| 0 <= b < 5 implies #[trigger] counts@[b] == members_in_box(
                keys.take(0).to_set(),
                levels,
                b,
            ).len() by {
                assert(members_in_box(keys.take(0).to_set(), levels, b) =~= Set::<u8>::empty());
            }
        }
        for k in it: self.states.keys()
            invariant
                self.wf(),
                levels == self.box_levels(),
                it.seq().unref() == keys,
                keys.no_duplicates(),
                keys.to_set() == levels.dom(),
                keys.len() == levels.dom().len(),
                counts@[0] + counts@[1] + counts@[2] + counts@[3] + counts@[4] == it.index(),
                forall|b: int| 0 <= b < 5 ==> #[trigger] counts@[b] == members_in_box(
                    keys.take(it.index()).to_set(),
                    levels,
                    b,
                ).len(),
        {
            let ghost i = it.index();
            let level = match self.states.get(k) {
                Some(st) => st.box_level,
                None => 0,
            };
            proof {
                assert(keys[i] == *k);
                assert(keys.to_set().contains(*k));
                assert(level == levels[*k]);
                let before = keys.take(i);
                assert(keys.take(i + 1) == before.push(*k));
                assert(keys.take(i + 1).to_set() =~= before.to_set().insert(*k)) by {
                    broadcast use vstd::seq_lib::group_seq_properties;
                }
                assert(before.to_set().finite()) by {
                    broadcast use vstd::seq_lib::group_seq_properties;
                }
                assert(!before.to_set().contains(*k)) by {
                    if before.to_set().contains(*k) {
                        let j = choose|j: int| 0 <= j < before.len() && before[j] == *k;
                        assert(keys[j] == keys[i]);
                    }
                }
                lemma_count_insert(before.to_set(), *k, levels, 0);
                lemma_count_insert(before.to_set(), *k, levels, 1);
                lemma_count_insert(before.to_set(), *k, levels, 2);
                lemma_count_insert(before.to_set(), *k, levels, 3);
                lemma_count_insert(before.to_set(), *k, levels, 4);
            }
            counts[level as usize] = counts[level as usize] + 1;
            proof {
                assert(keys.take(i + 1).to_set() == keys.take(i).to_set().insert(*k));
            }
        }
        proof {
            assert(keys.take(keys.len() as int) == keys);
        }
        counts
    }

    /// The notes that may be drawn next with their box weights, in the
    /// order the tracked notes are stored, and the total weight: every
    /// tracked note except the last one drawn, unless that would leave
    /// nothing to draw.
    pub fn candidates_with_weights(&self) -> (r: (Vec<u8>, Vec<u32>, u64))
        requires
            self.wf(),
        ensures
            r.0@.no_duplicates(),
            r.0@.to_set() == candidate_set(self.box_levels(), self.last_pick()),
            r.1@ == weights_for(r.0@, self.box_levels()),
            r.2 as int == weight_sum(r.1@),
            r.0@.len() <= r.2,
            self.box_levels().dom().len() > 0 ==> r.0@.len() > 0,
    {
        let ghost levels = self.box_levels();
        proof {
            assert(levels.dom() =~= self.states@.dom());
        }
        let tracked_count = self.states.len();
        let last = self.last_note;
        let ghost cset = candidate_set(levels, last);
        let mut candidates: Vec<u8> = Vec::new();
        let mut weights: Vec<u32> = Vec::new();
        let mut total: u64 = 0;
        let ghost keys = self.states.keys().remaining().unref();
        proof {
            lemma_keys_of(&self.states);
            assert(weights@ =~= weights_for(candidates@, levels));
        }
        for k in it: self.states.keys()
            invariant
                self.wf(),
                levels == self.box_levels(),
                tracked_count == levels.dom().len(),
                tracked_count <= 256,
                last == self.last_note,
                cset == candidate_set(levels, last),
                it.seq().unref() == keys,
                keys.no_duplicates(),
                keys.to_set() == levels.dom(),
                keys.len() == levels.dom().len(),
                candidates@.no_duplicates(),
                forall|x: u8| #[trigger] candidates@.contains(x) <==> keys.take(it.index()).contains(x)
                    && cset.contains(x),
                candidates@.len() <= it.index(),
                weights@ == weights_for(candidates@, levels),
                total as int == weight_sum(weights@),
                candidates@.len() <= total <= 20 * candidates@.len(),
        {
            let ghost i = it.index();
            let ghost prev = keys.take(i);
            let ghost next = keys.take(i + 1);
            proof {
                assert(keys[i] == *k);
                assert(keys.take(i + 1) == keys.take(i).push(*k));
                assert(keys.to_set().contains(*k));
            }
            let is_candidate = match last {
                Some(l) => !(tracked_count > 1 && *k == l),
                None => true,
            };
            if is_candidate {
                let level = match self.states.get(k) {
                    Some(st) => st.box_level,
                    None => 0,
                };
                let w: u32 = BOX_WEIGHTS[level as usize];
                proof {
                    assert(level == levels[*k]);
                    assert(w == box_weight(level as int));
                    assert(!candidates@.contains(*k)) by {
                        if candidates@.contains(*k) {
                            assert(keys.take(i).contains(*k));
                            let j = choose|j: int| 0 <= j < prev.len() && prev[j] == *k;
                            assert(keys[j] == keys[i]);
                        }
                    }
                    assert(cset.contains(*k));
                }
                let ghost old_cands = candidates@;
                candidates.push(*k);
                weights.push(w);
                total = total + w as u64;
                proof {
                    assert(weights@ =~= weights_for(candidates@, levels));
                    assert(weights@.drop_last() == weights_for(old_cands, levels));
                    assert forall|x: u8| #[trigger] candidates@.contains(x) <==> keys.take(i + 1).contains(x)
                        && cset.contains(x) by {
                        if candidates@.contains(x) && x != *k {
                            let j = choose|j: int| 0 <= j < candidates@.len() && candidates@[j] == x;
                            assert(old_cands[j] == x);
                            assert(old_cands.contains(x));
                            assert(prev.contains(x));
                            let j2 = choose|j2: int| 0 <= j2 < prev.len() && prev[j2] == x;
                            assert(next[j2] == x);
                        }
                        if keys.take(i + 1).contains(x) && cset.contains(x) && x != *k {
                            let j = choose|j: int| 0 <= j < next.len() && next[j] == x;
                            assert(next[i] == *k);
                            assert(j != i);
                            assert(prev[j] == x);
                            assert(old_cands.contains(x));
                            let j2 = choose|j2: int| 0 <= j2 < old_cands.len() && old_cands[j2] == x;
                            assert(candidates@[j2] == x);
                        }
                        if x == *k {
                            assert(candidates@[candidates@.len() - 1] == x);
                            assert(next[i] == x);
                        }
                    }
                }
            } else {
                proof {
                    assert(!cset.contains(*k));
                    assert forall|x: u8| #[trigger] candidates@.contains(x) <==> keys.take(i + 1).contains(x)
                        && cset.contains(x) by {
                        if keys.take(i + 1).contains(x) && cset.contains(x) {
                            let j = choose|j: int| 0 <= j < next.len() && next[j] == x;
                            assert(j != i);
                            assert(prev[j] == x);
                        }
                        if keys.take(i).contains(x) {
                            let j = choose|j: int| 0 <= j < prev.len() && prev[j] == x;
                            assert(next[j] == x);
                        }
                    }
                }
            }
        }
        proof {
            assert(keys.take(keys.len() as int) == keys);
            assert(candidates@.to_set() =~= cset) by {
                assert forall|x: u8| cset.contains(x) implies candidates@.contains(x) by {
                    if last is Some && levels.dom().len() > 1 {
                        assert(levels.dom().contains(x));
                    }
                    assert(keys.to_set().contains(x));
                }
            }
            assert(levels.dom().len() > 0 ==> candidates@.len() > 0) by {
                if candidates@.len() == 0 && levels.dom().len() > 0 {
                    assert(cset =~= Set::<u8>::empty());
                    if last is Some && levels.dom().len() > 1 {
                        assert(levels.dom().remove(last.unwrap()).len() >= levels.dom().len() - 1);
                    } else {
                        assert(levels.dom().len() > 0);
                    }
                }
            }
        }
        (candidates, weights, total)
    }

    /// Draws the next note to practise: a weighted random draw over the
    /// tracked notes in which a lower box weighs more, never repeating the
    /// last note while another one is tracked. With no tracked note the
    /// result is C4 (MIDI 60) and nothing changes.
    pub fn pick_next(&mut self) -> (n: Note)
        requires
            old(self).wf(),
        ensures
            is_pick(*old(self), *final(self), n),
    {
        let ghost levels = self.box_levels();
        let ghost before = self.states@;
        let ghost cset = candidate_set(levels, self.last_note);
        proof {
            assert(levels.dom() =~= self.states@.dom());
        }
        if self.states.is_empty() {
            proof {
                assert(levels.dom().len() == 0);
                reveal(is_pick);
            }
            return Note::new(60);
        }
        let (candidates, weights, total) = self.candidates_with_weights();
        let draw = crate::random::random_below(total);
        let chosen = weighted_pick(candidates.as_slice(), weights.as_slice(), draw);
        proof {
            assert(candidates@.contains(chosen));
            assert(cset.contains(chosen));
            assert(levels.dom().contains(chosen));
        }
        match self.states.get(&chosen) {
            Some(st) => {
                let level = st.box_level;
                self.states.insert(chosen, NoteState { box_level: level, last_seen: Some(now()) });
            },
            None => {},
        }
        self.last_note = Some(chosen);
        proof {
            assert(self.states@.dom() =~= before.dom());
            assert(self.box_levels() =~= levels);
            assert(self.seen_notes() =~= before.dom().filter(|k: u8| before[k].last_seen is Some).insert(
                chosen,
            ));
            assert(self.seen_times().remove(chosen) =~= before.map_values(|s: NoteState| s.last_seen).remove(
                chosen,
            ));
            assert(self.seen_times().dom() =~= before.dom());
            reveal(is_pick);
            let c = candidates@;
            assert(c.no_duplicates() && c.to_set() == cset && 0 <= draw < weight_sum(
                weights_for(c, levels),
            ) && chosen == c[draw_index(weights_for(c, levels), draw as int)]);
        }
        Note::new(chosen)
    }

    /// Box level of a note (0 if the note is not tracked).
    pub fn note_box(&self, midi: u8) -> (b: u8)
        ensures
            b == if self.box_levels().contains_key(midi) { self.box_levels()[midi] } else { 0 },
            self.wf() ==> b <= TOP_BOX,
    {
        match self.states.get(&midi) {
            Some(s) => s.box_level,
            None => 0,
        }
    }
}

} // verus!
