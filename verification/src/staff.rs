//! Notes identified by MIDI number: names, octaves, staff positions, and the
//! natural (white-key) notes of a range.

use vstd::prelude::*;

verus! {

/// Whether a pitch class (0 = C … 11 = B) is a sharp / black key.
pub open spec fn is_black_pitch_class(pc: int) -> bool {
    pc == 1 || pc == 3 || pc == 6 || pc == 8 || pc == 10
}

/// Whether a MIDI note number names a natural (white-key) note.
pub open spec fn is_natural(midi: int) -> bool {
    !is_black_pitch_class(midi % 12)
}

/// Letter name of a pitch class, accidentals written as sharps.
pub open spec fn letter_name(pc: int) -> Seq<char> {
    if pc == 0 { "C"@ }
    else if pc == 1 { "C#"@ }
    else if pc == 2 { "D"@ }
    else if pc == 3 { "D#"@ }
    else if pc == 4 { "E"@ }
    else if pc == 5 { "F"@ }
    else if pc == 6 { "F#"@ }
    else if pc == 7 { "G"@ }
    else if pc == 8 { "G#"@ }
    else if pc == 9 { "A"@ }
    else if pc == 10 { "A#"@ }
    else { "B"@ }
}

/// Diatonic step (0–6) of a pitch class; an accidental shares the step of
/// the natural below it.
pub open spec fn diatonic_step(pc: int) -> int {
    if pc <= 1 { 0 }
    else if pc <= 3 { 1 }
    else if pc == 4 { 2 }
    else if pc <= 6 { 3 }
    else if pc <= 8 { 4 }
    else if pc <= 10 { 5 }
    else { 6 }
}

/// Scientific octave number of a MIDI note (C4 = MIDI 60).
pub open spec fn octave_of(midi: int) -> int {
    midi / 12 - 1
}

/// Diatonic staff position relative to C4 (C4 = 0, one octave = 7 steps).
pub open spec fn staff_position_of(midi: int) -> int {
    diatonic_step(midi % 12) + (octave_of(midi) - 4) * 7
}

/// The character of a decimal digit.
pub open spec fn digit_char(d: int) -> char {
    (48 + d) as char
}

/// Decimal text of a non-negative integer.
pub open spec fn decimal_text(n: nat) -> Seq<char>
    decreases n,
{
    if n < 10 {
        seq![digit_char(n as int)]
    } else {
        decimal_text(n / 10).push(digit_char((n % 10) as int))
    }
}

/// Decimal text of an integer, with a leading `-` when negative.
pub open spec fn signed_text(n: int) -> Seq<char> {
    if n < 0 {
        seq!['-'] + decimal_text((-n) as nat)
    } else {
        decimal_text(n as nat)
    }
}

/// The naturals in the half-open range `lo..hi`, ascending.
pub open spec fn naturals_in(lo: int, hi: int) -> Seq<u8>
    decreases hi - lo,
{
    if hi <= lo {
        seq![]
    } else if is_natural(hi - 1) {
        naturals_in(lo, hi - 1).push((hi - 1) as u8)
    } else {
        naturals_in(lo, hi - 1)
    }
}

/// Length of a quarter note, in sixteenths.
pub const QUARTER: u8 = 4;

/// Whether `s` sixteenths is the length of a whole (16), half (8), quarter
/// (4), eighth (2) or sixteenth (1) note.
pub open spec fn is_note_value(s: int) -> bool {
    s == 16 || s == 8 || s == 4 || s == 2 || s == 1
}

/// A note identified by its MIDI note number, with its written length.
/// Middle C is MIDI 60 (C4 in scientific pitch notation).
#[derive(Debug, Clone, Copy, PartialEq, Eq, Structural, PartialOrd, Ord, Hash)]
pub struct Note {
    pub midi: u8,
    /// Written length in sixteenths: 16 whole, 8 half, 4 quarter, 2 eighth,
    /// 1 sixteenth.
    pub sixteenths: u8,
}

impl Note {
    /// Construct a quarter note from a raw MIDI note number.
    pub fn new(midi: u8) -> (n: Note)
        ensures
            n.midi == midi,
            n.sixteenths == QUARTER,
    {
        Note { midi, sixteenths: QUARTER }
    }

    /// Construct a note of `sixteenths` sixteenths from a raw MIDI note
    /// number.
    pub fn with_length(midi: u8, sixteenths: u8) -> (n: Note)
        ensures
            n.midi == midi,
            n.sixteenths == sixteenths,
    {
        Note { midi, sixteenths }
    }

    /// Letter name of the pitch class, e.g. `"C"`, `"F#"`.
    pub fn letter(self) -> (r: &'static str)
        ensures
            r@ == letter_name(self.midi as int % 12),
    {
        match self.midi % 12 {
            0 => "C",
            1 => "C#",
            2 => "D",
            3 => "D#",
            4 => "E",
            5 => "F",
            6 => "F#",
            7 => "G",
            8 => "G#",
            9 => "A",
            10 => "A#",
            _ => "B",
        }
    }

    /// Scientific octave number; C4 = MIDI 60 → octave 4.
    pub fn octave(self) -> (o: i32)
        ensures
            o == octave_of(self.midi as int),
    {
        (self.midi as i32) / 12 - 1
    }

    /// Returns `true` for black-key (sharp/flat) notes.
    pub fn is_accidental(self) -> (b: bool)
        ensures
            b == is_black_pitch_class(self.midi as int % 12),
            b == !is_natural(self.midi as int),
    {
        let pc = self.midi % 12;
        pc == 1 || pc == 3 || pc == 6 || pc == 8 || pc == 10
    }

    /// Diatonic staff position relative to C4 (C4 = 0, E4 = 2, C5 = 7, …).
    /// Accidentals share the position of the natural below them.
    pub fn staff_position(self) -> (p: i32)
        ensures
            p == staff_position_of(self.midi as int),
    {
        let pc = self.midi % 12;
        let diatonic: i32 = if pc <= 1 {
            0
        } else if pc <= 3 {
            1
        } else if pc == 4 {
            2
        } else if pc <= 6 {
            3
        } else if pc <= 8 {
            4
        } else if pc <= 10 {
            5
        } else {
            6
        };
        let octave_offset = (self.octave() - 4) * 7;
        diatonic + octave_offset
    }

    /// Name of the note: letter followed by octave, e.g. `"C4"`, `"F#4"`.
    pub fn name(self) -> (s: String)
        ensures
            s@ == letter_name(self.midi as int % 12) + signed_text(octave_of(self.midi as int)),
    {
        let mut s = self.letter().to_owned();
        let o = self.octave();
        if o < 0 {
            proof { reveal_strlit("-"); }
            s.append("-");
            let d = digit_text((-o) as u8);
            s.append(d);
            proof {
                assert(decimal_text((-o) as nat) == seq![digit_char(-o as int)]);
            }
        } else if o < 10 {
            let d = digit_text(o as u8);
            s.append(d);
        } else {
            let hi = digit_text((o / 10) as u8);
            s.append(hi);
            let lo = digit_text((o % 10) as u8);
            s.append(lo);
            proof {
                let n = o as nat;
                assert(n / 10 < 10);
                assert(decimal_text(n / 10) == seq![digit_char((n / 10) as int)]);
                assert(decimal_text(n) == decimal_text(n / 10).push(digit_char((n % 10) as int)));
            }
        }
        assert(s@ =~= letter_name(self.midi as int % 12) + signed_text(octave_of(self.midi as int)));
        s
    }
}

/// Ledger lines a note at staff position `pos` needs below the staff (the
/// bottom line is E4, position 2): one for every line position from C4
/// downwards that the note reaches.
pub open spec fn ledger_lines_below(pos: int) -> int {
    if pos < 2 { (2 - pos) / 2 } else { 0 }
}

/// Ledger lines a note at staff position `pos` needs above the staff (the
/// top line is F5, position 10): one for every line position from A5
/// upwards that the note reaches.
pub open spec fn ledger_lines_above(pos: int) -> int {
    if pos > 10 { (pos - 10) / 2 } else { 0 }
}

/// Ledger lines grow by one for every line position a note reaches beyond
/// the staff: none from E4 (the bottom line, position 2) up to F5 (the top
/// line, position 10) and the spaces just outside them; one at C4 (position
/// 0) and at A5 (position 12); and one more for every two steps further
/// down or up.
pub proof fn lemma_ledger_lines_per_line_position(pos: int)
    ensures
        1 <= pos <= 11 ==> ledger_lines_below(pos) == 0 && ledger_lines_above(pos) == 0,
        ledger_lines_below(0) == 1,
        ledger_lines_above(12) == 1,
        pos < 2 ==> ledger_lines_below(pos - 2) == ledger_lines_below(pos) + 1,
        pos < 2 ==> ledger_lines_below(pos - 1) == ledger_lines_below(pos) + if pos % 2 == 0 { 0int } else { 1int },
        pos > 10 ==> ledger_lines_above(pos + 2) == ledger_lines_above(pos) + 1,
        pos > 10 ==> ledger_lines_above(pos + 1) == ledger_lines_above(pos) + if pos % 2 == 0 { 0int } else { 1int },
        pos >= 2 ==> ledger_lines_below(pos) == 0,
        pos <= 10 ==> ledger_lines_above(pos) == 0,
{
}

/// How a note is written on the staff.
#[derive(Debug, Clone, Copy, PartialEq, Eq, Structural)]
pub struct NoteGlyph {
    /// Open (hollow) head: whole and half notes.
    pub open_head: bool,
    /// The larger head of a whole note.
    pub large_head: bool,
    /// Whether the note has a stem: every note but a whole note.
    pub stem: bool,
    /// Whether the stem points up: notes up to the middle line (B4).
    pub stem_up: bool,
    /// Flags on the stem: one on an eighth, two on a sixteenth.
    pub flags: u8,
    /// Ledger lines below the staff.
    pub ledger_below: u8,
    /// Ledger lines above the staff.
    pub ledger_above: u8,
}

/// How note `n` is written: its head, stem, flags and ledger lines.
pub fn note_glyph(n: Note) -> (g: NoteGlyph)
    ensures
        g.open_head == (n.sixteenths >= 8),
        g.large_head == (n.sixteenths >= 16),
        g.stem == (n.sixteenths < 16),
        g.stem_up == (staff_position_of(n.midi as int) <= 6),
        g.flags == if !g.stem {
            0u8
        } else if n.sixteenths <= 1 {
            2u8
        } else if n.sixteenths <= 2 {
            1u8
        } else {
            0u8
        },
        g.ledger_below == ledger_lines_below(staff_position_of(n.midi as int)),
        g.ledger_above == ledger_lines_above(staff_position_of(n.midi as int)),
{
    let pos = n.staff_position();
    proof {
        lemma_staff_position_range(n.midi as int);
    }
    let stem = n.sixteenths < 16;
    let flags: u8 = if !stem {
        0
    } else if n.sixteenths <= 1 {
        2
    } else if n.sixteenths <= 2 {
        1
    } else {
        0
    };
    let ledger_below: u8 = if pos < 2 { ((2 - pos) / 2) as u8 } else { 0 };
    let ledger_above: u8 = if pos > 10 { ((pos - 10) / 2) as u8 } else { 0 };
    NoteGlyph {
        open_head: n.sixteenths >= 8,
        large_head: n.sixteenths >= 16,
        stem,
        stem_up: pos <= 6,
        flags,
        ledger_below,
        ledger_above,
    }
}

/// Staff positions of MIDI numbers that fit in a byte lie between -35 and
/// 118.
proof fn lemma_staff_position_range(midi: int)
    requires
        0 <= midi <= 255,
    ensures
        -35 <= staff_position_of(midi) <= 118,
{
    assert(0 <= midi / 12 <= 21);
    assert(0 <= midi % 12 < 12);
}

/// Every member of `naturals_in(lo, hi)` is a natural in `lo..hi`, every
/// natural of `lo..hi` that fits in a byte is a member, and the members
/// ascend strictly.
pub proof fn lemma_naturals_in(lo: int, hi: int)
    requires
        0 <= lo,
        hi <= 256,
    ensures
        forall|i: int|
            0 <= i < naturals_in(lo, hi).len() ==> lo <= #[trigger] naturals_in(lo, hi)[i] < hi
                && is_natural(naturals_in(lo, hi)[i] as int),
        forall|m: int|
            lo <= m < hi && is_natural(m) ==> #[trigger] naturals_in(lo, hi).contains(m as u8),
        forall|i: int, j: int|
            0 <= i < j < naturals_in(lo, hi).len() ==> #[trigger] naturals_in(lo, hi)[i]
                < #[trigger] naturals_in(lo, hi)[j],
        naturals_in(lo, hi).no_duplicates(),
        naturals_in(lo, hi).len() <= if hi <= lo { 0 } else { hi - lo },
    decreases hi - lo,
{
    if hi > lo {
        lemma_naturals_in(lo, hi - 1);
        let prev = naturals_in(lo, hi - 1);
        if is_natural(hi - 1) {
            let cur = prev.push((hi - 1) as u8);
            assert forall|m: int| lo <= m < hi && is_natural(m) implies #[trigger] cur.contains(
                m as u8,
            ) by {
                if m == hi - 1 {
                    assert(cur[cur.len() - 1] == m as u8);
                } else {
                    assert(prev.contains(m as u8));
                    let k = choose|k: int| 0 <= k < prev.len() && prev[k] == m as u8;
                    assert(cur[k] == m as u8);
                }
            }
        }
    }
}

/// Picks a uniformly random natural note within `low..=high`.
/// Falls back to C4 (MIDI 60) when the range contains no natural notes.
pub fn random_natural_note(low: u8, high: u8) -> (n: Note)
    ensures
        n.sixteenths == QUARTER,
        naturals_in(low as int, high as int + 1).len() == 0 ==> n.midi == 60,
        naturals_in(low as int, high as int + 1).len() > 0 ==> naturals_in(
            low as int,
            high as int + 1,
        ).contains(n.midi),
        naturals_in(low as int, high as int + 1).len() > 0 ==> low <= n.midi <= high
            && is_natural(n.midi as int),
{
    let naturals = natural_notes_in_range(low, high);
    match crate::random::choose_one(naturals.as_slice()) {
        Some(m) => Note::new(m),
        None => Note::new(60),
    }
}

/// Every natural MIDI note number in `low..=high`, in ascending order.
pub fn natural_notes_in_range(low: u8, high: u8) -> (r: Vec<u8>)
    ensures
        r@ == naturals_in(low as int, high as int + 1),
        forall|i: int| 0 <= i < r@.len() ==> low <= #[trigger] r@[i] <= high && is_natural(r@[i] as int),
        forall|m: u8| low <= m <= high && is_natural(m as int) ==> #[trigger] r@.contains(m),
        forall|i: int, j: int| 0 <= i < j < r@.len() ==> #[trigger] r@[i] < #[trigger] r@[j],
{
    let mut r: Vec<u8> = Vec::new();
    let mut m: u16 = low as u16;
    while m <= high as u16 && low <= high
        invariant
            low <= m,
            low <= high ==> m <= high as int + 1,
            low > high ==> m == low,
            r@ == naturals_in(low as int, m as int),
        decreases high as int + 1 - m,
    {
        if !Note::new(m as u8).is_accidental() {
            r.push(m as u8);
        }
        m = m + 1;
    }
    proof {
        lemma_naturals_in(low as int, high as int + 1);
        assert forall|x: u8| low <= x <= high && is_natural(x as int) implies #[trigger] r@.contains(x) by {
            assert(naturals_in(low as int, high as int + 1).contains((x as int) as u8));
        }
    }
    r
}

/// One octave up keeps the letter and the natural/accidental kind, raises the
/// octave by one and the staff position by seven diatonic steps.
pub proof fn lemma_octave_shift(midi: int)
    requires
        0 <= midi,
    ensures
        (midi + 12) % 12 == midi % 12,
        letter_name((midi + 12) % 12) == letter_name(midi % 12),
        is_natural(midi + 12) == is_natural(midi),
        octave_of(midi + 12) == octave_of(midi) + 1,
        staff_position_of(midi + 12) == staff_position_of(midi) + 7,
{
    assert((midi + 12) / 12 == midi / 12 + 1);
}

/// An accidental sits on the staff position of the natural just below it.
pub proof fn lemma_accidental_shares_natural_below(midi: int)
    requires
        0 <= midi,
        !is_natural(midi),
    ensures
        midi >= 1,
        is_natural(midi - 1),
        staff_position_of(midi) == staff_position_of(midi - 1),
{
    assert((midi - 1) % 12 == midi % 12 - 1);
    assert((midi - 1) / 12 == midi / 12);
}

/// Staff position never decreases as the pitch rises, and it rises strictly
/// from one natural to a higher natural.
pub proof fn lemma_staff_position_monotone(a: int, b: int)
    requires
        0 <= a <= b,
    ensures
        staff_position_of(a) <= staff_position_of(b),
        a < b && is_natural(a) && is_natural(b) ==> staff_position_of(a) < staff_position_of(b),
{
    if a / 12 == b / 12 {
        assert(a % 12 <= b % 12);
    } else {
        assert(a / 12 < b / 12);
        assert((b / 12 - a / 12) * 7 >= 7) by (nonlinear_arith)
            requires
                a / 12 < b / 12,
        ;
    }
}

/// Every octave starting on a C holds exactly seven naturals:
/// C, D, E, F, G, A and B.
pub proof fn lemma_seven_naturals_per_octave(c: int)
    requires
        0 <= c,
        c + 12 <= 256,
        c % 12 == 0,
    ensures
        naturals_in(c, c + 12).len() == 7,
        naturals_in(c, c + 12) == seq![
            c as u8,
            (c + 2) as u8,
            (c + 4) as u8,
            (c + 5) as u8,
            (c + 7) as u8,
            (c + 9) as u8,
            (c + 11) as u8,
        ],
{
    reveal_with_fuel(naturals_in, 13);
    assert((c + 1) % 12 == 1);
    assert((c + 2) % 12 == 2);
    assert((c + 3) % 12 == 3);
    assert((c + 4) % 12 == 4);
    assert((c + 5) % 12 == 5);
    assert((c + 6) % 12 == 6);
    assert((c + 7) % 12 == 7);
    assert((c + 8) % 12 == 8);
    assert((c + 9) % 12 == 9);
    assert((c + 10) % 12 == 10);
    assert((c + 11) % 12 == 11);
    assert(naturals_in(c, c + 12) =~= seq![
        c as u8,
        (c + 2) as u8,
        (c + 4) as u8,
        (c + 5) as u8,
        (c + 7) as u8,
        (c + 9) as u8,
        (c + 11) as u8,
    ]);
}

/// The naturals of `lo..hi` are those of `lo..mid` followed by those of
/// `mid..hi`.
pub(crate) proof fn lemma_naturals_split(lo: int, mid: int, hi: int)
    requires
        lo <= mid <= hi,
    ensures
        naturals_in(lo, hi) == naturals_in(lo, mid) + naturals_in(mid, hi),
    decreases hi - mid,
{
    if hi == mid {
        assert(naturals_in(mid, hi) =~= Seq::<u8>::empty());
        assert(naturals_in(lo, mid) + naturals_in(mid, hi) =~= naturals_in(lo, mid));
    } else {
        lemma_naturals_split(lo, mid, hi - 1);
        if is_natural(hi - 1) {
            assert(naturals_in(lo, hi) =~= naturals_in(lo, mid) + naturals_in(mid, hi));
        } else {
            assert(naturals_in(lo, hi) =~= naturals_in(lo, mid) + naturals_in(mid, hi));
        }
    }
}

/// Any twelve consecutive MIDI numbers hold exactly seven naturals, so
/// exactly five accidentals.
pub proof fn lemma_five_accidentals_per_twelve(m: int)
    requires
        0 <= m,
        m + 12 <= 256,
    ensures
        naturals_in(m, m + 12).len() == 7,
        Set::new(|k: int| m <= k < m + 12 && !is_natural(k)).len() == 5,
    decreases m % 12,
{
    if m % 12 == 0 {
        lemma_seven_naturals_per_octave(m);
    } else {
        lemma_five_accidentals_per_twelve(m - 1);
        lemma_naturals_split(m - 1, m, m + 12);
        lemma_naturals_split(m - 1, m + 11, m + 12);
        reveal_with_fuel(naturals_in, 2);
        assert((m + 11) % 12 == (m - 1) % 12);
        let one_below = naturals_in(m - 1, m);
        let one_above = naturals_in(m + 11, m + 12);
        assert(one_below.len() == if is_natural(m - 1) { 1int } else { 0int });
        assert(one_above.len() == if is_natural(m + 11) { 1int } else { 0int });
        assert(naturals_in(m - 1, m + 12).len() == one_below.len() + naturals_in(m, m + 12).len());
        assert(naturals_in(m - 1, m + 12).len() == naturals_in(m - 1, m + 11).len() + one_above.len());
    }
    lemma_accidental_set(m, 12);
}

/// The accidentals of `m..m + r` number `r` minus the naturals there.
proof fn lemma_accidental_set(m: int, r: int)
    requires
        0 <= m,
        0 <= r,
    ensures
        Set::new(|k: int| m <= k < m + r && !is_natural(k)).finite(),
        Set::new(|k: int| m <= k < m + r && !is_natural(k)).len() == r - naturals_in(m, m + r).len(),
    decreases r,
{
    let s = Set::new(|k: int| m <= k < m + r && !is_natural(k));
    if r == 0 {
        assert(s =~= Set::<int>::empty());
    } else {
        lemma_accidental_set(m, r - 1);
        let p = Set::new(|k: int| m <= k < m + r - 1 && !is_natural(k));
        if is_natural(m + r - 1) {
            assert(s =~= p);
        } else {
            assert(s =~= p.insert(m + r - 1));
        }
    }
}

/// The one-character text of a decimal digit.
fn digit_text(d: u8) -> (r: &'static str)
    requires
        d < 10,
    ensures
        r@ == seq![digit_char(d as int)],
{
    match d {
        0 => { proof { reveal_strlit("0"); } "0" },
        1 => { proof { reveal_strlit("1"); } "1" },
        2 => { proof { reveal_strlit("2"); } "2" },
        3 => { proof { reveal_strlit("3"); } "3" },
        4 => { proof { reveal_strlit("4"); } "4" },
        5 => { proof { reveal_strlit("5"); } "5" },
        6 => { proof { reveal_strlit("6"); } "6" },
        7 => { proof { reveal_strlit("7"); } "7" },
        8 => { proof { reveal_strlit("8"); } "8" },
        _ => { proof { reveal_strlit("9"); } "9" },
    }
}

} // verus!
