//! The 88-key piano keyboard drawn under the staff: which keys are black,
//! where each white key sits, and how a key is coloured.

use crate::staff::{is_natural, lemma_naturals_split, naturals_in};
use vstd::prelude::*;

verus! {

/// Lowest key of an 88-key piano (A0).
pub const PIANO_LOW: u8 = 21;

/// Highest key of an 88-key piano (C8).
pub const PIANO_HIGH: u8 = 108;

/// Whether a MIDI key is a black key (C#, D#, F#, G# or A#).
pub fn piano_is_black(midi: u8) -> (b: bool)
    ensures
        b == !is_natural(midi as int),
{
    let pc = midi % 12;
    pc == 1 || pc == 3 || pc == 6 || pc == 8 || pc == 10
}

/// White keys among the first `r` keys from an A upwards.
pub open spec fn whites_from_a(r: int) -> int {
    if r <= 0 { 0 }
    else if r <= 2 { 1 }
    else if r == 3 { 2 }
    else if r <= 5 { 3 }
    else if r <= 7 { 4 }
    else if r == 8 { 5 }
    else if r <= 10 { 6 }
    else { 7 }
}

/// Counting white keys upwards from an A.
proof fn lemma_whites_from_a(a: int, r: int)
    requires
        0 <= a,
        a % 12 == 9,
        0 <= r <= 12,
    ensures
        naturals_in(a, a + r).len() == whites_from_a(r),
{
    reveal_with_fuel(naturals_in, 13);
    assert((a + 1) % 12 == 10);
    assert((a + 2) % 12 == 11);
    assert((a + 3) % 12 == 0);
    assert((a + 4) % 12 == 1);
    assert((a + 5) % 12 == 2);
    assert((a + 6) % 12 == 3);
    assert((a + 7) % 12 == 4);
    assert((a + 8) % 12 == 5);
    assert((a + 9) % 12 == 6);
    assert((a + 10) % 12 == 7);
    assert((a + 11) % 12 == 8);
    if r == 0 {
    } else if r == 1 {
        assert(naturals_in(a, a + 1).len() == 1);
    } else if r == 2 {
        assert(naturals_in(a, a + 2).len() == 1);
    } else if r == 3 {
        assert(naturals_in(a, a + 3).len() == 2);
    } else if r == 4 {
        assert(naturals_in(a, a + 4).len() == 3);
    } else if r == 5 {
        assert(naturals_in(a, a + 5).len() == 3);
    } else if r == 6 {
        assert(naturals_in(a, a + 6).len() == 4);
    } else if r == 7 {
        assert(naturals_in(a, a + 7).len() == 4);
    } else if r == 8 {
        assert(naturals_in(a, a + 8).len() == 5);
    } else if r == 9 {
        assert(naturals_in(a, a + 9).len() == 6);
    } else if r == 10 {
        assert(naturals_in(a, a + 10).len() == 6);
    } else if r == 11 {
        assert(naturals_in(a, a + 11).len() == 7);
    } else {
        assert(naturals_in(a, a + 12).len() == 7);
    }
}

/// Every `q` octaves upwards from an A hold `7 * q` white keys.
proof fn lemma_whites_octaves(a: int, q: int)
    requires
        0 <= a,
        a % 12 == 9,
        0 <= q,
    ensures
        naturals_in(a, a + 12 * q).len() == 7 * q,
    decreases q,
{
    if q > 0 {
        lemma_whites_octaves(a, q - 1);
        lemma_naturals_split(a, a + 12 * (q - 1), a + 12 * q);
        assert((a + 12 * (q - 1)) % 12 == 9);
        lemma_whites_from_a(a + 12 * (q - 1), 12);
    }
}

/// The white keys from A0 up to, not including, the key `n` semitones
/// higher: seven per whole octave plus those of the partial octave.
proof fn lemma_white_count(n: int)
    requires
        0 <= n,
    ensures
        naturals_in(PIANO_LOW as int, PIANO_LOW as int + n).len() == 7 * (n / 12) + whites_from_a(n % 12),
{
    let q = n / 12;
    let r = n % 12;
    let a = PIANO_LOW as int + 12 * q;
    lemma_whites_octaves(PIANO_LOW as int, q);
    lemma_naturals_split(PIANO_LOW as int, a, PIANO_LOW as int + n);
    assert(a % 12 == 9);
    lemma_whites_from_a(a, r);
}

/// Going up one key adds one to the white key index exactly when the key
/// left behind is white: white keys are numbered consecutively.
pub proof fn lemma_white_idx_step(midi: int)
    requires
        PIANO_LOW <= midi,
    ensures
        naturals_in(PIANO_LOW as int, midi + 1).len() == naturals_in(PIANO_LOW as int, midi).len()
            + if is_natural(midi) { 1int } else { 0int },
{
    lemma_naturals_split(PIANO_LOW as int, midi, midi + 1);
    reveal_with_fuel(naturals_in, 2);
}

/// Each octave adds exactly seven white keys.
pub proof fn lemma_white_idx_octave(midi: int)
    requires
        PIANO_LOW <= midi,
    ensures
        naturals_in(PIANO_LOW as int, midi + 12).len() == naturals_in(PIANO_LOW as int, midi).len() + 7,
{
    let n = midi - PIANO_LOW;
    lemma_white_count(n);
    lemma_white_count(n + 12);
    assert((n + 12) / 12 == n / 12 + 1);
    assert((n + 12) % 12 == n % 12);
}

/// An 88-key piano, A0 to C8, has 52 white keys.
pub proof fn lemma_piano_has_52_white_keys()
    ensures
        naturals_in(PIANO_LOW as int, PIANO_HIGH as int + 1).len() == 52,
{
    lemma_white_count(88);
}

/// White key index of a key (0 = A0 = MIDI 21): the number of white keys
/// from A0 up to, not including, `midi`.
pub fn piano_white_idx(midi: u8) -> (r: usize)
    requires
        midi >= PIANO_LOW,
    ensures
        r == naturals_in(PIANO_LOW as int, midi as int).len(),
{
    let n: usize = (midi - PIANO_LOW) as usize;
    let offset: usize = match n % 12 {
        0 => 0,
        1 => 1,
        2 => 1,
        3 => 2,
        4 => 3,
        5 => 3,
        6 => 4,
        7 => 4,
        8 => 5,
        9 => 6,
        10 => 6,
        _ => 7,
    };
    proof {
        lemma_white_count(n as int);
    }
    (n / 12) * 7 + offset
}

/// Colour of a key on the drawn keyboard.
#[derive(Debug, Clone, Copy, PartialEq, Eq, Structural)]
pub enum KeyColor {
    /// The key's own colour (white or black, dimmer outside the range).
    Base,
    /// The note to play next.
    Expected,
    /// Flash of a key just played correctly.
    Correct,
    /// Flash of a key just played wrongly.
    Wrong,
}

/// Colour of key `midi` when `expected` is the note to play and `flash`
/// names the key just played and whether it was right: the flash wins, then
/// the expected note, then the key's own colour.
pub fn piano_key_color(midi: u8, expected: u8, flash: Option<(u8, bool)>) -> (c: KeyColor)
    ensures
        c == if flash is Some && flash.unwrap().0 == midi {
            if flash.unwrap().1 { KeyColor::Correct } else { KeyColor::Wrong }
        } else if midi == expected {
            KeyColor::Expected
        } else {
            KeyColor::Base
        },
{
    match flash {
        Some((flash_midi, correct)) => {
            if flash_midi == midi {
                return if correct { KeyColor::Correct } else { KeyColor::Wrong };
            }
        },
        None => {},
    }
    if midi == expected {
        KeyColor::Expected
    } else {
        KeyColor::Base
    }
}

} // verus!
