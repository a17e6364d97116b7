//! Reading the MIDI keyboard: note-on messages, and the two keys that set a
//! training range.

use vstd::prelude::*;

verus! {

/// The key of a raw MIDI message when it is a note-on (status `0x9n`, any
/// channel) with a positive velocity.
pub fn note_on_key(msg: &[u8]) -> (r: Option<u8>)
    ensures
        r == if msg@.len() >= 3 && msg@[0] / 16 == 9 && msg@[2] > 0 {
            Some(msg@[1])
        } else {
            None
        },
{
    if msg.len() >= 3 {
        let status = msg[0];
        assert((status & 0xF0u8) == 0x90u8 <==> status / 16 == 9) by (bit_vector);
        if (status & 0xF0) == 0x90 && msg[2] > 0 {
            return Some(msg[1]);
        }
    }
    None
}

/// Adds a key pressed while the training range is being set (a key already
/// pressed is not added twice). Once two different keys are in, the range
/// runs from the lowest to the highest of them.
pub fn add_range_key(keys: &mut Vec<u8>, midi: u8) -> (r: Option<(u8, u8)>)
    ensures
        final(keys)@ == if old(keys)@.contains(midi) {
            old(keys)@
        } else {
            old(keys)@.push(midi)
        },
        r is Some <==> final(keys)@.len() >= 2,
        r matches Some(range) ==> {
            &&& final(keys)@.contains(range.0)
            &&& final(keys)@.contains(range.1)
            &&& forall|i: int| 0 <= i < final(keys)@.len() ==> range.0 <= #[trigger] final(keys)@[i] <= range.1
        },
{
    let mut present = false;
    let n = keys.len();
    for i in 0..n
        invariant
            n == keys@.len(),
            present <==> exists|j: int| 0 <= j < i && #[trigger] keys@[j] == midi,
    {
        if keys[i] == midi {
            present = true;
        }
    }
    if !present {
        keys.push(midi);
    }
    if keys.len() < 2 {
        return None;
    }
    let mut low = keys[0];
    let mut high = keys[0];
    let ghost mut at_low: int = 0;
    let ghost mut at_high: int = 0;
    let m = keys.len();
    for i in 1..m
        invariant
            m == keys@.len(),
            m >= 2,
            0 <= at_low < i,
            0 <= at_high < i,
            keys@[at_low] == low,
            keys@[at_high] == high,
            forall|j: int| 0 <= j < i ==> low <= #[trigger] keys@[j] <= high,
    {
        let k = keys[i];
        if k < low {
            low = k;
            proof {
                at_low = i as int;
            }
        }
        if k > high {
            high = k;
            proof {
                at_high = i as int;
            }
        }
    }
    proof {
        assert(keys@[at_low] == low);
        assert(keys@[at_high] == high);
    }
    Some((low, high))
}

/// Whether `needle` occurs in `hay` as a run of consecutive bytes.
pub open spec fn occurs_in(needle: Seq<u8>, hay: Seq<u8>) -> bool {
    exists|i: int|
        0 <= i && i + needle.len() <= hay.len() && #[trigger] hay.subrange(i, i + needle.len()) == needle
}

/// Whether a port name (`None`: a name that could not be read) contains
/// `hint`.
pub open spec fn port_matches(name: Option<Vec<u8>>, hint: Seq<u8>) -> bool {
    match name {
        Some(n) => occurs_in(hint, n@),
        None => false,
    }
}

/// Whether `hay` holds `needle` at `at`.
fn matches_at(hay: &[u8], needle: &[u8], at: usize) -> (r: bool)
    requires
        at + needle@.len() <= hay@.len(),
    ensures
        r == (hay@.subrange(at as int, at + needle@.len()) == needle@),
{
    let n = needle.len();
    let hl = hay.len();
    let mut k: usize = 0;
    while k < n
        invariant
            n == needle@.len(),
            hl == hay@.len(),
            at + n <= hay@.len(),
            k <= n,
            forall|j: int| 0 <= j < k ==> hay@[at + j] == needle@[j],
        decreases n - k,
    {
        if hay[at + k] != needle[k] {
            proof {
                assert(hay@.subrange(at as int, at + n)[k as int] != needle@[k as int]);
            }
            return false;
        }
        k = k + 1;
    }
    proof {
        assert(hay@.subrange(at as int, at + n) =~= needle@);
    }
    true
}

/// Whether the name `name` contains the text `hint`, byte for byte.
pub fn name_contains(name: &[u8], hint: &[u8]) -> (r: bool)
    ensures
        r == occurs_in(hint@, name@),
{
    if hint.len() > name.len() {
        return false;
    }
    let last = name.len() - hint.len();
    let mut i: usize = 0;
    loop
        invariant
            last == name@.len() - hint@.len(),
            i <= last,
            forall|j: int| 0 <= j < i ==> #[trigger] name@.subrange(j, j + hint@.len()) != hint@,
        decreases last - i,
    {
        if matches_at(name, hint, i) {
            return true;
        }
        if i == last {
            proof {
                assert(!occurs_in(hint@, name@)) by {
                    if occurs_in(hint@, name@) {
                        let w = choose|w: int|
                            0 <= w && w + hint@.len() <= name@.len() && #[trigger] name@.subrange(
                                w,
                                w + hint@.len(),
                            ) == hint@;
                        assert(w <= last);
                    }
                }
            }
            return false;
        }
        i = i + 1;
    }
}

/// The MIDI input port to connect to, by index among ports named `names`:
/// with no hint the first port, with a hint the first port whose name
/// contains it; `None` when there is no such port.
pub fn choose_port(names: &Vec<Option<Vec<u8>>>, hint: &Option<Vec<u8>>) -> (r: Option<usize>)
    ensures
        hint.is_none() ==> r == if names@.len() > 0 { Some(0usize) } else { None },
        hint matches Some(h) ==> match r {
            Some(i) => {
                &&& i < names@.len()
                &&& port_matches(names@[i as int], h@)
                &&& forall|j: int| 0 <= j < i ==> !port_matches(#[trigger] names@[j], h@)
            },
            None => forall|j: int| 0 <= j < names@.len() ==> !port_matches(#[trigger] names@[j], h@),
        },
{
    match hint {
        None => if names.len() > 0 {
            Some(0)
        } else {
            None
        },
        Some(h) => {
            let n = names.len();
            for i in 0..n
                invariant
                    n == names@.len(),
                    *hint == Some(*h),
                    forall|j: int| 0 <= j < i ==> !port_matches(#[trigger] names@[j], h@),
            {
                let found = match &names[i] {
                    Some(name) => name_contains(name.as_slice(), h.as_slice()),
                    None => false,
                };
                if found {
                    proof {
                        assert(port_matches(names@[i as int], h@));
                    }
                    return Some(i);
                }
            }
            None
        },
    }
}

} // verus!
