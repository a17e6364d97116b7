//! Draws from the thread-local random generator of the `rand` crate.

use rand::seq::SliceRandom;
use rand::Rng;
use vstd::prelude::*;

verus! {

/// Picks one item of `items` with `rand::seq::SliceRandom::choose` and the
/// thread-local generator. The source returns `None` exactly for an empty
/// slice and otherwise one of its items; which one is left to chance.
#[verifier::external_body]
pub(crate) fn choose_one(items: &[u8]) -> (r: Option<u8>)
    ensures
        r is None <==> items@.len() == 0,
        r matches Some(x) ==> items@.contains(x),
{
    items.choose(&mut rand::thread_rng()).copied()
}

/// Draws an integer in `0..bound` with `rand::Rng::gen_range` and the
/// thread-local generator. `gen_range` panics on an empty range, so `bound`
/// must be positive; the value within the range is left to chance.
#[verifier::external_body]
pub(crate) fn random_below(bound: u64) -> (r: u64)
    requires
        bound > 0,
    ensures
        r < bound,
{
    rand::thread_rng().gen_range(0..bound)
}

} // verus!
