//! The monotonic clock, read when a note is shown.

use std::time::Instant;
use vstd::prelude::*;

verus! {

/// `std::time::Instant`, carried through unread.
#[verifier::external_type_specification]
#[verifier::external_body]
pub struct ExInstant(Instant);

/// Reads the monotonic clock with `std::time::Instant::now`. The reading
/// depends on the time of the call, so nothing is claimed of it.
#[verifier::external_body]
pub(crate) fn now() -> Instant {
    Instant::now()
}

} // verus!
