//! The monotonic clock: `std::time::Instant` carried through the library,
//! and the two readings the logic takes from it.

use std::time::Instant;
use vstd::prelude::*;

verus! {

/// `std::time::Instant`, a reading of the monotonic clock. Opaque: the
/// library only carries it and hands it back to the two functions below.
#[verifier::external_type_specification]
#[verifier::external_body]
pub struct ExInstant(Instant);

/// The current reading of the monotonic clock, from `Instant::now`. Nothing
/// is stated of it: it depends on the time of the call.
#[verifier::external_body]
pub(crate) fn now() -> Instant {
    Instant::now()
}

/// Nanoseconds from `start` to `later`, from `Instant::duration_since`
/// (zero when `later` is earlier) read with `Duration::as_nanos`: no time
/// passes from an instant to itself; beyond that nothing is stated, as it
/// depends on the readings, which depend on time.
#[verifier::external_body]
pub(crate) fn nanos_between(start: &Instant, later: &Instant) -> (res: u128)
    ensures
        *start == *later ==> res == 0,
{
    later.duration_since(*start).as_nanos()
}

} // verus!
