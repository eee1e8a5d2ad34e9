//! What the library assumes of the standard library's monotonic clock.

use std::time::Instant;
use vstd::prelude::*;

verus! {

/// `std::time::Instant`: a reading of the monotonic clock, carried through as
/// it is.
#[verifier::external_type_specification]
#[verifier::external_body]
pub struct ExInstant(Instant);

/// `Instant::now` reads the clock: nothing is promised of the instant.
pub assume_specification[ Instant::now ]() -> (now: Instant)
;

/// `Instant::elapsed` is the time that has passed since the instant, by the
/// clock of this moment, handed on in whole nanoseconds. It depends on the
/// moment of the call: nothing is promised of the number.
#[verifier::external_body]
pub(crate) fn elapsed_nanos(since: &Instant) -> (nanos: u128) {
    since.elapsed().as_nanos()
}

} // verus!
