//! The clock that durations are measured with.
use std::time::Instant;
use vstd::prelude::*;

verus! {

/// A moment of the clock.
#[verifier::external_type_specification]
#[verifier::external_body]
pub struct ExInstant(Instant);

/// `std::time::Instant::now`: the present moment. Nothing is promised of it.
#[verifier::external_body]
pub(crate) fn now() -> (moment: Instant) {
    Instant::now()
}

/// `std::time::Instant::elapsed`: how long ago a moment was, in nanoseconds. Nothing is
/// promised of it.
#[verifier::external_body]
pub(crate) fn nanoseconds_since(moment: Instant) -> (ns: u64) {
    moment.elapsed().as_nanos() as u64
}

} // verus!
