//! The monotonic clock, read through `std::time::Instant`.
use std::time::{Duration, Instant};
use vstd::prelude::*;

verus! {

/// `std::time::Instant`, a reading of the clock. A task record keeps the
/// reading of its start; nothing is read from it but the time since.
#[verifier::external_type_specification]
#[verifier::external_body]
pub struct ExInstant(Instant);

/// The span of time that lasts `millis` milliseconds.
pub uninterp spec fn millis_span(millis: u64) -> Duration;

/// Trusted: `Instant::now` reads the clock. Nothing is stated of the value,
/// which differs from call to call.
#[verifier::external_body]
pub(crate) fn instant_now() -> Instant {
    Instant::now()
}

/// Trusted: `Instant::elapsed` measures the time since `start`. Nothing is
/// stated of the value, which depends on when the call is made.
#[verifier::external_body]
pub(crate) fn instant_elapsed(start: &Instant) -> Duration {
    start.elapsed()
}

/// Trusted: `Duration::from_millis` builds the span of `millis`
/// milliseconds.
#[verifier::external_body]
pub(crate) fn duration_from_millis(millis: u64) -> (d: Duration)
    ensures
        d == millis_span(millis),
{
    Duration::from_millis(millis)
}

} // verus!
