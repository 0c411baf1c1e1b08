//! The monotonic clock, read through `std::time::Instant`.

use std::time::{Duration, Instant};

use vstd::prelude::*;

verus! {

/// `std::time::Instant`, carried through as an opaque value.
#[verifier::external_type_specification]
#[verifier::external_body]
pub struct ExInstant(Instant);

/// `Instant::now`.
#[verifier::external_body]
pub(crate) fn instant_now() -> Instant {
    Instant::now()
}

/// `Instant::elapsed`: the time since `epoch` on the monotonic clock.
/// Nothing is stated of it: it depends on the clock.
#[verifier::external_body]
fn instant_elapsed(epoch: &Instant) -> Duration {
    epoch.elapsed()
}

/// `Duration::as_millis`. `Duration` has no model here, so nothing is stated
/// of the result.
#[verifier::external_body]
pub(crate) fn duration_millis(d: Duration) -> u128 {
    d.as_millis()
}

/// `Duration::as_nanos`. `Duration` has no model here, so nothing is stated
/// of the result.
#[verifier::external_body]
pub(crate) fn duration_nanos(d: Duration) -> u128 {
    d.as_nanos()
}

/// The nanoseconds since `epoch` on the monotonic clock.
pub(crate) fn clock_nanos(epoch: &Instant) -> u128 {
    duration_nanos(instant_elapsed(epoch))
}

/// The whole milliseconds since `epoch` on the monotonic clock.
pub(crate) fn clock_millis(epoch: &Instant) -> u128 {
    duration_millis(instant_elapsed(epoch))
}

} // verus!
