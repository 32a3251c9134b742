//! Reading the clock.

use std::time::{Duration, Instant};
use vstd::prelude::*;

verus! {

/// A point in time. Nothing is known of what it holds.
#[verifier::external_type_specification]
#[verifier::external_body]
pub struct ExInstant(std::time::Instant);

/// The present moment, from `Instant::now`.
#[verifier::external_body]
pub(crate) fn now() -> Instant {
    Instant::now()
}

/// The time that has passed since `start`, from `Instant::elapsed`.
#[verifier::external_body]
pub(crate) fn elapsed(start: &Instant) -> Duration {
    start.elapsed()
}

/// The span of `ms` milliseconds, from `Duration::from_millis`.
#[verifier::external_body]
pub(crate) fn milliseconds(ms: u64) -> Duration {
    Duration::from_millis(ms)
}

/// The span of `secs` seconds, from `Duration::from_secs`.
#[verifier::external_body]
pub(crate) fn seconds(secs: u64) -> Duration {
    Duration::from_secs(secs)
}

/// The span `span` in whole nanoseconds, from `Duration::as_nanos`.
#[verifier::external_body]
pub(crate) fn nanoseconds(span: &Duration) -> u128 {
    span.as_nanos()
}

/// Whether the span `a` is shorter than the span `b`, by the order of
/// `Duration`.
#[verifier::external_body]
pub(crate) fn is_shorter(a: &Duration, b: &Duration) -> bool {
    a < b
}

} // verus!
