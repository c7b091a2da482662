//! Measuring how long work takes. Times are in nanoseconds; nothing is promised of them.

use std::time::{Duration, Instant};
use vstd::prelude::*;

verus! {

#[verifier::external_type_specification]
#[verifier::external_body]
pub struct ExInstant(std::time::Instant);

/// `Instant::now`: the present moment. Nothing is claimed of it.
#[verifier::external_body]
fn now() -> Instant {
    Instant::now()
}

/// `Instant::elapsed`: the time since `start`. Nothing is claimed of it.
#[verifier::external_body]
fn elapsed(start: &Instant) -> Duration {
    start.elapsed()
}

/// `Duration::as_nanos`: a duration in whole nanoseconds. Nothing is claimed of it.
#[verifier::external_body]
fn as_nanos(duration: Duration) -> u128 {
    duration.as_nanos()
}

/// A running clock.
pub struct Stopwatch {
    start: Instant,
}

impl Stopwatch {
    pub fn start() -> Self {
        Stopwatch { start: now() }
    }

    /// Nanoseconds since the start.
    pub fn nanos(&self) -> u128 {
        as_nanos(elapsed(&self.start))
    }
}

} // verus!
