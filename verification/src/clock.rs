//! The clock that timeouts are measured with. A moment is the number of
//! nanoseconds since the clock was started.
use std::time::Instant;
use vstd::prelude::*;

verus! {

/// `std::time::Instant`.
#[verifier::external_type_specification]
#[verifier::external_body]
pub struct ExInstant(std::time::Instant);

/// Calls `Instant::now`. Nothing is known of the moment.
#[verifier::external_body]
fn instant_now() -> Instant {
    Instant::now()
}

/// Calls `Instant::elapsed`, in nanoseconds. Nothing is known of how much
/// time has passed.
#[verifier::external_body]
fn nanos_since(start: &Instant) -> u128 {
    start.elapsed().as_nanos()
}

/// A running clock
pub struct Clock {
    start: Instant,
}

impl Clock {
    /// Start a clock
    pub fn start() -> Self {
        Clock { start: instant_now() }
    }

    /// Nanoseconds since the clock was started
    pub fn now(&self) -> u128 {
        nanos_since(&self.start)
    }
}

} // verus!
