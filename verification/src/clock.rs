//! Where a limiter reads the time.
//!
//! Time comes from `clock-lib`: the operating system's monotonic clock in
//! production, or a shared `ManualClock` that a test advances by hand. A
//! reading depends on when it is taken, so nothing is stated of its value; the
//! limiter states what it does for whatever elapsed time it read.

use core::time::Duration;
use std::sync::Arc;
use clock_lib::{ManualClock, Monotonic, SystemClock};
use vstd::prelude::*;

use crate::time::nanos_of;

verus! {

/// `clock_lib::Monotonic`, a monotonic clock reading.
#[verifier::external_type_specification]
#[verifier::external_body]
pub struct ExMonotonic(Monotonic);

/// `clock_lib::SystemClock`, the operating system's monotonic clock.
#[verifier::external_type_specification]
#[verifier::external_body]
pub struct ExSystemClock(SystemClock);

/// `clock_lib::ManualClock`, a clock that only moves when told to.
#[verifier::external_type_specification]
#[verifier::external_body]
pub struct ExManualClock(ManualClock);

/// A time source a limiter can be driven by.
pub trait TimeSource {
    /// The current monotonic reading.
    fn read(&self) -> Monotonic;
}

impl TimeSource for SystemClock {
    fn read(&self) -> Monotonic {
        system_now(self)
    }
}

impl TimeSource for Arc<ManualClock> {
    fn read(&self) -> Monotonic {
        manual_now(self)
    }
}

/// `Clock::now` of the system clock: the operating system's monotonic
/// reading. It depends on when it is taken; nothing is stated of it.
#[verifier::external_body]
fn system_now(clock: &SystemClock) -> Monotonic {
    clock_lib::Clock::now(clock)
}

/// `ManualClock::now`: the clock's anchor plus how far it has been advanced.
/// It depends on the clock's shared state; nothing is stated of it.
#[verifier::external_body]
fn manual_now(clock: &ManualClock) -> Monotonic {
    clock.now()
}

/// `SystemClock::new()`.
#[verifier::external_body]
pub(crate) fn system_clock() -> SystemClock {
    SystemClock::new()
}

/// The nanoseconds `Monotonic::saturating_duration_since` gives from `earlier`
/// to `later`: a function of the two readings alone.
pub uninterp spec fn nanos_between(later: Monotonic, earlier: Monotonic) -> u128;

/// `Monotonic::saturating_duration_since`: the time from `earlier` to `later`,
/// zero if `earlier` is the later reading. Readings are opaque, so the
/// duration is stated through `nanos_between`, and as zero between a reading
/// and itself.
#[verifier::external_body]
pub(crate) fn elapsed_between(later: Monotonic, earlier: Monotonic) -> (r: Duration)
    ensures
        nanos_of(r) == nanos_between(later, earlier),
        later == earlier ==> nanos_of(r) == 0,
{
    later.saturating_duration_since(earlier)
}

} // verus!
