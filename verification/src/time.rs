//! Durations as counts of nanoseconds.
//!
//! `core::time::Duration` is opaque to the verifier, so the library reads every
//! duration through its nanosecond count. `nanos_of` names what
//! `Duration::as_nanos` returns; every duration the library builds is tied to
//! that count by the constructor that built it.

use core::time::Duration;
use vstd::prelude::*;

verus! {

/// The total number of nanoseconds in a duration, as `Duration::as_nanos`
/// returns it.
pub uninterp spec fn nanos_of(d: Duration) -> u128;

/// Nanoseconds in `Duration::MAX`: `u64::MAX` whole seconds plus 999 999 999.
pub open spec fn max_duration_nanos() -> int {
    u64::MAX as int * 1_000_000_000 + 999_999_999
}

/// `a + b`, capped at `u64::MAX`.
pub open spec fn sat_add(a: int, b: int) -> int {
    if a + b > u64::MAX { u64::MAX as int } else { a + b }
}

/// `a - b`, floored at zero.
pub open spec fn sat_sub(a: int, b: int) -> int {
    if a - b < 0 { 0 } else { a - b }
}

/// `a * b`, capped at `u64::MAX`.
pub open spec fn sat_mul(a: int, b: int) -> int {
    if a * b > u64::MAX { u64::MAX as int } else { a * b }
}

/// A nanosecond count clamped to what a `u64` holds.
pub open spec fn clamp_u64(x: int) -> int {
    if x > u64::MAX { u64::MAX as int } else { x }
}

/// `Duration::as_nanos`: the whole duration in nanoseconds.
#[verifier::external_body]
pub(crate) fn duration_as_nanos(d: Duration) -> (r: u128)
    ensures
        r == nanos_of(d),
{
    d.as_nanos()
}

/// `Duration::from_nanos`: a duration of exactly `ns` nanoseconds.
#[verifier::external_body]
pub(crate) fn duration_from_nanos(ns: u64) -> (d: Duration)
    ensures
        nanos_of(d) == ns,
{
    Duration::from_nanos(ns)
}

/// `Duration::from_secs`: a duration of exactly `secs` seconds.
#[verifier::external_body]
pub(crate) fn duration_from_secs(secs: u64) -> (d: Duration)
    ensures
        nanos_of(d) == secs as int * 1_000_000_000,
{
    Duration::from_secs(secs)
}

/// `Duration::MAX`: `u64::MAX` seconds and 999 999 999 nanoseconds.
#[verifier::external_body]
pub(crate) fn duration_max() -> (d: Duration)
    ensures
        nanos_of(d) as int == max_duration_nanos(),
{
    Duration::MAX
}

/// A duration as nanoseconds, saturating at `u64::MAX` (about 584 years).
pub(crate) fn nanos_u64(d: Duration) -> (r: u64)
    ensures
        r == clamp_u64(nanos_of(d) as int),
{
    let ns: u128 = duration_as_nanos(d);
    if ns > u64::MAX as u128 {
        u64::MAX
    } else {
        ns as u64
    }
}

/// A duration as whole milliseconds, saturating at `u64::MAX`.
pub(crate) fn millis_u64(d: Duration) -> (r: u64)
    ensures
        r == clamp_u64(nanos_of(d) as int / 1_000_000),
{
    let ns: u128 = duration_as_nanos(d);
    let ms: u128 = ns / 1_000_000;
    if ms > u64::MAX as u128 {
        u64::MAX
    } else {
        ms as u64
    }
}

/// `a * b`, saturating at `u64::MAX`.
pub(crate) fn mul_sat(a: u64, b: u64) -> (r: u64)
    ensures
        r == sat_mul(a as int, b as int),
{
    proof {
        vstd::arithmetic::mul::lemma_mul_upper_bound(a as int, u64::MAX as int, b as int, u64::MAX as int);
    }
    let wide: u128 = (a as u128) * (b as u128);
    if wide > u64::MAX as u128 {
        u64::MAX
    } else {
        wide as u64
    }
}

/// `a + b`, saturating at `u64::MAX`.
pub(crate) fn add_sat(a: u64, b: u64) -> (r: u64)
    ensures
        r == sat_add(a as int, b as int),
{
    if a > u64::MAX - b {
        u64::MAX
    } else {
        a + b
    }
}

/// `a - b`, saturating at zero.
pub(crate) fn sub_sat(a: u64, b: u64) -> (r: u64)
    ensures
        r == sat_sub(a as int, b as int),
{
    if a < b {
        0
    } else {
        a - b
    }
}

} // verus!
