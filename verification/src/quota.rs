//! How much a key may do, and how fast it recovers.

use core::time::Duration;
use vstd::prelude::*;

use crate::error::RateLimiterError;
use crate::time::{duration_as_nanos, duration_from_secs, nanos_of};

verus! {

/// A quota as mathematics: `limit` units per `period` nanoseconds, with a
/// `burst` ceiling.
pub struct QuotaView {
    /// Units admitted per period.
    pub limit: u32,
    /// The period, in nanoseconds.
    pub period: u128,
    /// The most a key may spend at once (token and leaky buckets).
    pub burst: u32,
}

/// A rate limit: `limit` requests per `period`, per key, with a `burst`
/// ceiling that defaults to `limit`.
///
/// The window algorithms admit at most `limit` per `period` and ignore
/// `burst`; it applies to the token and leaky buckets.
#[derive(Debug, Clone, Copy, PartialEq, Eq)]
pub struct Quota {
    limit: u32,
    period: Duration,
    burst: u32,
}

impl View for Quota {
    type V = QuotaView;

    closed spec fn view(&self) -> QuotaView {
        QuotaView { limit: self.limit, period: nanos_of(self.period), burst: self.burst }
    }
}

impl Quota {
    /// A quota of `limit` requests per second. A `limit` of `0` admits
    /// nothing.
    #[must_use]
    pub fn per_second(limit: u32) -> (q: Self)
        ensures
            q@.limit == limit,
            q@.period == 1_000_000_000,
            q@.burst == limit,
    {
        Quota { limit, period: duration_from_secs(1), burst: limit }
    }

    /// A quota of `limit` requests per minute. A `limit` of `0` admits
    /// nothing.
    #[must_use]
    pub fn per_minute(limit: u32) -> (q: Self)
        ensures
            q@.limit == limit,
            q@.period == 60_000_000_000,
            q@.burst == limit,
    {
        Quota { limit, period: duration_from_secs(60), burst: limit }
    }

    /// A quota of `limit` requests per arbitrary `period`, validated: a zero
    /// limit and a zero period are rejected, the limit first.
    pub fn rate(limit: u32, period: Duration) -> (r: Result<Self, RateLimiterError>)
        ensures
            limit == 0 ==> r == Err::<Self, RateLimiterError>(RateLimiterError::ZeroQuota),
            limit != 0 && nanos_of(period) == 0 ==> r == Err::<Self, RateLimiterError>(
                RateLimiterError::ZeroPeriod,
            ),
            limit != 0 && nanos_of(period) != 0 ==> (r matches Ok(q) && q@ == (QuotaView {
                limit,
                period: nanos_of(period),
                burst: limit,
            }) && q.period_spec() == period),
    {
        if limit == 0 {
            return Err(RateLimiterError::ZeroQuota);
        }
        if duration_as_nanos(period) == 0 {
            return Err(RateLimiterError::ZeroPeriod);
        }
        Ok(Quota { limit, period, burst: limit })
    }

    /// The period exactly as it was given.
    pub closed spec fn period_spec(&self) -> Duration {
        self.period
    }

    /// The number of requests admitted per period.
    #[must_use]
    pub fn limit(&self) -> (r: u32)
        ensures
            r == self@.limit,
    {
        self.limit
    }

    /// The window over which `limit` requests accrue.
    #[must_use]
    pub fn period(&self) -> (r: Duration)
        ensures
            r == self.period_spec(),
            nanos_of(r) == self@.period,
    {
        self.period
    }

    /// The burst ceiling: the most a key may spend at once. Defaults to the
    /// limit.
    #[must_use]
    pub fn burst(&self) -> (r: u32)
        ensures
            r == self@.burst,
    {
        self.burst
    }

    /// Returns a copy with the burst ceiling set to `burst`; the limit and the
    /// period are unchanged.
    #[must_use]
    pub fn with_burst(self, burst: u32) -> (q: Self)
        ensures
            q@ == (QuotaView { burst, ..self@ }),
            q.period_spec() == self.period_spec(),
    {
        Quota { burst, ..self }
    }

    /// Assembles a quota from raw parts without validation, for the infallible
    /// builder path. A zero limit admits nothing; a zero period yields a
    /// degenerate limit.
    pub(crate) fn from_parts(limit: u32, period: Duration, burst: u32) -> (q: Self)
        ensures
            q@ == (QuotaView { limit, period: nanos_of(period), burst }),
            q.period_spec() == period,
    {
        Quota { limit, period, burst }
    }
}

} // verus!
