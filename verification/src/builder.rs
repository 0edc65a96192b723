//! A fluent builder for a limiter.

use core::time::Duration;
use clock_lib::SystemClock;
use vstd::prelude::*;

use crate::algorithm::Algorithm;
use crate::clock::{system_clock, TimeSource};
use crate::eviction::{Eviction, EvictionView};
use crate::limiter::{RateLimiter, RateLimiterView, DEFAULT_SHARDS};
use crate::quota::{Quota, QuotaView};
use crate::time::{duration_from_secs, nanos_of};

verus! {

/// What a builder has been told so far.
pub struct BuilderView {
    /// The algorithm.
    pub algorithm: Algorithm,
    /// Requests per period.
    pub limit: u32,
    /// The period, in nanoseconds.
    pub period: u128,
    /// The burst ceiling, if set; otherwise the limit.
    pub burst: Option<u32>,
    /// The shard count, if set; otherwise the default.
    pub shards: Option<usize>,
    /// The eviction policy.
    pub eviction: EvictionView,
}

/// What a fresh builder holds: the token bucket, a limit of zero per second,
/// no burst or shard count set, and the default eviction policy.
pub open spec fn builder_defaults() -> BuilderView {
    BuilderView {
        algorithm: Algorithm::TokenBucket,
        limit: 0,
        period: 1_000_000_000,
        burst: None,
        shards: None,
        eviction: Eviction::default_view(),
    }
}

/// A fluent builder for a [`RateLimiter`].
///
/// Start it with [`RateLimiter::builder`], set what matters (algorithm, quota,
/// burst, shard count, eviction policy, clock) and call [`build`](Self::build).
/// Anything left unset keeps its default: the token bucket, the default shard
/// count and the default eviction policy. The quota defaults to a limit of
/// zero per second, which denies everything, so set it.
#[must_use]
pub struct Builder<C: TimeSource = SystemClock> {
    algorithm: Algorithm,
    limit: u32,
    period: Duration,
    burst: Option<u32>,
    shards: Option<usize>,
    eviction: Eviction,
    clock: C,
}

impl<C: TimeSource> View for Builder<C> {
    type V = BuilderView;

    closed spec fn view(&self) -> BuilderView {
        BuilderView {
            algorithm: self.algorithm,
            limit: self.limit,
            period: nanos_of(self.period),
            burst: self.burst,
            shards: self.shards,
            eviction: self.eviction@,
        }
    }
}

impl Builder<SystemClock> {
    /// A builder with the default settings, driven by the operating system's
    /// monotonic clock.
    pub(crate) fn new() -> (b: Self)
        ensures
            b@ == builder_defaults(),
    {
        Builder {
            algorithm: Algorithm::TokenBucket,
            limit: 0,
            period: duration_from_secs(1),
            burst: None,
            shards: None,
            eviction: Eviction::default(),
            clock: system_clock(),
        }
    }
}

impl<C: TimeSource> Builder<C> {
    /// The time source the limiter will be driven by.
    pub closed spec fn clock_of(&self) -> C {
        self.clock
    }

    /// Selects the algorithm.
    pub fn algorithm(self, algorithm: Algorithm) -> (b: Self)
        ensures
            b@ == (BuilderView { algorithm, ..self@ }),
            b.clock_of() == self.clock_of(),
    {
        Builder { algorithm, ..self }
    }

    /// Sets the quota: `limit` requests per `period`, per key.
    pub fn quota(self, limit: u32, period: Duration) -> (b: Self)
        ensures
            b@ == (BuilderView { limit, period: nanos_of(period), ..self@ }),
            b.clock_of() == self.clock_of(),
    {
        Builder { limit, period, ..self }
    }

    /// Sets the quota to `limit` requests per second.
    pub fn per_second(self, limit: u32) -> (b: Self)
        ensures
            b@ == (BuilderView { limit, period: 1_000_000_000, ..self@ }),
            b.clock_of() == self.clock_of(),
    {
        self.quota(limit, duration_from_secs(1))
    }

    /// Sets the quota to `limit` requests per minute.
    pub fn per_minute(self, limit: u32) -> (b: Self)
        ensures
            b@ == (BuilderView { limit, period: 60_000_000_000, ..self@ }),
            b.clock_of() == self.clock_of(),
    {
        self.quota(limit, duration_from_secs(60))
    }

    /// Sets the burst ceiling. Without it the burst is the limit. It applies
    /// to the token and leaky buckets; the window algorithms ignore it.
    pub fn burst(self, burst: u32) -> (b: Self)
        ensures
            b@ == (BuilderView { burst: Some(burst), ..self@ }),
            b.clock_of() == self.clock_of(),
    {
        Builder { burst: Some(burst), ..self }
    }

    /// Sets the shard count (the store rounds it up to a power of two).
    pub fn shards(self, shards: usize) -> (b: Self)
        ensures
            b@ == (BuilderView { shards: Some(shards), ..self@ }),
            b.clock_of() == self.clock_of(),
    {
        Builder { shards: Some(shards), ..self }
    }

    /// Sets the eviction policy.
    pub fn eviction(self, eviction: Eviction) -> (b: Self)
        ensures
            b@ == (BuilderView { eviction: eviction@, ..self@ }),
            b.clock_of() == self.clock_of(),
    {
        Builder { eviction, ..self }
    }

    /// Sets the time source.
    pub fn clock<C2: TimeSource>(self, clock: C2) -> (b: Builder<C2>)
        ensures
            b@ == self@,
            b.clock_of() == clock,
    {
        Builder {
            algorithm: self.algorithm,
            limit: self.limit,
            period: self.period,
            burst: self.burst,
            shards: self.shards,
            eviction: self.eviction,
            clock,
        }
    }

    /// Builds the configured limiter: the quota's burst is the one set, or the
    /// limit; the shard count is the one set, or the default. A zero limit
    /// gives a limiter that denies everything, not an error.
    #[must_use]
    pub fn build(self) -> (r: RateLimiter<C>)
        requires
            self@.shards matches Some(s) ==> s <= usize::MAX / 2 + 1,
        ensures
            r.wf(),
            r.is_empty(),
            r@ == (RateLimiterView {
                algorithm: self@.algorithm,
                quota: QuotaView {
                    limit: self@.limit,
                    period: self@.period,
                    burst: match self@.burst {
                        Some(b) => b,
                        None => self@.limit,
                    },
                },
                eviction: self@.eviction,
                shards: match self@.shards {
                    Some(s) => s,
                    None => DEFAULT_SHARDS,
                },
            }),
            r.time_source().0 == self.clock_of(),
    {
        let burst: u32 = match self.burst {
            Some(b) => b,
            None => self.limit,
        };
        let quota: Quota = Quota::from_parts(self.limit, self.period, burst);
        let shards: usize = match self.shards {
            Some(s) => s,
            None => DEFAULT_SHARDS,
        };
        RateLimiter::build(self.algorithm, quota, self.clock, shards, self.eviction)
    }
}

} // verus!
