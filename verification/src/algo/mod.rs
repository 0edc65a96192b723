//! The per-key algorithms, and the state a key holds under each.
//!
//! Every algorithm is stated here as a step from state, units and elapsed
//! nanoseconds to the next state and the outcome; the token bucket's is
//! `better-bucket`'s accounting, stated over its model of one empty instant.

pub mod fixed_window;
pub mod leaky;
pub mod sliding_counter;
pub mod sliding_log;
pub mod token;
pub mod runs;

use core::time::Duration;
use vstd::prelude::*;

use crate::algorithm::Algorithm;
use crate::decision::{Decision, Outcome};
use crate::quota::{Quota, QuotaView};
use crate::time::{clamp_u64, max_duration_nanos, nanos_of, sat_mul};

use self::fixed_window::{fixed_window_initial, fixed_window_step, window_length, FixedWindow};
use self::leaky::{leaky_initial, leaky_step, LeakyBucket};
use self::sliding_counter::{roll, sliding_counter_initial, sliding_counter_step, SlidingCounter};
use self::sliding_log::{prune, sliding_log_initial, sliding_log_step, SlidingLog, SlidingLogView};
use self::token::{token_bucket_initial, token_bucket_live, token_step, TokenBucket};

verus! {

/// Per-key state for whichever algorithm the limiter runs.
pub enum AlgoState {
    /// A token bucket.
    TokenBucket(TokenBucket),
    /// A leaky bucket (GCRA).
    LeakyBucket(LeakyBucket),
    /// A fixed window counter.
    FixedWindow(FixedWindow),
    /// A sliding window log.
    SlidingLog(SlidingLog),
    /// A sliding window counter.
    SlidingCounter(SlidingCounter),
}

/// Whether a request of `n` units is more than `algorithm` can ever grant
/// under quota `q`: more than the burst for the buckets, more than the limit
/// for the windows. For the leaky bucket this is claimed only where the quota
/// allows at most its limit in a burst; with a larger burst and a long period
/// the tolerance saturates 64 bits and an oversized request can conform.
pub open spec fn oversized(algorithm: Algorithm, q: QuotaView, n: int) -> bool {
    match algorithm {
        Algorithm::TokenBucket => n > q.burst,
        Algorithm::LeakyBucket => n > q.burst && q.burst <= q.limit,
        _ => n > q.limit,
    }
}

impl AlgoState {
    /// Whether the state is well formed.
    pub open spec fn wf(&self) -> bool {
        match self {
            AlgoState::TokenBucket(b) => b.wf(),
            AlgoState::LeakyBucket(s) => s.wf(),
            AlgoState::FixedWindow(s) => s.wf(),
            AlgoState::SlidingLog(s) => s.wf(),
            AlgoState::SlidingCounter(s) => s.wf(),
        }
    }

    /// Whether this is the state a key starts in under `algorithm` and quota
    /// `q` at `now` nanoseconds.
    pub open spec fn fresh(&self, algorithm: Algorithm, q: QuotaView, now: int) -> bool {
        match algorithm {
            Algorithm::TokenBucket => self matches AlgoState::TokenBucket(b) && token_bucket_initial(*b, q, now),
            Algorithm::LeakyBucket => self matches AlgoState::LeakyBucket(s) && s@ == leaky_initial(q, now),
            Algorithm::FixedWindow => self matches AlgoState::FixedWindow(s) && s@ == fixed_window_initial(q, now),
            Algorithm::SlidingWindowLog => self matches AlgoState::SlidingLog(s) && s@ == sliding_log_initial(q),
            Algorithm::SlidingWindowCounter => self matches AlgoState::SlidingCounter(s) && s@
                == sliding_counter_initial(q, now),
        }
    }

    /// Whether the state was built for `algorithm` under quota `q`: it is of
    /// that algorithm and carries the quota's window, limit, interval and
    /// tolerance (or bucket capacity), which no request changes.
    pub open spec fn configured(&self, algorithm: Algorithm, q: QuotaView) -> bool {
        match algorithm {
            Algorithm::TokenBucket => self matches AlgoState::TokenBucket(b) && b.capacity() == if token_bucket_live(q) {
                q.burst as int
            } else {
                0
            },
            Algorithm::LeakyBucket => self matches AlgoState::LeakyBucket(s) && {
                let init = leaky_initial(q, 0);
                &&& s@.interval == init.interval
                &&& s@.tolerance == init.tolerance
                &&& s@.deny_all == init.deny_all
            },
            Algorithm::FixedWindow => self matches AlgoState::FixedWindow(s) && s@.period == window_length(q)
                && s@.limit == q.limit,
            Algorithm::SlidingWindowLog => self matches AlgoState::SlidingLog(s) && s@.period == window_length(q)
                && s@.limit == q.limit,
            Algorithm::SlidingWindowCounter => self matches AlgoState::SlidingCounter(s) && s@.period
                == window_length(q) && s@.limit == q.limit,
        }
    }

    /// Whether `next` and `out` are what a request of `n` units at `now`
    /// nanoseconds may give from this state: each algorithm's step, exactly,
    /// with the token bucket's as `better-bucket` accounts it.
    pub open spec fn step(&self, n: int, now: int, next: AlgoState, out: Outcome) -> bool {
        match self {
            AlgoState::TokenBucket(b) => next matches AlgoState::TokenBucket(b2) && token_step(*b, n, now, b2, out),
            AlgoState::LeakyBucket(s) => next matches AlgoState::LeakyBucket(s2) && (s2@, out)
                == leaky_step(s@, n, now),
            AlgoState::FixedWindow(s) => next matches AlgoState::FixedWindow(s2) && (s2@, out)
                == fixed_window_step(s@, n, now),
            AlgoState::SlidingLog(s) => next matches AlgoState::SlidingLog(s2) && (s2@, out)
                == sliding_log_step(s@, n, now),
            AlgoState::SlidingCounter(s) => next matches AlgoState::SlidingCounter(s2) && (s2@, out)
                == sliding_counter_step(s@, n, now),
        }
    }

    /// Fresh per-key state for `algorithm` under `quota`, anchored at the
    /// elapsed time `now`.
    pub fn new(algorithm: Algorithm, quota: &Quota, now: Duration) -> (r: Self)
        ensures
            r.wf(),
            r.fresh(algorithm, quota@, clamp_u64(nanos_of(now) as int)),
    {
        match algorithm {
            Algorithm::TokenBucket => AlgoState::TokenBucket(TokenBucket::new(quota, now)),
            Algorithm::LeakyBucket => AlgoState::LeakyBucket(LeakyBucket::new(quota, now)),
            Algorithm::FixedWindow => AlgoState::FixedWindow(FixedWindow::new(quota, now)),
            Algorithm::SlidingWindowLog => AlgoState::SlidingLog(SlidingLog::new(quota)),
            Algorithm::SlidingWindowCounter => AlgoState::SlidingCounter(SlidingCounter::new(quota, now)),
        }
    }

    /// Checks `n` units at elapsed time `now`.
    pub fn acquire(&mut self, n: u32, now: Duration) -> (d: Decision)
        requires
            old(self).wf(),
        ensures
            final(self).wf(),
            old(self).step(n as int, clamp_u64(nanos_of(now) as int), *final(self), d@),
    {
        match self {
            AlgoState::TokenBucket(b) => b.acquire(n, now),
            AlgoState::LeakyBucket(s) => s.acquire(n, now),
            AlgoState::FixedWindow(s) => s.acquire(n, now),
            AlgoState::SlidingLog(s) => s.acquire(n, now),
            AlgoState::SlidingCounter(s) => s.acquire(n, now),
        }
    }
}


/// A fresh state is configured for the algorithm and quota it was built for.
pub proof fn lemma_fresh_is_configured(s: AlgoState, algorithm: Algorithm, q: QuotaView, now: int)
    requires
        s.fresh(algorithm, q, now),
    ensures
        s.configured(algorithm, q),
{
}

/// No request changes what a state was configured with.
pub proof fn lemma_step_keeps_configured(
    s: AlgoState,
    algorithm: Algorithm,
    q: QuotaView,
    n: int,
    now: int,
    next: AlgoState,
    out: Outcome,
)
    requires
        s.configured(algorithm, q),
        s.step(n, now, next, out),
    ensures
        next.configured(algorithm, q),
{
}

/// Zero units are always admitted, whatever the algorithm and state, and take
/// nothing: the state is left as it was.
pub proof fn lemma_zero_units_admitted(s: AlgoState, now: int, next: AlgoState, out: Outcome)
    requires
        s.step(0, now, next, out),
    ensures
        out is Allow,
        match (s, next) {
            (AlgoState::TokenBucket(b), AlgoState::TokenBucket(b2)) => b.live() ==> b2.config() == b.config()
                && b2.empty_at() == b.empty_at(),
            (AlgoState::LeakyBucket(a), AlgoState::LeakyBucket(a2)) => a2@ == a@,
            (AlgoState::FixedWindow(a), AlgoState::FixedWindow(a2)) => a2@ == a@,
            (AlgoState::SlidingLog(a), AlgoState::SlidingLog(a2)) => a2@ == a@,
            (AlgoState::SlidingCounter(a), AlgoState::SlidingCounter(a2)) => a2@ == a@,
            _ => false,
        },
{
}

/// A request larger than the algorithm can ever grant is refused, and the
/// refusal's wait is `Duration::MAX`: no amount of waiting would help.
pub proof fn lemma_oversized_never_admitted(
    s: AlgoState,
    algorithm: Algorithm,
    q: QuotaView,
    n: int,
    now: int,
    next: AlgoState,
    out: Outcome,
)
    requires
        s.configured(algorithm, q),
        s.step(n, now, next, out),
        oversized(algorithm, q, n),
    ensures
        out == Outcome::Deny(max_duration_nanos()),
{
    if algorithm == Algorithm::LeakyBucket {
        let init = leaky_initial(q, 0);
        if !init.deny_all {
            let l = q.limit as int;
            let b = q.burst as int;
            let p = clamp_u64(q.period as int);
            let e = p / l;
            let i = init.interval;
            assert(l * e <= p) by (nonlinear_arith)
                requires
                    e == p / l,
                    0 <= p,
                    l >= 1,
            ;
            assert(e >= 0) by (nonlinear_arith)
                requires
                    e == p / l,
                    0 <= p,
                    l >= 1,
            ;
            assert((b - 1) * i < u64::MAX) by {
                if e >= 1 {
                    assert((b - 1) * e < u64::MAX) by (nonlinear_arith)
                        requires
                            l * e <= p,
                            e >= 1,
                            1 <= b <= l,
                            p <= u64::MAX,
                    ;
                } else {
                    assert(i == 1);
                }
            }
            assert((n - 1) * i > (b - 1) * i) by (nonlinear_arith)
                requires
                    n - 1 >= b,
                    i >= 1,
            ;
            assert(sat_mul(n - 1, i) > sat_mul(b - 1, i));
        }
    }
}

/// A quota with a zero limit admits nothing: every request of one or more
/// units is refused, and the refusal's wait is `Duration::MAX`.
pub proof fn lemma_zero_limit_denies_everything(
    s: AlgoState,
    algorithm: Algorithm,
    q: QuotaView,
    n: int,
    now: int,
    next: AlgoState,
    out: Outcome,
)
    requires
        s.configured(algorithm, q),
        s.step(n, now, next, out),
        q.limit == 0,
        n >= 1,
    ensures
        out == Outcome::Deny(max_duration_nanos()),
{
}

/// All or nothing: a refused request counts none of its units. The state it
/// leaves differs from the one before only by what the passing of time does:
/// a bucket keeps its empty instant or arrival time, a fixed window its count,
/// a sliding log drops only its aged-out entries, and a sliding counter only
/// rolls its windows forward.
pub proof fn lemma_refusal_counts_nothing(s: AlgoState, n: int, now: int, next: AlgoState, out: Outcome)
    requires
        s.step(n, now, next, out),
        0 <= n,
        out is Deny,
    ensures
        match (s, next) {
            (AlgoState::TokenBucket(b), AlgoState::TokenBucket(b2)) => b.live() ==> b2.config() == b.config()
                && b2.empty_at() == b.empty_at(),
            (AlgoState::LeakyBucket(a), AlgoState::LeakyBucket(a2)) => a2@ == a@,
            (AlgoState::FixedWindow(a), AlgoState::FixedWindow(a2)) => a2@ == a@,
            (AlgoState::SlidingLog(a), AlgoState::SlidingLog(a2)) => a2@ == a@ || a2@ == SlidingLogView {
                log: prune(a@.log, a@.period, now),
                ..a@
            },
            (AlgoState::SlidingCounter(a), AlgoState::SlidingCounter(a2)) => a2@ == a@ || a2@ == roll(a@, now),
            _ => false,
        },
{
}

} // verus!
