//! Token bucket, with the accounting delegated to `better-bucket`.
//!
//! A key's bucket holds up to `burst` tokens, starts full, and accrues `limit`
//! tokens per `period`. The bucket's state lives inside `better-bucket`'s
//! `BucketCore`, driven by the elapsed time the limiter hands it.
//!
//! `better-bucket` keeps a bucket as one instant, `z`: the moment it would
//! have been empty, measured in units of accrued refill. At clock reading
//! `now` (`units(now)` units) it holds `units(now) - z` units, at most a full
//! bucket (`cost(capacity)` units). Granting `n` tokens sets
//! `z = max(z, units(now) - cost(capacity)) + cost(n)`, and is allowed only if
//! that is not after `units(now)`; a refusal leaves `z` as it was. The contracts
//! below speak of that model: `units` and `cost` are functions of the
//! bucket's configuration, `z` is the bucket's one piece of state.

use core::time::Duration;
use better_bucket::{BucketConfig, BucketCore, BucketError};
use vstd::prelude::*;

use crate::decision::{Decision, Outcome};
use crate::quota::{Quota, QuotaView};
use crate::algo::fixed_window::times_from;
use crate::time::{clamp_u64, duration_as_nanos, duration_max, max_duration_nanos, nanos_of};

verus! {

/// `better_bucket::BucketConfig`, a validated bucket configuration.
#[verifier::external_type_specification]
#[verifier::external_body]
pub struct ExBucketConfig(BucketConfig);

/// `better_bucket::BucketError`, why a configuration was rejected.
#[verifier::external_type_specification]
#[verifier::external_body]
pub struct ExBucketError(BucketError);

/// `better_bucket::BucketCore`, a token bucket that takes the time from its
/// caller.
#[verifier::external_type_specification]
#[verifier::external_body]
pub struct ExBucketCore(BucketCore);

/// The capacity a configuration holds, as `BucketConfig::capacity` returns it.
pub uninterp spec fn config_capacity(c: BucketConfig) -> u32;

/// The tokens added per period, as `BucketConfig::refill_amount` returns it.
pub uninterp spec fn config_refill_amount(c: BucketConfig) -> u32;

/// The refill period, as `BucketConfig::refill_period` returns it.
pub uninterp spec fn config_refill_period(c: BucketConfig) -> Duration;

/// The tokens a bucket starts with, as `BucketConfig::initial` returns it.
pub uninterp spec fn config_initial(c: BucketConfig) -> u32;

/// The configuration a bucket was built from, as `BucketCore::config`
/// returns it.
pub uninterp spec fn core_config(b: BucketCore) -> BucketConfig;

/// The bucket's empty instant `z`, in units.
pub uninterp spec fn core_empty_at(b: BucketCore) -> u64;

/// The clock reading of `now_ns` nanoseconds in units of accrued refill, for
/// a bucket of configuration `c`.
pub uninterp spec fn bucket_units(c: BucketConfig, now_ns: u64) -> u64;

/// What `n` tokens cost, in units, for a bucket of configuration `c`. Only
/// amounts up to the capacity are ever charged; beyond it the cost is a shift
/// that may lose bits, and nothing is said of it.
pub uninterp spec fn bucket_cost(c: BucketConfig, n: u32) -> u64;

/// `BucketConfig::new(capacity, refill_amount, refill_period, initial)`.
///
/// It is `Ok` exactly when the capacity, the refill amount and the refill
/// period are all non-zero, and the configuration then holds the values it
/// was given, the initial tokens clamped to the capacity. Which error comes
/// back otherwise is left unsaid; the library only builds configurations that
/// are accepted.
#[verifier::external_body]
fn config_new(capacity: u32, refill_amount: u32, refill_period: Duration, initial: u32) -> (r: Result<BucketConfig, BucketError>)
    ensures
        r is Ok <==> (capacity > 0 && refill_amount > 0 && nanos_of(refill_period) > 0),
        r matches Ok(c) ==> config_capacity(c) == capacity,
        r matches Ok(c) ==> config_refill_amount(c) == refill_amount,
        r matches Ok(c) ==> config_refill_period(c) == refill_period,
        r matches Ok(c) ==> config_initial(c) == if initial < capacity { initial } else { capacity },
{
    BucketConfig::new(capacity, refill_amount, refill_period, initial)
}

/// `BucketCore::new(config, now)`: a bucket built from `config` holding its
/// initial tokens as of `now`, so its empty instant lies the cost of those
/// tokens before `now` in units.
///
/// With it come the facts of the unit model that hold for every
/// configuration: no tokens cost nothing, one token costs at least one unit,
/// and more tokens never cost less; a full bucket costs under 2^61 units;
/// readings count from an origin of 2^62 units and never run backwards as the
/// clock moves forward. Where a unit is at most one token (a refill of at most
/// 4.3 tokens per nanosecond, which every `u32` amount per second is), token
/// amounts up to the capacity cost exactly their number of single tokens; and
/// where besides the refill period fits 64 bits of nanoseconds, the reading
/// at `t` nanoseconds is the exact refill accrued by then, `t * amount *
/// cost(1) / period` units past the origin, rounded up by less than one unit
/// (the clock runs a hair fast, never slow) unless it has stopped at
/// `u64::MAX`.
#[verifier::external_body]
fn core_new(config: BucketConfig, now: Duration) -> (r: BucketCore)
    ensures
        core_config(r) == config,
        core_empty_at(r) == bucket_units(config, clamp_u64(nanos_of(now) as int) as u64) - bucket_cost(
            config,
            config_initial(config),
        ),
        unit_model(core_config(r)),
{
    BucketCore::new(config, now)
}

/// `BucketCore::acquire_at(n, now)`, with its `Allowed` / `Denied` outcome
/// carried over one for one.
///
/// Zero tokens are always granted and more than the capacity never are (the
/// wait is `Duration::MAX`); neither touches the bucket. Otherwise, with `u`
/// the clock reading of `now` in units, the grant is allowed exactly when
/// `max(z, u - cost(capacity)) + cost(n)` is not after `u`, and `z` then
/// becomes that; a refusal leaves `z` as it was. A refusal's wait, unless it
/// is `Duration::MAX`, is the least whole number of milliseconds (at least
/// one) after which the clock reading, in units, has reached
/// `max(z, u - cost(capacity)) + cost(n)`.
#[verifier::external_body]
fn core_acquire_at(bucket: &mut BucketCore, n: u32, now: Duration) -> (d: Decision)
    ensures
        core_config(*final(bucket)) == core_config(*old(bucket)),
        n == 0 ==> d is Allow && core_empty_at(*final(bucket)) == core_empty_at(*old(bucket)),
        n > config_capacity(core_config(*old(bucket))) ==> d@ == Outcome::Deny(max_duration_nanos())
            && core_empty_at(*final(bucket)) == core_empty_at(*old(bucket)),
        1 <= n <= config_capacity(core_config(*old(bucket))) ==> {
            let c = core_config(*old(bucket));
            let next = grant_end(
                core_empty_at(*old(bucket)) as int,
                bucket_units(c, clamp_u64(nanos_of(now) as int) as u64) as int,
                bucket_cost(c, config_capacity(c)) as int,
                bucket_cost(c, n) as int,
            );
            &&& (d is Allow <==> next <= bucket_units(c, clamp_u64(nanos_of(now) as int) as u64))
            &&& d is Allow ==> core_empty_at(*final(bucket)) == next
            &&& !(d is Allow) ==> core_empty_at(*final(bucket)) == core_empty_at(*old(bucket))
            &&& (d is Deny && (nanos_of(d->retry_after) as int) < max_duration_nanos()) ==> {
                &&& next <= bucket_units(c, clamp_u64(nanos_of(now) + nanos_of(d->retry_after)) as u64)
                &&& nanos_of(d->retry_after) % 1_000_000 == 0
                &&& nanos_of(d->retry_after) >= 1_000_000
                &&& bucket_units(c, clamp_u64(nanos_of(now) + nanos_of(d->retry_after) - 1_000_000) as u64) < next
            }
        },
{
    match bucket.acquire_at(n, now) {
        better_bucket::Decision::Allowed => Decision::Allow,
        better_bucket::Decision::Denied { retry_after } => Decision::Deny { retry_after },
        _ => Decision::Deny { retry_after: Duration::MAX },
    }
}

/// Where a grant of `cost` units moves the empty instant `z` to at reading
/// `u`: a bucket is never fuller than full (`burst` units), so `z` is first
/// brought up to `u - burst`.
pub open spec fn grant_end(z: int, u: int, burst: int, cost: int) -> int {
    (if z > u - burst { z } else { u - burst }) + cost
}

/// Whether a unit of configuration `c` is at most one token: its refill is at
/// most 4.3 tokens per nanosecond.
pub open spec fn whole_token_units(c: BucketConfig) -> bool {
    10 * config_refill_amount(c) <= 43 * nanos_of(config_refill_period(c))
}

/// The origin of a bucket's readings, in units: the reading at time zero.
pub open spec fn reading_origin() -> int {
    0x4000_0000_0000_0000
}

/// Whether a bucket's clock of configuration `c` is tied to its refill: its
/// unit is at most a token and its refill period fits 64 bits of nanoseconds.
pub open spec fn exact_refill(c: BucketConfig) -> bool {
    whole_token_units(c) && nanos_of(config_refill_period(c)) <= u64::MAX
}

/// The reading at `t` nanoseconds is the refill accrued by then, `t * amount *
/// cost(1) / period` units past the origin, at most under one unit more, and
/// not less unless the reading has stopped at `u64::MAX`. Scaled by the period
/// so it is exact.
pub open spec fn reading_tracks_refill(c: BucketConfig, t: u64) -> bool {
    let p = nanos_of(config_refill_period(c));
    let accrued = t * config_refill_amount(c) * bucket_cost(c, 1);
    &&& p * (bucket_units(c, t) - reading_origin()) <= accrued + p - 1
    &&& bucket_units(c, t) == u64::MAX || accrued < p * (bucket_units(c, t) - reading_origin() + 1)
}

/// The facts of the unit model for configuration `c`: no tokens cost
/// nothing, one costs at least a unit, more never cost less (up to the
/// capacity), amounts cost their number of single tokens where a unit is at
/// most a token, a full bucket costs at most 2^61 units, readings start at
/// 2^62 units and never run backwards, and where the refill is exact they track
/// it to within a unit.
pub open spec fn unit_model(c: BucketConfig) -> bool {
    &&& bucket_cost(c, 0) == 0
    &&& bucket_cost(c, 1) >= 1
    &&& whole_token_units(c) ==> forall|n: u32| n <= config_capacity(c) ==> #[trigger] bucket_cost(c, n) == n
        * bucket_cost(c, 1)
    &&& forall|a: u32, b: u32| a <= b <= config_capacity(c) ==> #[trigger] bucket_cost(c, a) <= #[trigger] bucket_cost(c, b)
    &&& exact_refill(c) ==> forall|t: u64| #[trigger] reading_tracks_refill(c, t)
    &&& bucket_cost(c, config_capacity(c)) <= 0x2000_0000_0000_0000u64
    &&& forall|t: u64| #[trigger] bucket_units(c, t) >= 0x4000_0000_0000_0000u64
    &&& forall|t1: u64, t2: u64| t1 <= t2 ==> #[trigger] bucket_units(c, t1) <= #[trigger] bucket_units(c, t2)
}

/// Token-bucket state for one key. A quota that can grant nothing (a zero
/// limit, burst or period) holds no bucket: its capacity is zero.
pub struct TokenBucket {
    core: Option<BucketCore>,
}

/// Whether a quota describes a bucket that can grant anything.
pub open spec fn token_bucket_live(q: QuotaView) -> bool {
    q.limit > 0 && q.burst > 0 && q.period > 0
}

impl TokenBucket {
    /// Whether the key holds a bucket (its quota can grant anything).
    pub closed spec fn live(&self) -> bool {
        self.core is Some
    }

    /// The configuration of the bucket.
    pub closed spec fn config(&self) -> BucketConfig {
        core_config(self.core.unwrap())
    }

    /// The most tokens the bucket holds (its burst ceiling); zero without a
    /// bucket.
    pub closed spec fn capacity(&self) -> int {
        match self.core {
            Some(b) => config_capacity(core_config(b)) as int,
            None => 0,
        }
    }

    /// The bucket's empty instant, in units.
    pub closed spec fn empty_at(&self) -> int {
        core_empty_at(self.core.unwrap()) as int
    }

    /// The clock reading of `now` nanoseconds, in units.
    pub open spec fn units(&self, now: int) -> int {
        bucket_units(self.config(), now as u64) as int
    }

    /// What `n` tokens cost, in units.
    pub open spec fn cost(&self, n: int) -> int {
        bucket_cost(self.config(), n as u32) as int
    }

    /// What a full bucket holds, in units.
    pub open spec fn burst(&self) -> int {
        self.cost(self.capacity())
    }

    /// Whether the unit model's facts hold of the bucket's configuration.
    pub open spec fn wf(&self) -> bool {
        self.live() ==> unit_model(self.config())
    }

    /// A full bucket for `quota` as of `now`: capacity `burst`, refilling
    /// `limit` tokens per `period`, its empty instant one full bucket before
    /// `now`; capacity zero when the quota can grant nothing.
    pub fn new(quota: &Quota, now: Duration) -> (r: Self)
        ensures
            r.wf(),
            token_bucket_initial(r, quota@, clamp_u64(nanos_of(now) as int)),
            r.live() ==> config_refill_period(r.config()) == quota.period_spec(),
    {
        let limit: u32 = quota.limit();
        let burst: u32 = quota.burst();
        let period: Duration = quota.period();
        if limit == 0 || burst == 0 || duration_as_nanos(period) == 0 {
            return TokenBucket { core: None };
        }
        match config_new(burst, limit, period, burst) {
            Ok(config) => TokenBucket { core: Some(core_new(config, now)) },
            Err(_) => TokenBucket { core: None },
        }
    }

    /// Asks the bucket for `n` tokens at elapsed time `now`.
    ///
    /// Zero tokens are always granted; more than the capacity never are.
    /// Otherwise the grant goes as `token_step` says.
    pub fn acquire(&mut self, n: u32, now: Duration) -> (d: Decision)
        requires
            old(self).wf(),
        ensures
            final(self).wf(),
            token_step(*old(self), n as int, clamp_u64(nanos_of(now) as int), *final(self), d@),
    {
        match &mut self.core {
            Some(bucket) => {
                let d: Decision = core_acquire_at(bucket, n, now);
                proof {
                    assert(self.config() == old(self).config());
                    assert(self.live());
                }
                d
            },
            None => {
                if n == 0 {
                    Decision::Allow
                } else {
                    Decision::Deny { retry_after: duration_max() }
                }
            },
        }
    }
}

/// Whether `b` is the bucket a key starts with under quota `q` at `now`
/// nanoseconds: with a live quota, capacity `burst`, refilling `limit` tokens
/// per period and full at `now`; otherwise no bucket, capacity zero. Either
/// way its unit model's facts hold.
pub open spec fn token_bucket_initial(b: TokenBucket, q: QuotaView, now: int) -> bool {
    &&& b.wf()
    &&& b.live() == token_bucket_live(q)
    &&& b.capacity() == if token_bucket_live(q) { q.burst as int } else { 0 }
    &&& b.live() ==> {
        &&& config_refill_amount(b.config()) == q.limit
        &&& nanos_of(config_refill_period(b.config())) == q.period
        &&& config_initial(b.config()) == q.burst
        &&& b.empty_at() == b.units(now) - b.burst()
    }
}

/// One request of `n` units at `now` nanoseconds, from bucket `b` to bucket
/// `b2` with outcome `out`: the configuration stays; zero units are granted
/// and more than the capacity refused for good, neither touching the bucket;
/// otherwise the grant is allowed exactly when it ends no later than `now`,
/// moving the empty instant there, and a refusal leaves the bucket as it was,
/// with a wait (short of `Duration::MAX`) of the least whole number of
/// milliseconds by whose end the grant would fit.
pub open spec fn token_step(b: TokenBucket, n: int, now: int, b2: TokenBucket, out: Outcome) -> bool {
    &&& b2.live() == b.live()
    &&& b2.capacity() == b.capacity()
    &&& b.live() ==> b2.config() == b.config()
    &&& n == 0 ==> out is Allow && (b.live() ==> b2.empty_at() == b.empty_at())
    &&& n > b.capacity() ==> out == Outcome::Deny(max_duration_nanos()) && (b.live() ==> b2.empty_at()
        == b.empty_at())
    &&& (b.live() && 1 <= n <= b.capacity()) ==> {
        let next = grant_end(b.empty_at(), b.units(now), b.burst(), b.cost(n));
        &&& (out is Allow <==> next <= b.units(now))
        &&& out is Allow ==> b2.empty_at() == next
        &&& !(out is Allow) ==> b2.empty_at() == b.empty_at()
        &&& (out is Deny && out->0 < max_duration_nanos()) ==> {
            &&& next <= b.units(clamp_u64(now + out->0))
            &&& out->0 % 1_000_000 == 0
            &&& out->0 >= 1_000_000
            &&& b.units(clamp_u64(now + out->0 - 1_000_000)) < next
        }
    }
}


/// Whether the buckets `bs` are the states a bucket passes through as it
/// takes the requests `reqs`, each `(units, nanoseconds)`, answering `outs`.
pub open spec fn token_run(bs: Seq<TokenBucket>, reqs: Seq<(u32, u64)>, outs: Seq<Outcome>) -> bool {
    &&& bs.len() == reqs.len() + 1
    &&& outs.len() == reqs.len()
    &&& forall|i: int|
        0 <= i < reqs.len() ==> #[trigger] token_step(bs[i], reqs[i].0 as int, reqs[i].1 as int, bs[i + 1], outs[i])
}

/// What the granted requests among `reqs` cost, in units of bucket `b`.
pub open spec fn token_granted(b: TokenBucket, reqs: Seq<(u32, u64)>, outs: Seq<Outcome>) -> int
    decreases reqs.len(),
{
    if reqs.len() == 0 || outs.len() == 0 {
        0
    } else {
        token_granted(b, reqs.drop_last(), outs.drop_last()) + if outs.last() is Allow {
            b.cost(reqs.last().0 as int)
        } else {
            0
        }
    }
}

/// The instant of the last request, or `t0` if there is none.
pub open spec fn last_instant(t0: int, reqs: Seq<(u32, u64)>) -> int {
    if reqs.len() == 0 { t0 } else { reqs.last().1 as int }
}

proof fn lemma_token_run_inv(bs: Seq<TokenBucket>, reqs: Seq<(u32, u64)>, outs: Seq<Outcome>, t0: int)
    requires
        token_run(bs, reqs, outs),
        bs[0].live(),
        bs[0].wf(),
        0 <= t0 <= u64::MAX,
        bs[0].empty_at() <= bs[0].units(t0),
        times_from(t0, reqs),
    ensures
        bs[reqs.len() as int].live(),
        bs[reqs.len() as int].config() == bs[0].config(),
        bs[reqs.len() as int].capacity() == bs[0].capacity(),
        bs[reqs.len() as int].empty_at() >= bs[0].empty_at() + token_granted(bs[0], reqs, outs),
        bs[reqs.len() as int].empty_at() <= bs[0].units(last_instant(t0, reqs)),
    decreases reqs.len(),
{
    let k = reqs.len() as int;
    if k > 0 {
        let bs1 = bs.drop_last();
        let reqs1 = reqs.drop_last();
        let outs1 = outs.drop_last();
        assert(token_run(bs1, reqs1, outs1)) by {
            assert forall|i: int| 0 <= i < reqs1.len() implies #[trigger] token_step(
                bs1[i],
                reqs1[i].0 as int,
                reqs1[i].1 as int,
                bs1[i + 1],
                outs1[i],
            ) by {
                assert(token_step(bs[i], reqs[i].0 as int, reqs[i].1 as int, bs[i + 1], outs[i]));
            }
        }
        assert(times_from(t0, reqs1)) by {
            assert forall|i: int| 0 <= i < reqs1.len() implies t0 <= #[trigger] reqs1[i].1 by {
                assert(reqs1[i] == reqs[i]);
            }
            assert forall|i: int, j: int| 0 <= i < j < reqs1.len() implies #[trigger] reqs1[i].1 <= #[trigger] reqs1[j].1 by {
                assert(reqs1[i] == reqs[i]);
                assert(reqs1[j] == reqs[j]);
            }
        }
        lemma_token_run_inv(bs1, reqs1, outs1, t0);
        assert(bs1[k - 1] == bs[k - 1]);
        let x = k - 1;
        assert(token_step(bs[x], reqs[x].0 as int, reqs[x].1 as int, bs[x + 1], outs[x]));
        let prev_t = last_instant(t0, reqs1);
        let t = reqs[x].1 as int;
        assert(prev_t <= t) by {
            if reqs1.len() > 0 {
                assert(reqs1.last() == reqs[x - 1]);
                assert(reqs[x - 1].1 <= reqs[x].1);
            }
        }
        assert(bs[0].units(prev_t) <= bs[0].units(t)) by {
            let c = bs[0].config();
            assert(bucket_units(c, prev_t as u64) <= bucket_units(c, t as u64));
        }
        assert(bs[0].cost(0) == 0);
        assert(bs[0].burst() >= 0);
    }
}

/// No over-grant: starting from a bucket full at `t0`, over any requests whose
/// instants never run backwards and come no earlier than `t0`, what the granted
/// requests cost never exceeds a full bucket plus the units accrued from `t0` to
/// the last request.
pub proof fn lemma_token_bucket_never_over_grants(bs: Seq<TokenBucket>, reqs: Seq<(u32, u64)>, outs: Seq<Outcome>, t0: u64)
    requires
        token_run(bs, reqs, outs),
        bs[0].live(),
        bs[0].wf(),
        bs[0].empty_at() == bs[0].units(t0 as int) - bs[0].burst(),
        times_from(t0 as int, reqs),
    ensures
        token_granted(bs[0], reqs, outs) <= bs[0].burst() + bs[0].units(last_instant(t0 as int, reqs)) - bs[0].units(
            t0 as int,
        ),
{
    let c = bs[0].config();
    assert(bucket_cost(c, 0) <= bucket_cost(c, config_capacity(c)));
    lemma_token_run_inv(bs, reqs, outs, t0 as int);
}

/// A refusal's wait is honest: unless it is `Duration::MAX`, the same request
/// made once the wait has passed, from the bucket the refusal left, is granted.
pub proof fn lemma_token_wait_suffices(
    b: TokenBucket,
    n: int,
    now: int,
    b2: TokenBucket,
    w: int,
    b3: TokenBucket,
    out: Outcome,
)
    requires
        b.wf(),
        b.live(),
        0 <= n,
        token_step(b, n, now, b2, Outcome::Deny(w)),
        w < max_duration_nanos(),
        token_step(b2, n, clamp_u64(now + w), b3, out),
    ensures
        out is Allow,
{
    let c = b.config();
    assert(1 <= n <= b.capacity());
    assert(bucket_cost(c, n as u32) <= bucket_cost(c, config_capacity(c)));
}

proof fn lemma_at_once_prefix(bs: Seq<TokenBucket>, reqs: Seq<(u32, u64)>, outs: Seq<Outcome>, t: u64, k: int)
    requires
        token_run(bs, reqs, outs),
        bs[0].live(),
        bs[0].wf(),
        whole_token_units(bs[0].config()),
        bs[0].empty_at() <= bs[0].units(t as int) - bs[0].burst(),
        forall|i: int| 0 <= i < reqs.len() ==> #[trigger] reqs[i] == (1u32, t),
        0 <= k <= reqs.len(),
    ensures
        bs[k].live(),
        bs[k].config() == bs[0].config(),
        bs[k].capacity() == bs[0].capacity(),
        grant_end(bs[k].empty_at(), bs[0].units(t as int), bs[0].burst(), 0) == bs[0].units(t as int) - bs[0].burst() + (if k < bs[0].capacity() {
            k
        } else {
            bs[0].capacity()
        }) * bs[0].cost(1),
        forall|i: int| 0 <= i < k ==> (#[trigger] outs[i] is Allow <==> i < bs[0].capacity()),
    decreases k,
{
    let b0 = bs[0];
    let c = b0.config();
    let cap = b0.capacity();
    let c1 = b0.cost(1);
    let u = b0.units(t as int);
    assert(b0.burst() == cap * c1) by {
        assert(bucket_cost(c, config_capacity(c)) == config_capacity(c) * bucket_cost(c, 1));
    }
    if k > 0 {
        lemma_at_once_prefix(bs, reqs, outs, t, k - 1);
        let i = k - 1;
        assert(reqs[i] == (1u32, t));
        assert(token_step(bs[i], reqs[i].0 as int, reqs[i].1 as int, bs[i + 1], outs[i]));
        let m = if i < cap { i } else { cap };
        let z = bs[i].empty_at();
        assert(grant_end(z, u, cap * c1, 0) == u - cap * c1 + m * c1);
        assert(bs[i].units(t as int) == u);
        assert(bs[i].cost(1) == c1);
        assert(bs[i].burst() == cap * c1);
        assert(m * c1 <= cap * c1) by (nonlinear_arith)
            requires
                m <= cap,
                c1 >= 1,
        ;
        assert(m * c1 + c1 == (m + 1) * c1) by (nonlinear_arith);
        if i < cap {
            assert((m + 1) * c1 <= cap * c1) by (nonlinear_arith)
                requires
                    m + 1 <= cap,
                    c1 >= 1,
            ;
            assert(1 <= cap);
        } else {
            assert((m + 1) * c1 > cap * c1) by (nonlinear_arith)
                requires
                    m == cap,
                    c1 >= 1,
            ;
        }
    }
}

/// A full bucket grants its whole capacity at once and no more: from a bucket
/// at least full at `t` (however long it stood idle, the refill stops at a
/// full bucket) whose unit is at most a token, single-token requests all made
/// at `t` are granted exactly while fewer than the capacity have been.
pub proof fn lemma_token_bucket_capacity_at_once(
    bs: Seq<TokenBucket>,
    reqs: Seq<(u32, u64)>,
    outs: Seq<Outcome>,
    t: u64,
)
    requires
        token_run(bs, reqs, outs),
        bs[0].live(),
        bs[0].wf(),
        whole_token_units(bs[0].config()),
        bs[0].empty_at() <= bs[0].units(t as int) - bs[0].burst(),
        forall|i: int| 0 <= i < reqs.len() ==> #[trigger] reqs[i] == (1u32, t),
    ensures
        forall|i: int| 0 <= i < reqs.len() ==> (#[trigger] outs[i] is Allow <==> i < bs[0].capacity()),
{
    lemma_at_once_prefix(bs, reqs, outs, t, reqs.len() as int);
}

/// The tokens granted among `reqs`: the units asked for by each request that
/// was allowed.
pub open spec fn token_count(reqs: Seq<(u32, u64)>, outs: Seq<Outcome>) -> int
    decreases reqs.len(),
{
    if reqs.len() == 0 || outs.len() == 0 {
        0
    } else {
        token_count(reqs.drop_last(), outs.drop_last()) + if outs.last() is Allow {
            reqs.last().0 as int
        } else {
            0
        }
    }
}

proof fn lemma_run_keeps_capacity(bs: Seq<TokenBucket>, reqs: Seq<(u32, u64)>, outs: Seq<Outcome>, k: int)
    requires
        token_run(bs, reqs, outs),
        bs[0].live(),
        0 <= k <= reqs.len(),
    ensures
        bs[k].live(),
        bs[k].capacity() == bs[0].capacity(),
        bs[k].config() == bs[0].config(),
    decreases k,
{
    if k > 0 {
        let i = k - 1;
        lemma_run_keeps_capacity(bs, reqs, outs, i);
        assert(token_step(bs[i], reqs[i].0 as int, reqs[i].1 as int, bs[i + 1], outs[i]));
    }
}

/// Where a unit is at most a token, what the granted requests cost in units
/// is the tokens granted times the cost of one.
proof fn lemma_granted_in_tokens(bs: Seq<TokenBucket>, reqs: Seq<(u32, u64)>, outs: Seq<Outcome>)
    requires
        token_run(bs, reqs, outs),
        bs[0].live(),
        bs[0].wf(),
        whole_token_units(bs[0].config()),
    ensures
        token_granted(bs[0], reqs, outs) == token_count(reqs, outs) * bs[0].cost(1),
    decreases reqs.len(),
{
    let k = reqs.len() as int;
    if k > 0 {
        let bs1 = bs.drop_last();
        let reqs1 = reqs.drop_last();
        let outs1 = outs.drop_last();
        assert(token_run(bs1, reqs1, outs1)) by {
            assert forall|i: int| 0 <= i < reqs1.len() implies #[trigger] token_step(
                bs1[i],
                reqs1[i].0 as int,
                reqs1[i].1 as int,
                bs1[i + 1],
                outs1[i],
            ) by {
                assert(token_step(bs[i], reqs[i].0 as int, reqs[i].1 as int, bs[i + 1], outs[i]));
            }
        }
        lemma_granted_in_tokens(bs1, reqs1, outs1);
        lemma_run_keeps_capacity(bs, reqs, outs, k - 1);
        let n = reqs[k - 1].0;
        assert(token_step(bs[k - 1], n as int, reqs[k - 1].1 as int, bs[k], outs[k - 1]));
        let c1 = bs[0].cost(1);
        let g1 = token_count(reqs1, outs1);
        if outs[k - 1] is Allow {
            assert(n <= bs[0].capacity());
            assert(bucket_cost(bs[0].config(), n) == n * bucket_cost(bs[0].config(), 1));
            assert(g1 * c1 + n * c1 == (g1 + n) * c1) by (nonlinear_arith);
        }
    }
}

/// No over-admission, in tokens, for a bucket whose clock is tied to its
/// refill of `amount` tokens per `period` nanoseconds: starting from a bucket
/// full at `t0`, over requests whose instants never run backwards, the tokens
/// granted by the last request, at `t`, stay below a full bucket plus two plus
/// what refilled meanwhile: `period * granted < period * (capacity + 2) + (t -
/// t0) * amount`. For a bucket full at time zero the slack is one token, so
/// over whole periods the grants never exceed a full bucket plus one refill per
/// period.
pub proof fn lemma_token_bucket_refill_bound(bs: Seq<TokenBucket>, reqs: Seq<(u32, u64)>, outs: Seq<Outcome>, t0: u64)
    requires
        token_run(bs, reqs, outs),
        bs[0].live(),
        bs[0].wf(),
        exact_refill(bs[0].config()),
        nanos_of(config_refill_period(bs[0].config())) > 0,
        bs[0].empty_at() == bs[0].units(t0 as int) - bs[0].burst(),
        times_from(t0 as int, reqs),
    ensures
        ({
            let p = nanos_of(config_refill_period(bs[0].config()));
            let a = config_refill_amount(bs[0].config()) as int;
            let g = token_count(reqs, outs);
            let t = last_instant(t0 as int, reqs);
            &&& p * g < p * (bs[0].capacity() + 2) + (t - t0) * a
            &&& t0 == 0 ==> p * g < p * (bs[0].capacity() + 1) + t * a
        }),
{
    let b = bs[0];
    let c = b.config();
    let p = nanos_of(config_refill_period(c));
    let a = config_refill_amount(c) as int;
    let g = token_count(reqs, outs);
    let t = last_instant(t0 as int, reqs);
    let c1 = b.cost(1);
    let cap = b.capacity();
    let o = reading_origin();
    lemma_token_bucket_never_over_grants(bs, reqs, outs, t0);
    lemma_granted_in_tokens(bs, reqs, outs);
    assert(b.burst() == cap * c1) by {
        assert(bucket_cost(c, config_capacity(c)) == config_capacity(c) * bucket_cost(c, 1));
    }
    assert(t0 <= t <= u64::MAX) by {
        if reqs.len() > 0 {
            assert(t0 <= reqs[reqs.len() - 1].1);
        }
    }
    let ut = b.units(t);
    let u0 = b.units(t0 as int);
    assert(reading_tracks_refill(c, t as u64));
    assert(reading_tracks_refill(c, t0));
    assert(bucket_units(c, t0) <= bucket_units(c, t as u64));
    assert(g * c1 <= cap * c1 + ut - u0);
    assert(p * (ut - o) <= t * a * c1 + p - 1);
    assert(c1 >= 1);
    if u0 == u64::MAX {
        assert(ut == u0);
        assert(g <= cap) by (nonlinear_arith)
            requires
                g * c1 <= cap * c1,
                c1 >= 1,
        ;
        assert(p * g <= p * cap) by (nonlinear_arith)
            requires
                g <= cap,
                p > 0,
        ;
        assert(p * (cap + 1) == p * cap + p && p * (cap + 2) == p * cap + 2 * p) by (nonlinear_arith);
        assert((t - t0) * a >= 0) by (nonlinear_arith)
            requires
                t - t0 >= 0,
                a >= 0,
        ;
        assert(t * a >= 0) by (nonlinear_arith)
            requires
                t >= 0,
                a >= 0,
        ;
    } else {
        assert(t0 * a * c1 < p * (u0 - o + 1));
        assert(p * g * c1 < (p * (cap + 2) + (t - t0) * a) * c1) by (nonlinear_arith)
            requires
                g * c1 <= cap * c1 + ut - u0,
                p * (ut - o) <= t * a * c1 + p - 1,
                t0 * a * c1 < p * (u0 - o + 1),
                p > 0,
                c1 >= 1,
        ;
        assert(p * g < p * (cap + 2) + (t - t0) * a) by (nonlinear_arith)
            requires
                p * g * c1 < (p * (cap + 2) + (t - t0) * a) * c1,
                c1 >= 1,
        ;
        if t0 == 0 {
            assert(t0 * a * c1 == 0) by (nonlinear_arith)
                requires
                    t0 == 0,
            ;
            assert(p * (u0 - o) <= p - 1);
            assert(u0 - o < 1) by (nonlinear_arith)
                requires
                    p * (u0 - o) <= p - 1,
                    p > 0,
            ;
            assert(u0 >= o);
            assert(p * g * c1 < (p * (cap + 1) + t * a) * c1) by (nonlinear_arith)
                requires
                    g * c1 <= cap * c1 + ut - u0,
                    p * (ut - o) <= t * a * c1 + p - 1,
                    u0 == o,
                    p > 0,
                    c1 >= 1,
            ;
            assert(p * g < p * (cap + 1) + t * a) by (nonlinear_arith)
                requires
                    p * g * c1 < (p * (cap + 1) + t * a) * c1,
                    c1 >= 1,
            ;
        }
    }
}

/// A refusal's wait is the least to the millisecond: the same request made
/// before the last millisecond of the wait has begun, from the bucket the
/// refusal left, is refused again.
pub proof fn lemma_token_wait_is_least(
    b: TokenBucket,
    n: int,
    now: int,
    b2: TokenBucket,
    w: int,
    t: int,
    b3: TokenBucket,
    out: Outcome,
)
    requires
        b.wf(),
        b.live(),
        0 <= n,
        0 <= now <= t <= u64::MAX,
        t <= now + w - 1_000_000,
        token_step(b, n, now, b2, Outcome::Deny(w)),
        w < max_duration_nanos(),
        token_step(b2, n, t, b3, out),
    ensures
        out is Deny,
{
    let c = b.config();
    assert(1 <= n <= b.capacity());
    let e = clamp_u64(now + w - 1_000_000);
    assert(t <= e);
    assert(bucket_units(c, now as u64) <= bucket_units(c, t as u64));
    assert(bucket_units(c, t as u64) <= bucket_units(c, e as u64));
}

} // verus!
