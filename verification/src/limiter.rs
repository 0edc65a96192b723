//! The keyed rate limiter and the trait every limiter shares.
//!
//! A limiter holds its configuration (algorithm, quota, eviction policy,
//! requested shard count), a time source with the reading it was built at, and
//! the sharded per-key store. A check reads the elapsed time since that first
//! reading and hands the request to the store; `check_at` is the same check at
//! an elapsed time the caller supplies.

use core::time::Duration;
use clock_lib::{Monotonic, SystemClock};
use vstd::prelude::*;

use crate::algo::{
    lemma_oversized_never_admitted, lemma_zero_limit_denies_everything, lemma_zero_units_admitted, oversized,
};
use crate::algorithm::Algorithm;
use crate::builder::{builder_defaults, Builder};
use crate::clock::{elapsed_between, nanos_between, system_clock, TimeSource};
use crate::decision::{Decision, Outcome};
use crate::eviction::{Eviction, EvictionView};
use crate::key::Key;
use crate::quota::{Quota, QuotaView};
use crate::store::{
    is_next_power_of_two, lemma_checked_layout, lemma_checked_step, lemma_store_memory_bounded, next_power_of_two, per_shard_cap,
    store_checked, Store,
};
use crate::time::{clamp_u64, max_duration_nanos, nanos_of, nanos_u64};
use crate::text::{algorithm_name, algorithm_str, decimal, decimal_string};
use vstd::string::StringExecFns;

verus! {

/// The shard count of a limiter whose shard count was not chosen.
pub const DEFAULT_SHARDS: usize = 16;

/// The shard count to use on a machine that runs `parallelism` threads at
/// once: four shards per thread, rounded up to a power of two, at least one
/// and at most 4096.
pub fn shard_count_for(parallelism: usize) -> (r: usize)
    requires
        parallelism <= usize::MAX / 4,
    ensures
        parallelism * 4 >= 4096 ==> r == 4096,
        parallelism * 4 < 4096 ==> is_next_power_of_two(
            r as int,
            if parallelism == 0 { 1 } else { parallelism * 4 },
        ),
{
    let wanted: usize = parallelism * 4;
    if wanted >= 4096 {
        4096
    } else {
        next_power_of_two(wanted)
    }
}

/// What a limiter is configured with.
pub struct RateLimiterView {
    /// The algorithm every key runs.
    pub algorithm: Algorithm,
    /// The quota every key is limited to.
    pub quota: QuotaView,
    /// The eviction policy bounding the store.
    pub eviction: EvictionView,
    /// The shard count asked for (the store rounds it up to a power of two).
    pub shards: usize,
}

/// A keyed rate limiter.
///
/// Tracks an independent allowance for every key it sees. Per-key state lives
/// in a sharded store: unrelated keys land in different shards, and memory is
/// bounded by the [eviction](Self::with_eviction) policy. Time comes from a
/// [`TimeSource`]: the operating system's monotonic clock by default, or a
/// shared manual clock in tests via [`with_clock`](Self::with_clock).
pub struct RateLimiter<C: TimeSource = SystemClock> {
    algorithm: Algorithm,
    quota: Quota,
    clock: C,
    epoch: Monotonic,
    shards: usize,
    eviction: Eviction,
    store: Store,
}

impl<C: TimeSource> View for RateLimiter<C> {
    type V = RateLimiterView;

    closed spec fn view(&self) -> RateLimiterView {
        RateLimiterView {
            algorithm: self.algorithm,
            quota: self.quota@,
            eviction: self.eviction@,
            shards: self.shards,
        }
    }
}

/// Whether `after` and the outcome `out` are what a check of `n` units
/// against the key `k`, as of now, leaves and gives from `before`: the
/// configuration and time source stay; the store takes the request at the
/// time elapsed from the limiter's first reading to some reading of its clock;
/// zero units are admitted; and a request larger than the algorithm can ever
/// grant, or any under a zero limit, is refused for good.
pub open spec fn checked_now<C: TimeSource>(before: RateLimiter<C>, after: RateLimiter<C>, k: Key, n: int, out: Outcome) -> bool {
    &&& after.wf()
    &&& after@ == before@
    &&& after.time_source() == before.time_source()
    &&& exists|now: Duration|
        (exists|reading: Monotonic| nanos_of(now) == #[trigger] nanos_between(reading, before.time_source().1))
            && #[trigger] store_checked(before.store(), after.store(), k, n, now, before@.algorithm, before@.quota, out)
    &&& n == 0 ==> out is Allow
    &&& oversized(before@.algorithm, before@.quota, n) ==> out == Outcome::Deny(max_duration_nanos())
    &&& before@.quota.limit == 0 && n >= 1 ==> out == Outcome::Deny(max_duration_nanos())
}

/// `Some(x)` in decimal, or `none`.
pub open spec fn optional_decimal(x: Option<int>) -> Seq<char> {
    match x {
        Some(v) => decimal(v as nat),
        None => "none"@,
    }
}

/// The description of a limiter configured as `v`, split into `shards`
/// shards and tracking `keys` keys.
pub open spec fn description(v: RateLimiterView, shards: int, keys: int) -> Seq<char> {
    "RateLimiter { algorithm: "@ + algorithm_name(v.algorithm) + ", limit: "@ + decimal(v.quota.limit as nat)
        + ", period_ns: "@ + decimal(clamp_u64(v.quota.period as int) as nat) + ", burst: "@ + decimal(
        v.quota.burst as nat,
    ) + ", shards: "@ + decimal(shards as nat) + ", max_keys: "@ + optional_decimal(
        match v.eviction.max_keys {
            Some(m) => Some(m as int),
            None => None,
        },
    ) + ", idle_ttl_ns: "@ + optional_decimal(
        match v.eviction.idle_ttl {
            Some(t) => Some(clamp_u64(nanos_of(t) as int)),
            None => None,
        },
    ) + ", tracked_keys: "@ + decimal(keys as nat) + " }"@
}

impl RateLimiter<SystemClock> {
    /// A limiter allowing `limit` requests per second, per key, driven by the
    /// operating system's monotonic clock. A `limit` of zero denies every
    /// request.
    #[must_use]
    pub fn per_second(limit: u32) -> (r: Self)
        ensures
            r.wf(),
            r.is_empty(),
            r@ == (RateLimiterView {
                algorithm: Algorithm::TokenBucket,
                quota: QuotaView { limit, period: 1_000_000_000, burst: limit },
                eviction: Eviction::default_view(),
                shards: DEFAULT_SHARDS,
            }),
    {
        Self::with_quota(Quota::per_second(limit))
    }

    /// A limiter allowing `limit` requests per minute, per key.
    #[must_use]
    pub fn per_minute(limit: u32) -> (r: Self)
        ensures
            r.wf(),
            r.is_empty(),
            r@ == (RateLimiterView {
                algorithm: Algorithm::TokenBucket,
                quota: QuotaView { limit, period: 60_000_000_000, burst: limit },
                eviction: Eviction::default_view(),
                shards: DEFAULT_SHARDS,
            }),
    {
        Self::with_quota(Quota::per_minute(limit))
    }

    /// A limiter for an explicit quota, driven by the operating system's
    /// monotonic clock, with the token bucket, the default shard count and the
    /// default bounded-memory eviction policy.
    #[must_use]
    pub fn with_quota(quota: Quota) -> (r: Self)
        ensures
            r.wf(),
            r.is_empty(),
            r@ == (RateLimiterView {
                algorithm: Algorithm::TokenBucket,
                quota: quota@,
                eviction: Eviction::default_view(),
                shards: DEFAULT_SHARDS,
            }),
    {
        Self::build(Algorithm::TokenBucket, quota, system_clock(), DEFAULT_SHARDS, Eviction::default())
    }

    /// A builder that selects the algorithm, quota, burst, shard count,
    /// eviction policy and clock in one place.
    pub fn builder() -> (b: Builder<SystemClock>)
        ensures
            b@ == builder_defaults(),
    {
        Builder::new()
    }
}

impl<C: TimeSource> RateLimiter<C> {
    /// The per-key store.
    pub closed spec fn store(&self) -> Store {
        self.store
    }

    /// The time source and the reading the limiter measures elapsed time from.
    pub closed spec fn time_source(&self) -> (C, Monotonic) {
        (self.clock, self.epoch)
    }

    /// Whether the limiter is well formed: its store is well formed, rounds
    /// the requested shard count up to a power of two, is bounded as the
    /// eviction policy says, and every key's state was built for the
    /// limiter's algorithm and quota.
    pub closed spec fn wf(&self) -> bool {
        &&& self.store.wf()
        &&& self.shards <= usize::MAX / 2 + 1
        &&& self.store.all_configured(self.algorithm, self.quota@)
        &&& is_next_power_of_two(self.store.num_shards(), if self.shards == 0 { 1 } else { self.shards as int })
        &&& self.store.cap() == match self.eviction@.max_keys {
            Some(m) => Some(per_shard_cap(m as int, self.store.num_shards()) as usize),
            None => None::<usize>,
        }
    }

    /// Whether no key has state yet.
    pub open spec fn is_empty(&self) -> bool {
        &&& forall|s: int| 0 <= s < self.store().num_shards() ==> #[trigger] self.store().entries(s).len() == 0
        &&& self.store().total_keys() == 0
    }

    /// What a well-formed limiter's store is: well formed, with every key's
    /// state built for the limiter's algorithm and quota, the requested shard
    /// count rounded up to a power of two, and the eviction policy's cap
    /// spread over the shards.
    pub proof fn lemma_store(&self)
        requires
            self.wf(),
        ensures
            self.store().wf(),
            self.store().all_configured(self@.algorithm, self@.quota),
            is_next_power_of_two(self.store().num_shards(), if self@.shards == 0 { 1 } else { self@.shards as int }),
            self.store().cap() == match self@.eviction.max_keys {
                Some(m) => Some(per_shard_cap(m as int, self.store().num_shards()) as usize),
                None => None::<usize>,
            },
    {
    }

    /// Assembles a limiter from its parts, taking the clock's current reading
    /// as the epoch elapsed time is measured from.
    pub(crate) fn build(algorithm: Algorithm, quota: Quota, clock: C, shards: usize, eviction: Eviction) -> (r: Self)
        requires
            shards <= usize::MAX / 2 + 1,
        ensures
            r.wf(),
            r.is_empty(),
            r@ == (RateLimiterView { algorithm, quota: quota@, eviction: eviction@, shards }),
            r.time_source().0 == clock,
    {
        let epoch: Monotonic = clock.read();
        let store: Store = Store::new(shards, eviction);
        RateLimiter { algorithm, quota, clock, epoch, shards, eviction, store }
    }

    /// Replaces the time source, discarding any per-key state. The algorithm,
    /// quota, shard count and eviction policy are kept.
    #[must_use]
    pub fn with_clock<C2: TimeSource>(self, clock: C2) -> (r: RateLimiter<C2>)
        requires
            self.wf(),
        ensures
            r.wf(),
            r.is_empty(),
            r@ == self@,
            r.time_source().0 == clock,
    {
        RateLimiter::build(self.algorithm, self.quota, clock, self.shards, self.eviction)
    }

    /// Selects the algorithm, discarding any per-key state.
    #[must_use]
    pub fn with_algorithm(self, algorithm: Algorithm) -> (r: Self)
        requires
            self.wf(),
        ensures
            r.wf(),
            r.is_empty(),
            r@ == (RateLimiterView { algorithm, ..self@ }),
    {
        Self::build(algorithm, self.quota, self.clock, self.shards, self.eviction)
    }

    /// Sets the shard count, discarding any per-key state. The store rounds it
    /// up to a power of two.
    #[must_use]
    pub fn with_shards(self, shards: usize) -> (r: Self)
        requires
            shards <= usize::MAX / 2 + 1,
        ensures
            r.wf(),
            r.is_empty(),
            r@ == (RateLimiterView { shards, ..self@ }),
    {
        Self::build(self.algorithm, self.quota, self.clock, shards, self.eviction)
    }

    /// Sets the eviction policy, discarding any per-key state.
    #[must_use]
    pub fn with_eviction(self, eviction: Eviction) -> (r: Self)
        requires
            self.wf(),
        ensures
            r.wf(),
            r.is_empty(),
            r@ == (RateLimiterView { eviction: eviction@, ..self@ }),
    {
        Self::build(self.algorithm, self.quota, self.clock, self.shards, eviction)
    }

    /// Checks `n` units against `key` at elapsed time `now`.
    ///
    /// A key seen for the first time gets fresh state for the limiter's
    /// algorithm and quota, after room is made in its shard; an existing key's
    /// state takes the request. Zero units are always admitted; a request
    /// larger than the algorithm can ever grant is denied with a wait of
    /// `Duration::MAX`.
    pub fn check_at(&mut self, key: Key, n: u32, now: Duration) -> (d: Decision)
        requires
            old(self).wf(),
        ensures
            final(self).wf(),
            final(self)@ == old(self)@,
            final(self).time_source() == old(self).time_source(),
            store_checked(old(self).store(), final(self).store(), key, n as int, now, old(self)@.algorithm, old(self)@.quota, d@),
            n == 0 ==> d is Allow,
            oversized(old(self)@.algorithm, old(self)@.quota, n as int) ==> d@ == Outcome::Deny(max_duration_nanos()),
            old(self)@.quota.limit == 0 && n >= 1 ==> d@ == Outcome::Deny(max_duration_nanos()),
    {
        let ghost before: Store = self.store;
        let ghost k: Seq<u8> = key@;
        let d: Decision = self.store.check(key, n, now, self.algorithm, &self.quota);
        proof {
            lemma_check_outcome(before, self.store, key, n as int, now, self.algorithm, self.quota@, d@);
            lemma_checked_layout(before, self.store, key, n as int, now, self.algorithm, self.quota@, d@);
        }
        d
    }

    /// Checks `n` units against `key` as of now: the time elapsed since the
    /// limiter was built, as its time source reads it. Either all `n` units are
    /// admitted or none are.
    ///
    /// The elapsed time depends on when the check runs, so the store's change
    /// is stated for some elapsed time; zero units are always admitted and a
    /// request larger than the algorithm can ever grant is denied with a wait
    /// of `Duration::MAX`, whatever the time.
    pub fn check_n<K: Into<Key>>(&mut self, key: K, n: u32) -> (d: Decision)
        requires
            old(self).wf(),
        ensures
            exists|k: Key| #[trigger] call_ensures(K::into, (key,), k) && checked_now(*old(self), *final(self), k, n as int, d@),
    {
        let k: Key = key.into();
        let now: Duration = self.now();
        let ghost kk: Key = k;
        let d: Decision = self.check_at(k, n, now);
        assert(checked_now(*old(self), *self, kk, n as int, d@));
        d
    }

    /// Checks a single unit against `key` as of now. Same as `check_n(key, 1)`.
    pub fn check<K: Into<Key>>(&mut self, key: K) -> (d: Decision)
        requires
            old(self).wf(),
        ensures
            exists|k: Key| #[trigger] call_ensures(K::into, (key,), k) && checked_now(*old(self), *final(self), k, 1, d@),
    {
        self.check_n(key, 1)
    }

    /// The time elapsed since the limiter was built, as its time source reads
    /// it (zero if the source reads earlier than it did then).
    fn now(&self) -> (r: Duration)
        ensures
            exists|reading: Monotonic| nanos_of(r) == #[trigger] nanos_between(reading, self.time_source().1),
    {
        let reading: Monotonic = self.clock.read();
        let r: Duration = elapsed_between(reading, self.epoch);
        assert(nanos_of(r) == nanos_between(reading, self.time_source().1));
        r
    }

    /// The quota every key is limited to.
    #[must_use]
    pub fn quota(&self) -> (q: Quota)
        ensures
            q@ == self@.quota,
    {
        self.quota
    }

    /// The algorithm every key runs.
    #[must_use]
    pub fn algorithm(&self) -> (a: Algorithm)
        ensures
            a == self@.algorithm,
    {
        self.algorithm
    }

    /// The eviction policy bounding the per-key store.
    #[must_use]
    pub fn eviction(&self) -> (e: Eviction)
        ensures
            e@ == self@.eviction,
    {
        self.eviction
    }

    /// The number of shards the store is split across: the requested count
    /// rounded up to a power of two (at least one).
    #[must_use]
    pub fn shards(&self) -> (r: usize)
        requires
            self.wf(),
        ensures
            r as int == self.store().num_shards(),
            is_next_power_of_two(r as int, if self@.shards == 0 { 1 } else { self@.shards as int }),
    {
        self.store.shard_count()
    }

    /// The number of keys with live state, saturating at `usize::MAX`.
    #[must_use]
    pub fn tracked_keys(&self) -> (r: usize)
        ensures
            r as int == if self.store().total_keys() > usize::MAX {
                usize::MAX as int
            } else {
                self.store().total_keys()
            },
    {
        self.store.len()
    }

    /// A one-line description of the limiter: its configuration and how many
    /// keys it tracks, never a key itself, since keys can be caller identities
    /// or other sensitive values.
    #[must_use]
    pub fn describe(&self) -> (r: String)
        requires
            self.wf(),
        ensures
            r@ == description(
                self@,
                self.store().num_shards(),
                if self.store().total_keys() > usize::MAX {
                    usize::MAX as int
                } else {
                    self.store().total_keys()
                },
            ),
    {
        let mut s: String = String::from_str("RateLimiter { algorithm: ");
        s.append(algorithm_str(self.algorithm));
        s.append(", limit: ");
        s.append(decimal_string(self.quota.limit() as u64).as_str());
        s.append(", period_ns: ");
        s.append(decimal_string(nanos_u64(self.quota.period())).as_str());
        s.append(", burst: ");
        s.append(decimal_string(self.quota.burst() as u64).as_str());
        s.append(", shards: ");
        s.append(decimal_string(self.shards() as u64).as_str());
        s.append(", max_keys: ");
        match self.eviction.max_keys() {
            Some(m) => s.append(decimal_string(m as u64).as_str()),
            None => s.append("none"),
        }
        s.append(", idle_ttl_ns: ");
        match self.eviction.idle_ttl() {
            Some(t) => s.append(decimal_string(nanos_u64(t)).as_str()),
            None => s.append("none"),
        }
        s.append(", tracked_keys: ");
        s.append(decimal_string(self.tracked_keys() as u64).as_str());
        s.append(" }");
        s
    }
}

/// What a check's outcome is, from the store's change alone: zero units are
/// admitted, and a request larger than the algorithm can ever grant is denied
/// for good.
proof fn lemma_check_outcome(
    before: Store,
    after: Store,
    key: Key,
    n: int,
    now: Duration,
    algorithm: Algorithm,
    q: QuotaView,
    out: Outcome,
)
    requires
        before.wf(),
        before.all_configured(algorithm, q),
        store_checked(before, after, key, n, now, algorithm, q, out),
    ensures
        n == 0 ==> out is Allow,
        oversized(algorithm, q, n) ==> out == Outcome::Deny(max_duration_nanos()),
        q.limit == 0 && n >= 1 ==> out == Outcome::Deny(max_duration_nanos()),
{
    let now_ns = clamp_u64(nanos_of(now) as int);
    let (state, next) = lemma_checked_step(before, after, key, n, now, algorithm, q, out);
    if n == 0 {
        lemma_zero_units_admitted(state, now_ns, next, out);
    }
    if oversized(algorithm, q, n) {
        lemma_oversized_never_admitted(state, algorithm, q, n, now_ns, next, out);
    }
    if q.limit == 0 && n >= 1 {
        lemma_zero_limit_denies_everything(state, algorithm, q, n, now_ns, next, out);
    }
}

/// Bounded memory: a limiter whose eviction policy caps the keys holds at
/// most the per-shard cap times the shard count, however many distinct keys
/// it has seen. The per-shard cap is the cap divided by the shard count,
/// rounded up, and at least one.
pub proof fn lemma_limiter_memory_bounded<C: TimeSource>(limiter: RateLimiter<C>, max_keys: usize)
    requires
        limiter.wf(),
        limiter@.eviction.max_keys == Some(max_keys),
    ensures
        limiter.store().total_keys() <= per_shard_cap(max_keys as int, limiter.store().num_shards())
            * limiter.store().num_shards(),
{
    let st = limiter.store();
    let m = max_keys as int;
    let sc = st.num_shards();
    st.lemma_cap_holds();
    lemma_per_shard_cap_fits(m, sc);
    lemma_store_memory_bounded(st);
}

/// The per-shard cap is at least one and at most the whole cap (or one).
proof fn lemma_per_shard_cap_fits(m: int, sc: int)
    requires
        0 <= m,
        sc >= 1,
    ensures
        1 <= per_shard_cap(m, sc) <= if m < 1 { 1 } else { m },
{
    let c = (m + sc - 1) / sc;
    if m >= 1 {
        assert(m + sc - 1 <= m * sc) by (nonlinear_arith)
            requires
                m >= 1,
                sc >= 1,
        ;
        assert(c <= m) by (nonlinear_arith)
            requires
                c == (m + sc - 1) / sc,
                m + sc - 1 <= m * sc,
                sc >= 1,
        ;
    } else {
        assert(c == 0) by (nonlinear_arith)
            requires
                c == (m + sc - 1) / sc,
                m == 0,
                sc >= 1,
        ;
    }
}

/// The shared rate-limiting surface, whatever the algorithm behind it.
///
/// Implementors provide [`check_n`](Self::check_n); [`check`](Self::check)
/// checks one unit.
pub trait Limiter {
    /// Whether the limiter is in a state it can be checked in.
    spec fn ready(&self) -> bool;

    /// Whether `after` and the outcome `out` are what a check of `n` units
    /// against the key `k` may leave and give, starting from this limiter.
    spec fn checked(&self, after: &Self, k: Key, n: int, out: Outcome) -> bool;

    /// Checks `n` units against `key`. Zero units are always admitted.
    fn check_n<K: Into<Key>>(&mut self, key: K, n: u32) -> (d: Decision)
        requires
            old(self).ready(),
        ensures
            final(self).ready(),
            exists|k: Key| #[trigger] call_ensures(K::into, (key,), k) && old(self).checked(final(self), k, n as int, d@),
            n == 0 ==> d is Allow,
    ;

    /// Checks a single unit against `key`. Same as `check_n(key, 1)`.
    fn check<K: Into<Key>>(&mut self, key: K) -> (d: Decision)
        requires
            old(self).ready(),
        ensures
            final(self).ready(),
            exists|k: Key| #[trigger] call_ensures(K::into, (key,), k) && old(self).checked(final(self), k, 1, d@),
    {
        self.check_n(key, 1)
    }
}

impl<C: TimeSource> Limiter for RateLimiter<C> {
    open spec fn ready(&self) -> bool {
        self.wf()
    }

    /// What `RateLimiter::check_n` states of a check against `k`.
    open spec fn checked(&self, after: &Self, k: Key, n: int, out: Outcome) -> bool {
        checked_now(*self, *after, k, n, out)
    }

    fn check_n<K: Into<Key>>(&mut self, key: K, n: u32) -> (d: Decision) {
        RateLimiter::check_n(self, key, n)
    }
}

} // verus!
