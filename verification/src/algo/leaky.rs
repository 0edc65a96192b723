//! Leaky bucket: the Generic Cell Rate Algorithm (GCRA).
//!
//! Admitted units are spaced at least one emission interval apart, smoothing
//! traffic toward a steady rate while tolerating a burst up to the quota's
//! `burst`. The whole state is one "theoretical arrival time".

use core::time::Duration;
use vstd::prelude::*;

use crate::decision::{Decision, Outcome};
use crate::quota::{Quota, QuotaView};
use crate::time::{
    add_sat, clamp_u64, duration_from_nanos, duration_max, max_duration_nanos, mul_sat, nanos_of,
    nanos_u64, sat_add, sat_mul, sat_sub, sub_sat,
};
use crate::algo::fixed_window::times_from;

verus! {

/// A leaky bucket as mathematics.
pub struct LeakyBucketView {
    /// Theoretical arrival time of the next conforming unit, nanoseconds.
    pub tat: int,
    /// Emission interval per unit, nanoseconds (`period / limit`, at least
    /// one).
    pub interval: int,
    /// Delay tolerance, nanoseconds (`(burst - 1) * interval`).
    pub tolerance: int,
    /// Set when the quota admits nothing.
    pub deny_all: bool,
}

/// GCRA leaky-bucket state for one key.
pub struct LeakyBucket {
    tat_ns: u64,
    interval_ns: u64,
    tolerance_ns: u64,
    deny_all: bool,
}

impl View for LeakyBucket {
    type V = LeakyBucketView;

    closed spec fn view(&self) -> LeakyBucketView {
        LeakyBucketView {
            tat: self.tat_ns as int,
            interval: self.interval_ns as int,
            tolerance: self.tolerance_ns as int,
            deny_all: self.deny_all,
        }
    }
}

/// The state a fresh leaky bucket starts in at `now` nanoseconds: empty, so
/// the first arrival conforms at once. A quota with a zero limit or a zero
/// burst admits nothing. A rate finer than one unit per nanosecond is held to
/// one unit per nanosecond, so a burst is never handed out twice at once.
pub open spec fn leaky_initial(q: QuotaView, now: int) -> LeakyBucketView {
    if q.limit == 0 || q.burst == 0 {
        LeakyBucketView { tat: 0, interval: 0, tolerance: 0, deny_all: true }
    } else {
        let exact = clamp_u64(q.period as int) / (q.limit as int);
        let interval = if exact < 1 { 1 } else { exact };
        LeakyBucketView {
            tat: now,
            interval,
            tolerance: sat_mul(q.burst as int - 1, interval),
            deny_all: false,
        }
    }
}

/// Whether a leaky bucket's state is well formed.
pub open spec fn leaky_wf(s: LeakyBucketView) -> bool {
    &&& 0 <= s.tat <= u64::MAX
    &&& 0 <= s.interval <= u64::MAX
    &&& 0 <= s.tolerance <= u64::MAX
}

/// One request of `n` units at `now` nanoseconds: the next state and the
/// outcome.
///
/// Zero units are always admitted; nothing else is when the quota admits
/// nothing. A request whose units span more than the tolerance can never
/// conform. Otherwise it conforms when its last unit, counted from the later of
/// the arrival time and `now`, is due within the tolerance of `now`; it then
/// moves the arrival time `n` intervals on. A refusal waits until it would
/// conform. Sums and products saturate at `u64::MAX`.
pub open spec fn leaky_step(s: LeakyBucketView, n: int, now: int) -> (LeakyBucketView, Outcome) {
    if n == 0 {
        (s, Outcome::Allow)
    } else if s.deny_all {
        (s, Outcome::Deny(max_duration_nanos()))
    } else {
        let span = sat_mul(n - 1, s.interval);
        if span > s.tolerance {
            (s, Outcome::Deny(max_duration_nanos()))
        } else {
            let effective = if s.tat > now { s.tat } else { now };
            if sat_add(effective, span) <= sat_add(now, s.tolerance) {
                (
                    LeakyBucketView { tat: sat_add(effective, sat_mul(n, s.interval)), ..s },
                    Outcome::Allow,
                )
            } else {
                let ready = sat_sub(sat_add(effective, span), s.tolerance);
                (s, Outcome::Deny(sat_sub(ready, now)))
            }
        }
    }
}

impl LeakyBucket {
    /// Whether the state is well formed.
    pub open spec fn wf(&self) -> bool {
        leaky_wf(self@)
    }

    /// A fresh, empty leaky bucket for `quota` at `now`.
    pub fn new(quota: &Quota, now: Duration) -> (r: Self)
        ensures
            r@ == leaky_initial(quota@, clamp_u64(nanos_of(now) as int)),
            r.wf(),
    {
        let limit: u32 = quota.limit();
        let burst: u32 = quota.burst();
        if limit == 0 || burst == 0 {
            return LeakyBucket { tat_ns: 0, interval_ns: 0, tolerance_ns: 0, deny_all: true };
        }
        let period_ns: u64 = nanos_u64(quota.period());
        let exact: u64 = period_ns / limit as u64;
        let interval_ns: u64 = if exact < 1 { 1 } else { exact };
        let tolerance_ns: u64 = mul_sat((burst - 1) as u64, interval_ns);
        LeakyBucket { tat_ns: nanos_u64(now), interval_ns, tolerance_ns, deny_all: false }
    }

    /// Checks `n` units at elapsed time `now`, advancing the arrival time if
    /// admitted.
    pub fn acquire(&mut self, n: u32, now: Duration) -> (d: Decision)
        requires
            old(self).wf(),
        ensures
            final(self).wf(),
            (final(self)@, d@) == leaky_step(old(self)@, n as int, clamp_u64(nanos_of(now) as int)),
    {
        if n == 0 {
            return Decision::Allow;
        }
        if self.deny_all {
            return Decision::Deny { retry_after: duration_max() };
        }
        let now_ns: u64 = nanos_u64(now);
        let interval: u64 = self.interval_ns;
        let span: u64 = mul_sat((n - 1) as u64, interval);
        if span > self.tolerance_ns {
            return Decision::Deny { retry_after: duration_max() };
        }
        let effective: u64 = if self.tat_ns > now_ns {
            self.tat_ns
        } else {
            now_ns
        };
        if add_sat(effective, span) <= add_sat(now_ns, self.tolerance_ns) {
            self.tat_ns = add_sat(effective, mul_sat(n as u64, interval));
            return Decision::Allow;
        }
        let ready: u64 = sub_sat(add_sat(effective, span), self.tolerance_ns);
        Decision::Deny { retry_after: duration_from_nanos(sub_sat(ready, now_ns)) }
    }
}

/// The state after a sequence of requests, each `(units, nanoseconds)`.
pub open spec fn leaky_run(s: LeakyBucketView, reqs: Seq<(u32, u64)>) -> LeakyBucketView
    decreases reqs.len(),
{
    if reqs.len() == 0 {
        s
    } else {
        let prev = leaky_run(s, reqs.drop_last());
        leaky_step(prev, reqs.last().0 as int, reqs.last().1 as int).0
    }
}

/// The units admitted, over a sequence of requests, in the trailing window of
/// `width` nanoseconds that ends at `at`: at instants `t` with
/// `at - width < t <= at`.
pub open spec fn leaky_trailing(s: LeakyBucketView, reqs: Seq<(u32, u64)>, at: int, width: int) -> int
    decreases reqs.len(),
{
    if reqs.len() == 0 {
        0
    } else {
        let prev = leaky_run(s, reqs.drop_last());
        let n = reqs.last().0 as int;
        let t = reqs.last().1 as int;
        let counted = if leaky_step(prev, n, t).1 is Allow && at - width < t <= at {
            n
        } else {
            0
        };
        leaky_trailing(s, reqs.drop_last(), at, width) + counted
    }
}

/// The units admitted, over a sequence of requests, at instants after `lo`.
spec fn leaky_after(s: LeakyBucketView, reqs: Seq<(u32, u64)>, lo: int) -> int
    decreases reqs.len(),
{
    if reqs.len() == 0 {
        0
    } else {
        let prev = leaky_run(s, reqs.drop_last());
        let n = reqs.last().0 as int;
        let t = reqs.last().1 as int;
        let counted = if leaky_step(prev, n, t).1 is Allow && lo < t { n } else { 0 };
        leaky_after(s, reqs.drop_last(), lo) + counted
    }
}

/// Instants late enough that no sum in the bucket reaches `u64::MAX`.
pub open spec fn leaky_far_from_end(s: LeakyBucketView, t: int) -> bool {
    t + 2 * (s.tolerance + s.interval) <= u64::MAX
}

spec fn leaky_inv(s0: LeakyBucketView, start: int, reqs: Seq<(u32, u64)>) -> bool {
    let s = leaky_run(s0, reqs);
    let t = if reqs.len() == 0 { start } else { reqs.last().1 as int };
    &&& leaky_wf(s)
    &&& s.interval == s0.interval
    &&& s.tolerance == s0.tolerance
    &&& s.deny_all == s0.deny_all
    &&& s.tat <= t + s0.tolerance + s0.interval
    &&& forall|lo: int| #[trigger] leaky_after(s0, reqs, lo) > 0 ==> s.tat >= lo + 1 + leaky_after(s0, reqs, lo) * s0.interval
    &&& forall|lo: int| #[trigger] leaky_after(s0, reqs, lo) >= 0
}

proof fn lemma_times_prefix(start: int, reqs: Seq<(u32, u64)>)
    requires
        reqs.len() > 0,
        times_from(start, reqs),
    ensures
        times_from(start, reqs.drop_last()),
        (if reqs.drop_last().len() == 0 { start } else { reqs.drop_last().last().1 as int }) <= reqs.last().1,
{
    let pre = reqs.drop_last();
    assert forall|i: int| 0 <= i < pre.len() implies start <= #[trigger] pre[i].1 by {
        assert(pre[i] == reqs[i]);
    }
    assert forall|i: int, j: int| 0 <= i < j < pre.len() implies #[trigger] pre[i].1 <= #[trigger] pre[j].1 by {
        assert(pre[i] == reqs[i]);
        assert(pre[j] == reqs[j]);
    }
    if pre.len() > 0 {
        assert(pre.last() == reqs[reqs.len() - 2]);
        assert(reqs[reqs.len() - 2].1 <= reqs[reqs.len() - 1].1);
    } else {
        assert(start <= reqs[0].1);
    }
}

proof fn lemma_leaky_inv(s0: LeakyBucketView, start: int, reqs: Seq<(u32, u64)>)
    requires
        leaky_wf(s0),
        !s0.deny_all,
        s0.interval >= 1,
        s0.tat == start,
        leaky_far_from_end(s0, start),
        times_from(start, reqs),
        forall|i: int| 0 <= i < reqs.len() ==> leaky_far_from_end(s0, #[trigger] reqs[i].1 as int),
    ensures
        leaky_inv(s0, start, reqs),
    decreases reqs.len(),
{
    if reqs.len() == 0 {
        assert forall|lo: int| #[trigger] leaky_after(s0, reqs, lo) > 0 implies s0.tat >= lo + 1 + leaky_after(s0, reqs, lo) * s0.interval by {}
    } else {
        let pre = reqs.drop_last();
        lemma_times_prefix(start, reqs);
        assert forall|i: int| 0 <= i < pre.len() implies leaky_far_from_end(s0, #[trigger] pre[i].1 as int) by {
            assert(pre[i] == reqs[i]);
        }
        lemma_leaky_inv(s0, start, pre);
        let s = leaky_run(s0, pre);
        let n = reqs.last().0 as int;
        let t = reqs.last().1 as int;
        assert(leaky_far_from_end(s0, reqs[reqs.len() - 1].1 as int));
        let i = s0.interval;
        let tol = s0.tolerance;
        let (s2, o) = leaky_step(s, n, t);
        assert(leaky_run(s0, reqs) == s2);
        if o is Allow && n > 0 {
            let span = sat_mul(n - 1, i);
            assert(span <= tol);
            assert((n - 1) * i == span) by {
                if (n - 1) * i > u64::MAX {
                    assert(span == u64::MAX);
                }
            }
            let effective = if s.tat > t { s.tat } else { t };
            assert(n * i == (n - 1) * i + i) by (nonlinear_arith);
            assert(s2.tat == effective + n * i);
            assert(s2.tat <= t + tol + i);
            assert forall|lo: int| #[trigger] leaky_after(s0, reqs, lo) > 0 implies s2.tat >= lo + 1 + leaky_after(s0, reqs, lo) * i by {
                let u = leaky_after(s0, pre, lo);
                if lo < t {
                    assert(leaky_after(s0, reqs, lo) == u + n);
                    assert((u + n) * i == u * i + n * i) by (nonlinear_arith);
                    if u > 0 {
                    } else {
                        assert(u == 0);
                    }
                } else {
                    assert(leaky_after(s0, reqs, lo) == u);
                }
            }
            assert forall|lo: int| #[trigger] leaky_after(s0, reqs, lo) >= 0 by {
                assert(leaky_after(s0, pre, lo) >= 0);
            }
        } else {
            assert forall|lo: int| #[trigger] leaky_after(s0, reqs, lo) == leaky_after(s0, pre, lo) by {}
        }
    }
}

proof fn lemma_leaky_trailing_is_after(s0: LeakyBucketView, reqs: Seq<(u32, u64)>, at: int, width: int)
    requires
        forall|i: int| 0 <= i < reqs.len() ==> #[trigger] reqs[i].1 <= at,
    ensures
        leaky_trailing(s0, reqs, at, width) == leaky_after(s0, reqs, at - width),
    decreases reqs.len(),
{
    if reqs.len() > 0 {
        let pre = reqs.drop_last();
        assert forall|i: int| 0 <= i < pre.len() implies #[trigger] pre[i].1 <= at by {
            assert(pre[i] == reqs[i]);
        }
        lemma_leaky_trailing_is_after(s0, pre, at, width);
        assert(reqs[reqs.len() - 1].1 <= at);
    }
}

proof fn lemma_leaky_trailing_bound(s0: LeakyBucketView, start: int, reqs: Seq<(u32, u64)>, at: int, width: int)
    requires
        leaky_wf(s0),
        !s0.deny_all,
        s0.interval >= 1,
        s0.tat == start,
        leaky_far_from_end(s0, start),
        times_from(start, reqs),
        forall|i: int| 0 <= i < reqs.len() ==> leaky_far_from_end(s0, #[trigger] reqs[i].1 as int),
        width >= 1,
    ensures
        leaky_trailing(s0, reqs, at, width) * s0.interval < width + s0.tolerance + s0.interval,
    decreases reqs.len(),
{
    if reqs.len() > 0 {
        let pre = reqs.drop_last();
        let t = reqs.last().1 as int;
        lemma_times_prefix(start, reqs);
        assert forall|i: int| 0 <= i < pre.len() implies leaky_far_from_end(s0, #[trigger] pre[i].1 as int) by {
            assert(pre[i] == reqs[i]);
        }
        if t > at {
            lemma_leaky_trailing_bound(s0, start, pre, at, width);
            assert(leaky_trailing(s0, reqs, at, width) == leaky_trailing(s0, pre, at, width));
        } else {
            assert forall|i: int| 0 <= i < reqs.len() implies #[trigger] reqs[i].1 <= at by {
                if i < reqs.len() - 1 {
                    assert(reqs[i].1 <= reqs[reqs.len() - 1].1);
                }
            }
            lemma_leaky_trailing_is_after(s0, reqs, at, width);
            lemma_leaky_inv(s0, start, reqs);
            let u = leaky_after(s0, reqs, at - width);
            assert(u >= 0);
            if u > 0 {
                assert(leaky_run(s0, reqs).tat >= at - width + 1 + u * s0.interval);
            } else {
                assert(u * s0.interval == 0);
            }
        }
    }
}

/// The GCRA burst bound: starting from a fresh leaky bucket created at
/// `start`, for any sequence of requests whose instants never run backwards
/// (and stay far from the end of the 64-bit nanosecond range), the units
/// admitted in any trailing window of `width` nanoseconds, spaced one emission
/// interval apart, fit within the window plus the burst tolerance plus one
/// interval: `admitted * interval < width + tolerance + interval`. With the
/// tolerance `(burst - 1) * interval`, that is fewer than
/// `width / interval + burst` units.
pub proof fn lemma_leaky_bucket_burst_bound(
    quota: QuotaView,
    start: u64,
    reqs: Seq<(u32, u64)>,
    at: int,
    width: int,
)
    requires
        times_from(start as int, reqs),
        width >= 1,
        leaky_far_from_end(leaky_initial(quota, start as int), start as int),
        forall|i: int|
            0 <= i < reqs.len() ==> leaky_far_from_end(
                leaky_initial(quota, start as int),
                #[trigger] reqs[i].1 as int,
            ),
    ensures
        leaky_trailing(leaky_initial(quota, start as int), reqs, at, width) * leaky_initial(
            quota,
            start as int,
        ).interval < width + leaky_initial(quota, start as int).tolerance + leaky_initial(
            quota,
            start as int,
        ).interval,
{
    let s0 = leaky_initial(quota, start as int);
    if !s0.deny_all {
        assert(0 <= s0.interval <= u64::MAX) by {
            vstd::arithmetic::div_mod::lemma_div_nonincreasing(clamp_u64(quota.period as int), quota.limit as int);
            vstd::arithmetic::div_mod::lemma_div_pos_is_pos(clamp_u64(quota.period as int), quota.limit as int);
        }
    }
    if s0.deny_all || s0.interval == 0 {
        let k = leaky_trailing(s0, reqs, at, width);
        let i = s0.interval;
        assert(i == 0);
        assert(k * i == 0) by (nonlinear_arith)
            requires
                i == 0,
        ;
    } else {
        lemma_leaky_trailing_bound(s0, start as int, reqs, at, width);
    }
}

/// A refusal's wait is exact: if nothing else is admitted meanwhile, the same
/// request is refused at every instant before the wait has passed and admitted
/// at every instant after (for a refusal that is not for good, and an arrival
/// time that stays within 64 bits together with the tolerance).
pub proof fn lemma_leaky_wait_is_exact(s: LeakyBucketView, n: int, now: int, w: int, t: int)
    requires
        leaky_wf(s),
        1 <= n,
        0 <= now <= t,
        leaky_step(s, n, now).1 == Outcome::Deny(w),
        w < max_duration_nanos(),
        s.tat + s.tolerance <= u64::MAX,
    ensures
        leaky_step(s, n, t).1 is Allow <==> t >= now + w,
{
    let span = sat_mul(n - 1, s.interval);
    assert(!s.deny_all);
    assert(span <= s.tolerance);
    let effective = if s.tat > now { s.tat } else { now };
    if s.tat <= now {
        assert(sat_add(now, span) <= sat_add(now, s.tolerance));
        assert(false);
    }
    assert(effective == s.tat);
    assert(s.tat + span > now + s.tolerance);
    assert(w == s.tat + span - s.tolerance - now);
}

/// A fresh leaky bucket admits its whole burst at once: for any quota that
/// admits something (a positive limit and burst), a request of any `n` units
/// up to the burst, made at the instant the bucket was created, conforms, and
/// moves the arrival time `n` emission intervals on. The burst is the
/// configured one, whether or not it exceeds the limit.
pub proof fn lemma_fresh_leaky_admits_its_burst(q: QuotaView, now: int, n: int)
    requires
        q.limit >= 1,
        q.burst >= 1,
        1 <= n <= q.burst,
        0 <= now <= u64::MAX,
    ensures
        leaky_step(leaky_initial(q, now), n, now).1 is Allow,
        leaky_step(leaky_initial(q, now), n, now).0.tat == sat_add(
            now,
            sat_mul(n, leaky_initial(q, now).interval),
        ),
{
    lemma_leaky_interval(q, now);
    let s = leaky_initial(q, now);
    let i = s.interval;
    assert(i >= 1);
    assert((n - 1) * i <= (q.burst - 1) * i) by (nonlinear_arith)
        requires
            n <= q.burst,
            i >= 1,
    ;
    assert((n - 1) * i >= 0) by (nonlinear_arith)
        requires
            n >= 1,
            i >= 1,
    ;
    assert(sat_mul(n - 1, i) <= sat_mul(q.burst - 1, i));
}

/// The emission interval of a bucket that admits something is the period
/// shared evenly among the limit's units, rounded down, and never less than a
/// nanosecond: `interval * limit <= period < (interval + 1) * limit` whenever
/// the period is at least the limit in nanoseconds.
pub proof fn lemma_leaky_interval(q: QuotaView, now: int)
    requires
        q.limit >= 1,
        q.burst >= 1,
    ensures
        leaky_initial(q, now).interval >= 1,
        !leaky_initial(q, now).deny_all,
        clamp_u64(q.period as int) >= q.limit ==> leaky_initial(q, now).interval * q.limit <= clamp_u64(
            q.period as int,
        ) < (leaky_initial(q, now).interval + 1) * q.limit,
        clamp_u64(q.period as int) < q.limit ==> leaky_initial(q, now).interval == 1,
{
    let p = clamp_u64(q.period as int);
    let l = q.limit as int;
    assert(p >= 0);
    vstd::arithmetic::div_mod::lemma_fundamental_div_mod(p, l);
    vstd::arithmetic::div_mod::lemma_mod_bound(p, l);
    if p >= l {
        assert(p / l >= 1) by {
            vstd::arithmetic::div_mod::lemma_div_is_ordered(l, p, l);
            vstd::arithmetic::div_mod::lemma_div_by_self(l);
        }
        assert((p / l) * l <= p < (p / l + 1) * l) by (nonlinear_arith)
            requires
                p == l * (p / l) + p % l,
                0 <= p % l < l,
        ;
    } else {
        assert(p / l == 0) by {
            vstd::arithmetic::div_mod::lemma_basic_div(p, l);
        }
    }
}

/// And no more than its burst: a request of more units than the burst is
/// refused for good, whenever a burst's worth of emission intervals fits in 64
/// bits of nanoseconds.
pub proof fn lemma_leaky_refuses_beyond_burst(q: QuotaView, now: int, s: LeakyBucketView, n: int)
    requires
        q.limit >= 1,
        q.burst >= 1,
        n > q.burst,
        q.burst * leaky_initial(q, 0).interval <= u64::MAX,
        s.interval == leaky_initial(q, 0).interval,
        s.tolerance == leaky_initial(q, 0).tolerance,
        !s.deny_all,
    ensures
        leaky_step(s, n, now).1 == Outcome::Deny(max_duration_nanos()),
{
    lemma_leaky_interval(q, 0);
    let i = s.interval;
    let b = q.burst as int;
    assert((b - 1) * i < b * i) by (nonlinear_arith)
        requires
            i >= 1,
    ;
    assert(b * i <= (n - 1) * i) by (nonlinear_arith)
        requires
            n - 1 >= b,
            i >= 1,
    ;
    assert(sat_mul(n - 1, i) > sat_mul(b - 1, i));
}

} // verus!
