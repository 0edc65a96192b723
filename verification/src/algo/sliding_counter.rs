//! Sliding window counter.
//!
//! Approximates a sliding window in constant memory by blending the current
//! aligned window's count with a time-weighted share of the previous window's:
//! the previous count weighs `(period - offset) / period`, where `offset` is
//! how far `now` lies into the current window. The weighted estimate is
//! compared exactly, in integers. It ignores the quota's `burst`.

use core::time::Duration;
use vstd::prelude::*;

use crate::decision::{Decision, Outcome};
use crate::quota::{Quota, QuotaView};
use crate::time::{clamp_u64, duration_from_nanos, duration_max, max_duration_nanos, nanos_of, nanos_u64};
use crate::algo::fixed_window::{times_from, window_length};

verus! {

/// A sliding counter as mathematics.
pub struct SlidingCounterView {
    /// Number of the aligned window `curr` counts.
    pub window: int,
    /// Units admitted in the window before it.
    pub prev: int,
    /// Units admitted in the current window.
    pub curr: int,
    /// Window length, nanoseconds (at least 1).
    pub period: int,
    /// Units admitted per window.
    pub limit: int,
}

/// Sliding-counter state for one key.
pub struct SlidingCounter {
    window: u64,
    prev: u32,
    curr: u32,
    period_ns: u64,
    limit: u32,
}

impl View for SlidingCounter {
    type V = SlidingCounterView;

    closed spec fn view(&self) -> SlidingCounterView {
        SlidingCounterView {
            window: self.window as int,
            prev: self.prev as int,
            curr: self.curr as int,
            period: self.period_ns as int,
            limit: self.limit as int,
        }
    }
}

/// The state a fresh sliding counter starts in at `now` nanoseconds.
pub open spec fn sliding_counter_initial(q: QuotaView, now: int) -> SlidingCounterView {
    SlidingCounterView {
        window: now / window_length(q),
        prev: 0,
        curr: 0,
        period: window_length(q),
        limit: q.limit as int,
    }
}

/// Whether a sliding counter's state is well formed.
pub open spec fn sliding_counter_wf(s: SlidingCounterView) -> bool {
    &&& 1 <= s.period <= u64::MAX
    &&& 0 <= s.limit <= u32::MAX
    &&& 0 <= s.window <= u64::MAX
    &&& 0 <= s.prev <= u32::MAX
    &&& 0 <= s.curr <= s.limit
}

/// The state rolled forward to the window holding `now`: if `now` lies in a
/// later window, the current count becomes the previous one (or zero, when a
/// whole window was skipped) and the current count restarts.
pub open spec fn roll(s: SlidingCounterView, now: int) -> SlidingCounterView {
    let w = now / s.period;
    if w > s.window {
        SlidingCounterView {
            window: w,
            prev: if w == s.window + 1 { s.curr } else { 0 },
            curr: 0,
            ..s
        }
    } else {
        s
    }
}

/// Whether `n` more units fit at `now`: the previous count weighted by the
/// share of the current window still ahead, plus the current count, plus `n`,
/// stays within the limit. Scaled by the period so it is exact.
pub open spec fn fits(s: SlidingCounterView, n: int, now: int) -> bool {
    let offset = now % s.period;
    s.prev * (s.period - offset) + (s.curr + n) * s.period <= s.limit * s.period
}

/// The wait before a refused request of `n` units at `now` would fit, from
/// state `r` (rolled forward to `now`), in nanoseconds: the earliest instant at
/// which the weighted estimate has room, if nothing else is admitted meanwhile.
///
/// Within the current window the previous window's share fades; the request
/// fits once that share is at most the room left. Failing that, it fits in the
/// next window once the current count, now the previous one, has faded enough.
/// A wait is never reported as longer than one period: where the request only
/// fits later than that, the wait is one period, and the request is still
/// refused at its end (`counter_least_wait` is the uncapped least wait).
pub open spec fn counter_wait(r: SlidingCounterView, n: int, now: int) -> int {
    let p = r.period;
    let offset = now % p;
    let room = r.limit - r.curr - n;
    let share = if r.prev > 0 && room >= 0 { (room * p) / r.prev } else { 0 };
    if r.prev > 0 && room >= 0 && share >= 1 {
        (p - share) - offset
    } else if r.window != now / p {
        p - offset
    } else {
        let room2 = r.limit - n;
        let next = if r.curr <= room2 { 0 } else { p - (room2 * p) / r.curr };
        if next < offset {
            (p - offset) + next
        } else {
            p
        }
    }
}

/// The least wait before a refused request of `n` units at `now` would fit,
/// from state `r` (rolled forward to `now`, holding `now`'s window), if nothing
/// else is admitted meanwhile, in nanoseconds. `counter_wait` reports it when
/// it is shorter than a period, and one period otherwise.
pub open spec fn counter_least_wait(r: SlidingCounterView, n: int, now: int) -> int {
    let p = r.period;
    let offset = now % p;
    let room = r.limit - r.curr - n;
    let share = if r.prev > 0 && room >= 0 { (room * p) / r.prev } else { 0 };
    if r.prev > 0 && room >= 0 && share >= 1 {
        (p - share) - offset
    } else {
        let room2 = r.limit - n;
        let next = if r.curr <= room2 { 0 } else { p - (room2 * p) / r.curr };
        (p - offset) + next
    }
}

/// One request of `n` units at `now` nanoseconds: the next state and the
/// outcome.
///
/// Zero units are always admitted; more than `limit` (or any when `limit` is
/// zero) never are. Otherwise the windows roll forward to `now`, and the
/// request is admitted if it fits the weighted estimate. A refusal waits as
/// `counter_wait` says.
pub open spec fn sliding_counter_step(s: SlidingCounterView, n: int, now: int) -> (SlidingCounterView, Outcome) {
    if n == 0 {
        (s, Outcome::Allow)
    } else if s.limit == 0 || n > s.limit {
        (s, Outcome::Deny(max_duration_nanos()))
    } else {
        let r = roll(s, now);
        if fits(r, n, now) {
            (SlidingCounterView { curr: r.curr + n, ..r }, Outcome::Allow)
        } else {
            (r, Outcome::Deny(counter_wait(r, n, now)))
        }
    }
}

/// `counter_wait` for a refused request, computed.
fn refused_wait(prev: u32, curr: u32, n: u32, limit: u32, period_ns: u64, window: u64, now_ns: u64) -> (w: u64)
    requires
        period_ns >= 1,
        1 <= n <= limit,
        curr <= limit,
        !fits(SlidingCounterView { window: window as int, prev: prev as int, curr: curr as int, period: period_ns as int, limit: limit as int }, n as int, now_ns as int),
    ensures
        w as int == counter_wait(
            SlidingCounterView { window: window as int, prev: prev as int, curr: curr as int, period: period_ns as int, limit: limit as int },
            n as int,
            now_ns as int,
        ),
{
    let ghost r = SlidingCounterView { window: window as int, prev: prev as int, curr: curr as int, period: period_ns as int, limit: limit as int };
    let p: u128 = period_ns as u128;
    let offset: u64 = now_ns % period_ns;
    let off: u128 = offset as u128;
    let wanted: u128 = curr as u128 + n as u128;
    let lim: u128 = limit as u128;
    if prev > 0 && wanted <= lim {
        let room: u128 = lim - wanted;
        proof {
            assert(room * p <= 0xFFFF_FFFFu128 * 0xFFFF_FFFF_FFFF_FFFFu128) by (nonlinear_arith)
                requires
                    room <= 0xFFFF_FFFFu128,
                    p <= 0xFFFF_FFFF_FFFF_FFFFu128,
            ;
        }
        let share: u128 = room * p / prev as u128;
        if share >= 1 {
            proof {
                let pv = prev as int;
                let sh = share as int;
                let rp = (room * p) as int;
                let rem = (p - off) as int;
                assert(pv * rem > rp) by (nonlinear_arith)
                    requires
                        pv * rem + (wanted as int) * (p as int) > (lim as int) * (p as int),
                        rp == ((lim - wanted) as int) * (p as int),
                        wanted <= lim,
                ;
                assert(sh < rem) by (nonlinear_arith)
                    requires
                        sh == rp / pv,
                        pv * rem > rp,
                        pv >= 1,
                        rp >= 0,
                ;
            }
            return (p - share - off) as u64;
        }
    }
    if window != now_ns / period_ns {
        return period_ns - offset;
    }
    let room2: u128 = lim - n as u128;
    let next: u128 = if (curr as u128) <= room2 {
        0
    } else {
        proof {
            assert(room2 * p <= 0xFFFF_FFFFu128 * 0xFFFF_FFFF_FFFF_FFFFu128) by (nonlinear_arith)
                requires
                    room2 <= 0xFFFF_FFFFu128,
                    p <= 0xFFFF_FFFF_FFFF_FFFFu128,
            ;
            let q = (room2 * p) as int / curr as int;
            assert(q <= p) by (nonlinear_arith)
                requires
                    q == (room2 * p) as int / curr as int,
                    room2 < curr,
                    p >= 1,
                    room2 >= 0,
            ;
        }
        p - room2 * p / (curr as u128)
    };
    if next < off {
        ((p - off) + next) as u64
    } else {
        period_ns
    }
}

impl SlidingCounter {
    /// Whether the state is well formed.
    pub open spec fn wf(&self) -> bool {
        sliding_counter_wf(self@)
    }

    /// A fresh sliding counter for `quota`, anchored at the window holding
    /// `now`.
    pub fn new(quota: &Quota, now: Duration) -> (r: Self)
        ensures
            r@ == sliding_counter_initial(quota@, clamp_u64(nanos_of(now) as int)),
            r.wf(),
    {
        let p: u64 = nanos_u64(quota.period());
        let period_ns: u64 = if p < 1 { 1 } else { p };
        let now_ns: u64 = nanos_u64(now);
        SlidingCounter { window: now_ns / period_ns, prev: 0, curr: 0, period_ns, limit: quota.limit() }
    }

    /// Checks `n` units at elapsed time `now`, counting them if admitted. The
    /// windows roll forward even when the request is refused.
    pub fn acquire(&mut self, n: u32, now: Duration) -> (d: Decision)
        requires
            old(self).wf(),
        ensures
            final(self).wf(),
            (final(self)@, d@) == sliding_counter_step(
                old(self)@,
                n as int,
                clamp_u64(nanos_of(now) as int),
            ),
    {
        if n == 0 {
            return Decision::Allow;
        }
        if self.limit == 0 || n > self.limit {
            return Decision::Deny { retry_after: duration_max() };
        }
        let now_ns: u64 = nanos_u64(now);
        let window_number: u64 = now_ns / self.period_ns;
        let offset: u64 = now_ns % self.period_ns;
        if window_number > self.window {
            self.prev = if window_number == self.window + 1 {
                self.curr
            } else {
                0
            };
            self.curr = 0;
            self.window = window_number;
        }
        let period: u128 = self.period_ns as u128;
        let remaining: u128 = (self.period_ns - offset) as u128;
        let prev: u128 = self.prev as u128;
        let wanted: u128 = self.curr as u128 + n as u128;
        let limit: u128 = self.limit as u128;
        proof {
            assert(prev * remaining <= 0xFFFF_FFFFu128 * 0xFFFF_FFFF_FFFF_FFFFu128) by (nonlinear_arith)
                requires
                    prev <= 0xFFFF_FFFFu128,
                    remaining <= 0xFFFF_FFFF_FFFF_FFFFu128,
            ;
            assert(wanted * period <= 0x1_FFFF_FFFEu128 * 0xFFFF_FFFF_FFFF_FFFFu128) by (nonlinear_arith)
                requires
                    wanted <= 0x1_FFFF_FFFEu128,
                    period <= 0xFFFF_FFFF_FFFF_FFFFu128,
            ;
            assert(limit * period <= 0xFFFF_FFFFu128 * 0xFFFF_FFFF_FFFF_FFFFu128) by (nonlinear_arith)
                requires
                    limit <= 0xFFFF_FFFFu128,
                    period <= 0xFFFF_FFFF_FFFF_FFFFu128,
            ;
        }
        let weighted: u128 = prev * remaining + wanted * period;
        let ceiling: u128 = limit * period;
        if weighted <= ceiling {
            proof {
                assert(wanted <= limit) by (nonlinear_arith)
                    requires
                        wanted * period <= limit * period,
                        period >= 1,
                ;
            }
            self.curr = self.curr + n;
            return Decision::Allow;
        }
        let wait: u64 = refused_wait(self.prev, self.curr, n, self.limit, self.period_ns, self.window, now_ns);
        Decision::Deny { retry_after: duration_from_nanos(wait) }
    }
}

/// The state after a sequence of requests, each `(units, nanoseconds)`.
pub open spec fn sliding_counter_run(s: SlidingCounterView, reqs: Seq<(u32, u64)>) -> SlidingCounterView
    decreases reqs.len(),
{
    if reqs.len() == 0 {
        s
    } else {
        let prev = sliding_counter_run(s, reqs.drop_last());
        sliding_counter_step(prev, reqs.last().0 as int, reqs.last().1 as int).0
    }
}

/// The units admitted, over a sequence of requests, at instants in the aligned
/// window number `w`.
pub open spec fn sliding_counter_admitted(s: SlidingCounterView, reqs: Seq<(u32, u64)>, w: int) -> int
    decreases reqs.len(),
{
    if reqs.len() == 0 {
        0
    } else {
        let prev = sliding_counter_run(s, reqs.drop_last());
        let n = reqs.last().0 as int;
        let t = reqs.last().1 as int;
        let counted = if sliding_counter_step(prev, n, t).1 is Allow && t / s.period == w {
            n
        } else {
            0
        };
        sliding_counter_admitted(s, reqs.drop_last(), w) + counted
    }
}

/// The units admitted, over a sequence of requests, in the trailing window
/// that ends at `at`: at instants `t` with `at - period < t <= at`.
pub open spec fn sliding_counter_trailing(s: SlidingCounterView, reqs: Seq<(u32, u64)>, at: int) -> int
    decreases reqs.len(),
{
    if reqs.len() == 0 {
        0
    } else {
        let prev = sliding_counter_run(s, reqs.drop_last());
        let n = reqs.last().0 as int;
        let t = reqs.last().1 as int;
        let counted = if sliding_counter_step(prev, n, t).1 is Allow && at - s.period < t <= at {
            n
        } else {
            0
        };
        sliding_counter_trailing(s, reqs.drop_last(), at) + counted
    }
}

spec fn sliding_counter_inv(s0: SlidingCounterView, start: int, reqs: Seq<(u32, u64)>) -> bool {
    let s = sliding_counter_run(s0, reqs);
    let t = if reqs.len() == 0 { start } else { reqs.last().1 as int };
    &&& sliding_counter_wf(s)
    &&& s.period == s0.period
    &&& s.limit == s0.limit
    &&& s.window <= t / s0.period
    &&& s.curr == sliding_counter_admitted(s0, reqs, s.window)
    &&& forall|w: int| #[trigger] sliding_counter_admitted(s0, reqs, w) <= s.limit
    &&& forall|w: int| w > s.window ==> #[trigger] sliding_counter_admitted(s0, reqs, w) == 0
}

proof fn lemma_sliding_counter_inv(s0: SlidingCounterView, start: int, reqs: Seq<(u32, u64)>)
    requires
        sliding_counter_wf(s0),
        0 <= start <= u64::MAX,
        s0.window == start / s0.period,
        s0.curr == 0,
        times_from(start, reqs),
    ensures
        sliding_counter_inv(s0, start, reqs),
    decreases reqs.len(),
{
    if reqs.len() == 0 {
        assert forall|w: int| #[trigger] sliding_counter_admitted(s0, reqs, w) <= s0.limit by {}
    } else {
        let pre = reqs.drop_last();
        assert(times_from(start, pre)) by {
            assert forall|i: int| 0 <= i < pre.len() implies start <= #[trigger] pre[i].1 by {
                assert(pre[i] == reqs[i]);
            }
            assert forall|i: int, j: int| 0 <= i < j < pre.len() implies #[trigger] pre[i].1 <= #[trigger] pre[j].1 by {
                assert(pre[i] == reqs[i]);
                assert(pre[j] == reqs[j]);
            }
        }
        lemma_sliding_counter_inv(s0, start, pre);
        let s = sliding_counter_run(s0, pre);
        let n = reqs.last().0 as int;
        let t = reqs.last().1 as int;
        let p = s0.period;
        let t0 = if pre.len() == 0 { start } else { pre.last().1 as int };
        assert(t0 <= t) by {
            if pre.len() > 0 {
                assert(pre.last() == reqs[reqs.len() - 2]);
                assert(reqs[reqs.len() - 2].1 <= reqs[reqs.len() - 1].1);
            } else {
                assert(start <= reqs[0].1);
            }
        }
        assert(t0 / p <= t / p) by {
            vstd::arithmetic::div_mod::lemma_div_is_ordered(t0, t, p);
        }
        assert(t / p <= u64::MAX) by {
            vstd::arithmetic::div_mod::lemma_div_nonincreasing(t, p);
        }
        let (s2, o) = sliding_counter_step(s, n, t);
        assert(sliding_counter_run(s0, reqs) == s2);
        if n == 0 || s.limit == 0 || n > s.limit {
            assert forall|w: int| #[trigger] sliding_counter_admitted(s0, reqs, w) == sliding_counter_admitted(s0, pre, w) by {}
        } else {
            let r = roll(s, t);
            assert(r.curr == sliding_counter_admitted(s0, pre, r.window));
            if o is Allow {
                assert(r.curr + n <= r.limit) by (nonlinear_arith)
                    requires
                        r.prev * (r.period - t % r.period) + (r.curr + n) * r.period <= r.limit * r.period,
                        r.prev >= 0,
                        r.period - t % r.period >= 0,
                        r.period >= 1,
                ;
                assert forall|w: int| #[trigger] sliding_counter_admitted(s0, reqs, w) == sliding_counter_admitted(s0, pre, w) + if w == t / p { n } else { 0 } by {}
            } else {
                assert forall|w: int| #[trigger] sliding_counter_admitted(s0, reqs, w) == sliding_counter_admitted(s0, pre, w) by {}
            }
        }
    }
}

proof fn lemma_trailing_two_windows(s0: SlidingCounterView, reqs: Seq<(u32, u64)>, at: int)
    requires
        s0.period >= 1,
    ensures
        sliding_counter_trailing(s0, reqs, at) <= sliding_counter_admitted(s0, reqs, at / s0.period)
            + sliding_counter_admitted(s0, reqs, at / s0.period - 1),
        sliding_counter_trailing(s0, reqs, at) >= 0,
    decreases reqs.len(),
{
    if reqs.len() > 0 {
        let pre = reqs.drop_last();
        lemma_trailing_two_windows(s0, pre, at);
        let p = s0.period;
        let t = reqs.last().1 as int;
        let q = at / p;
        if at - p < t <= at {
            vstd::arithmetic::div_mod::lemma_div_is_ordered(t, at, p);
            vstd::arithmetic::div_mod::lemma_fundamental_div_mod(at, p);
            vstd::arithmetic::div_mod::lemma_fundamental_div_mod(t, p);
            vstd::arithmetic::div_mod::lemma_mod_bound(at, p);
            vstd::arithmetic::div_mod::lemma_mod_bound(t, p);
            assert(t / p >= q - 1) by (nonlinear_arith)
                requires
                    at == p * q + at % p,
                    t == p * (t / p) + t % p,
                    0 <= at % p < p,
                    0 <= t % p < p,
                    at - p < t,
                    p >= 1,
            ;
        }
    }
}

/// Over a sequence of requests whose instants never run backwards, starting
/// from a fresh sliding counter created at `start`: every aligned window admits
/// at most the limit, and so every trailing window of one period (which meets at
/// most two aligned windows) admits at most twice the limit.
pub proof fn lemma_sliding_counter_bounds(quota: QuotaView, start: u64, reqs: Seq<(u32, u64)>, w: int, at: int)
    requires
        times_from(start as int, reqs),
    ensures
        sliding_counter_admitted(sliding_counter_initial(quota, start as int), reqs, w) <= quota.limit,
        sliding_counter_trailing(sliding_counter_initial(quota, start as int), reqs, at) <= 2 * quota.limit,
{
    let s0 = sliding_counter_initial(quota, start as int);
    assert(start as int / window_length(quota) <= u64::MAX) by {
        vstd::arithmetic::div_mod::lemma_div_nonincreasing(start as int, window_length(quota));
    }
    lemma_sliding_counter_inv(s0, start as int, reqs);
    lemma_trailing_two_windows(s0, reqs, at);
}


/// The reported wait is the least wait, capped at one period.
pub proof fn lemma_counter_wait_caps_least(r: SlidingCounterView, n: int, now: int)
    requires
        sliding_counter_wf(r),
        1 <= n <= r.limit,
        0 <= now,
        r.window == now / r.period,
    ensures
        counter_wait(r, n, now) == if counter_least_wait(r, n, now) < r.period {
            counter_least_wait(r, n, now)
        } else {
            r.period
        },
{
    let p = r.period;
    vstd::arithmetic::div_mod::lemma_mod_bound(now, p);
    let room = r.limit - r.curr - n;
    if r.prev > 0 && room >= 0 {
        let share = (room * p) / r.prev;
        assert(share >= 0) by (nonlinear_arith)
            requires
                share == (room * p) / r.prev,
                room >= 0,
                p >= 1,
                r.prev >= 1,
        ;
    }
}

/// The least wait suffices: once it has passed, if nothing else was admitted
/// meanwhile, the same request fits.
pub proof fn lemma_counter_wait_suffices(r: SlidingCounterView, n: int, now: int)
    requires
        sliding_counter_wf(r),
        1 <= n <= r.limit,
        0 <= now,
        r.window == now / r.period,
        !fits(r, n, now),
    ensures
        fits(roll(r, now + counter_least_wait(r, n, now)), n, now + counter_least_wait(r, n, now)),
{
    let p = r.period;
    let w = now / p;
    let off = now % p;
    vstd::arithmetic::div_mod::lemma_fundamental_div_mod(now, p);
    vstd::arithmetic::div_mod::lemma_mod_bound(now, p);
    assert(now == w * p + off) by (nonlinear_arith)
        requires
            now == p * w + off,
    ;
    let d = counter_least_wait(r, n, now);
    let room = r.limit - r.curr - n;
    let share = if r.prev > 0 && room >= 0 { (room * p) / r.prev } else { 0 };
    if r.prev > 0 && room >= 0 && share >= 1 {
        let off2 = p - share;
        assert(now + d == w * p + off2);
        assert(room * p >= 0) by (nonlinear_arith)
            requires
                room >= 0,
                p >= 1,
        ;
        assert(r.prev * share <= room * p) by (nonlinear_arith)
            requires
                share == (room * p) / r.prev,
                r.prev >= 1,
                room * p >= 0,
        ;
        assert(share < p - off) by (nonlinear_arith)
            requires
                share == (room * p) / r.prev,
                r.prev * (p - off) + (r.curr + n) * p > r.limit * p,
                room == r.limit - r.curr - n,
                r.prev >= 1,
                room * p >= 0,
        ;
        vstd::arithmetic::div_mod::lemma_fundamental_div_mod_converse(now + d, p, w, off2);
        assert(roll(r, now + d) == r);
        assert(r.prev * (p - off2) + (r.curr + n) * p <= r.limit * p) by (nonlinear_arith)
            requires
                p - off2 == share,
                r.prev * share <= room * p,
                room == r.limit - r.curr - n,
        ;
    } else {
        let room2 = r.limit - n;
        let next = if r.curr <= room2 { 0 } else { p - (room2 * p) / r.curr };
        assert((w + 1) * p == w * p + p) by (nonlinear_arith);
        assert((w + 2) * p == w * p + 2 * p) by (nonlinear_arith);
        assert(now + d == (w + 1) * p + next);
        if r.curr > room2 {
            let q0 = (room2 * p) / r.curr;
            assert(0 <= q0 <= p) by (nonlinear_arith)
                requires
                    q0 == (room2 * p) / r.curr,
                    room2 < r.curr,
                    room2 >= 0,
                    p >= 1,
            ;
        }
        if next == p {
            vstd::arithmetic::div_mod::lemma_fundamental_div_mod_converse(now + d, p, w + 2, 0);
            let r2 = roll(r, now + d);
            assert(r2.prev == 0 && r2.curr == 0);
            assert(n * p <= r.limit * p) by (nonlinear_arith)
                requires
                    n <= r.limit,
                    p >= 1,
            ;
        } else {
            vstd::arithmetic::div_mod::lemma_fundamental_div_mod_converse(now + d, p, w + 1, next);
            let r2 = roll(r, now + d);
            assert(r2.prev == r.curr && r2.curr == 0);
            if r.curr <= room2 {
                assert(r.curr * (p - next) + n * p <= r.limit * p) by (nonlinear_arith)
                    requires
                        next == 0,
                        r.curr <= room2,
                        room2 == r.limit - n,
                        p >= 1,
                ;
            } else {
                let q = (room2 * p) / r.curr;
                assert(room2 * p >= 0) by (nonlinear_arith)
                    requires
                        room2 >= 0,
                        p >= 1,
                ;
                assert(r.curr * q <= room2 * p) by (nonlinear_arith)
                    requires
                        q == (room2 * p) / r.curr,
                        r.curr >= 1,
                        room2 * p >= 0,
                ;
                assert(r.curr * (p - next) + n * p <= r.limit * p) by (nonlinear_arith)
                    requires
                        p - next == q,
                        r.curr * q <= room2 * p,
                        room2 == r.limit - n,
                ;
            }
        }
    }
}

/// No earlier retry succeeds: if nothing else is admitted meanwhile, the same
/// request is still refused at every instant before the least wait has
/// passed, and so before the reported one.
pub proof fn lemma_counter_wait_is_least(r: SlidingCounterView, n: int, now: int, d: int)
    requires
        sliding_counter_wf(r),
        1 <= n <= r.limit,
        0 <= now,
        r.window == now / r.period,
        !fits(r, n, now),
        0 <= d < counter_least_wait(r, n, now),
    ensures
        !fits(roll(r, now + d), n, now + d),
{
    let p = r.period;
    let w = now / p;
    let off = now % p;
    let t = now + d;
    vstd::arithmetic::div_mod::lemma_fundamental_div_mod(now, p);
    vstd::arithmetic::div_mod::lemma_mod_bound(now, p);
    assert(now == w * p + off) by (nonlinear_arith)
        requires
            now == p * w + off,
    ;
    let room = r.limit - r.curr - n;
    let share = if r.prev > 0 && room >= 0 { (room * p) / r.prev } else { 0 };
    if r.prev > 0 && room >= 0 && share >= 1 {
        let off2 = off + d;
        assert(off2 < p - share);
        vstd::arithmetic::div_mod::lemma_fundamental_div_mod_converse(t, p, w, off2);
        assert(roll(r, t) == r);
        assert(room * p >= 0) by (nonlinear_arith)
            requires
                room >= 0,
                p >= 1,
        ;
        assert(r.prev * (share + 1) > room * p) by (nonlinear_arith)
            requires
                share == (room * p) / r.prev,
                r.prev >= 1,
                room * p >= 0,
        ;
        assert(r.prev * (p - off2) >= r.prev * (share + 1)) by (nonlinear_arith)
            requires
                p - off2 >= share + 1,
                r.prev >= 1,
        ;
        assert(r.prev * (p - off2) + (r.curr + n) * p > r.limit * p) by (nonlinear_arith)
            requires
                r.prev * (p - off2) > room * p,
                room == r.limit - r.curr - n,
        ;
    } else {
        let room2 = r.limit - n;
        let next = if r.curr <= room2 { 0 } else { p - (room2 * p) / r.curr };
        if r.curr > room2 {
            let q0 = (room2 * p) / r.curr;
            assert(0 <= q0 <= p) by (nonlinear_arith)
                requires
                    q0 == (room2 * p) / r.curr,
                    room2 < r.curr,
                    room2 >= 0,
                    p >= 1,
            ;
        }
        assert(d < (p - off) + next);
        if d < p - off {
            let off2 = off + d;
            vstd::arithmetic::div_mod::lemma_fundamental_div_mod_converse(t, p, w, off2);
            assert(roll(r, t) == r);
            if r.prev == 0 {
                assert(r.prev * (p - off2) == 0);
                assert(r.prev * (p - off) == 0);
            } else if room < 0 {
                assert(r.prev * (p - off2) >= 0) by (nonlinear_arith)
                    requires
                        r.prev >= 0,
                        p - off2 >= 0,
                ;
                assert((r.curr + n) * p > r.limit * p) by (nonlinear_arith)
                    requires
                        r.curr + n > r.limit,
                        p >= 1,
                ;
            } else {
                assert(share == 0);
                assert(room * p < r.prev) by (nonlinear_arith)
                    requires
                        share == (room * p) / r.prev,
                        share == 0,
                        r.prev >= 1,
                        room >= 0,
                        p >= 1,
                ;
                assert(r.prev * (p - off2) >= r.prev) by (nonlinear_arith)
                    requires
                        p - off2 >= 1,
                        r.prev >= 1,
                ;
                assert(r.prev * (p - off2) + (r.curr + n) * p > r.limit * p) by (nonlinear_arith)
                    requires
                        r.prev * (p - off2) > room * p,
                        room == r.limit - r.curr - n,
                ;
            }
        } else {
            let x = d - (p - off);
            assert(0 <= x < next);
            assert(t == (w + 1) * p + x) by (nonlinear_arith)
                requires
                    now == w * p + off,
                    t == now + d,
                    x == d - (p - off),
            ;
            vstd::arithmetic::div_mod::lemma_fundamental_div_mod_converse(t, p, w + 1, x);
            let r2 = roll(r, t);
            assert(r2.prev == r.curr && r2.curr == 0);
            assert(r.curr > room2);
            let q = (room2 * p) / r.curr;
            assert(room2 * p >= 0) by (nonlinear_arith)
                requires
                    room2 >= 0,
                    p >= 1,
            ;
            assert(r.curr * (q + 1) > room2 * p) by (nonlinear_arith)
                requires
                    q == (room2 * p) / r.curr,
                    r.curr >= 1,
                    room2 * p >= 0,
            ;
            assert(r.curr * (p - x) >= r.curr * (q + 1)) by (nonlinear_arith)
                requires
                    p - x >= q + 1,
                    r.curr >= 1,
            ;
            assert(r.curr * (p - x) + n * p > r.limit * p) by (nonlinear_arith)
                requires
                    r.curr * (p - x) > room2 * p,
                    room2 == r.limit - n,
            ;
        }
    }
}

/// A refused request's reported wait is at least a nanosecond and at most one
/// period.
proof fn lemma_counter_wait_bounds(r: SlidingCounterView, n: int, now: int)
    requires
        sliding_counter_wf(r),
        1 <= n <= r.limit,
        0 <= now,
        !fits(r, n, now),
    ensures
        1 <= counter_wait(r, n, now) <= r.period,
{
    let p = r.period;
    let off = now % p;
    vstd::arithmetic::div_mod::lemma_mod_bound(now, p);
    let room = r.limit - r.curr - n;
    if r.prev > 0 && room >= 0 {
        let share = (room * p) / r.prev;
        assert(room * p >= 0) by (nonlinear_arith)
            requires
                room >= 0,
                p >= 1,
        ;
        assert(share >= 0 && r.prev * share <= room * p) by (nonlinear_arith)
            requires
                share == (room * p) / r.prev,
                r.prev >= 1,
                room * p >= 0,
        ;
        assert(r.prev * (p - off) > room * p) by (nonlinear_arith)
            requires
                r.prev * (p - off) + (r.curr + n) * p > r.limit * p,
                room == r.limit - r.curr - n,
        ;
        assert(share < p - off) by (nonlinear_arith)
            requires
                r.prev * share <= room * p,
                r.prev * (p - off) > room * p,
                r.prev >= 1,
        ;
    }
    let room2 = r.limit - n;
    if r.curr > room2 {
        let q0 = (room2 * p) / r.curr;
        assert(0 <= q0 <= p) by (nonlinear_arith)
            requires
                q0 == (room2 * p) / r.curr,
                room2 < r.curr,
                room2 >= 0,
                p >= 1,
        ;
    }
}

/// A refusal of a request within the limit is never for good: its wait is at
/// least a nanosecond and at most one period. While time does not run
/// backwards it is the least wait capped at one period: the same request,
/// with nothing admitted meanwhile, is refused at every instant before it,
/// and, when it is shorter than a period, fits once it has passed.
pub proof fn lemma_sliding_counter_refusal_wait(s: SlidingCounterView, n: int, now: int)
    requires
        sliding_counter_wf(s),
        1 <= n <= s.limit,
        0 <= now <= u64::MAX,
        sliding_counter_step(s, n, now).1 is Deny,
    ensures
        ({
            let w = sliding_counter_step(s, n, now).1->0;
            let r = roll(s, now);
            &&& 1 <= w <= s.period
            &&& w < max_duration_nanos()
            &&& s.window <= now / s.period ==> {
                &&& forall|d: int| 0 <= d < w ==> !#[trigger] fits(roll(r, now + d), n, now + d)
                &&& w < s.period ==> fits(roll(r, now + w), n, now + w)
                &&& w == if counter_least_wait(r, n, now) < s.period {
                    counter_least_wait(r, n, now)
                } else {
                    s.period
                }
            }
        }),
{
    let r = roll(s, now);
    let p = s.period;
    assert(now / p <= u64::MAX) by {
        vstd::arithmetic::div_mod::lemma_div_nonincreasing(now, p);
    }
    assert(sliding_counter_wf(r));
    assert(!fits(r, n, now));
    lemma_counter_wait_bounds(r, n, now);
    let w = counter_wait(r, n, now);
    if s.window <= now / p {
        assert(r.window == now / p);
        lemma_counter_wait_caps_least(r, n, now);
        assert forall|d: int| 0 <= d < w implies !#[trigger] fits(roll(r, now + d), n, now + d) by {
            lemma_counter_wait_is_least(r, n, now, d);
        }
        if w < p {
            lemma_counter_wait_suffices(r, n, now);
        }
    }
}

} // verus!
