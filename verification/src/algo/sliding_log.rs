//! Sliding window log.
//!
//! Keeps the instant of every admitted unit in the trailing `period` and
//! admits only while fewer than `limit` remain. The admitted count in any
//! trailing window never exceeds `limit`. It ignores the quota's `burst`.

use core::time::Duration;
use std::collections::VecDeque;
use vstd::prelude::*;

use crate::decision::{Decision, Outcome};
use crate::quota::{Quota, QuotaView};
use crate::time::{
    add_sat, clamp_u64, duration_from_nanos, duration_max, max_duration_nanos, nanos_of,
    nanos_u64, sat_add, sat_sub, sub_sat,
};
use crate::algo::fixed_window::{times_from, window_length};

verus! {

/// A sliding log as mathematics.
pub struct SlidingLogView {
    /// Instants (nanoseconds) of the admitted units still held, oldest first.
    pub log: Seq<u64>,
    /// Window length, nanoseconds (at least 1).
    pub period: int,
    /// Units admitted per trailing window.
    pub limit: int,
}

/// Sliding-log state for one key: admit instants, oldest at the front.
pub struct SlidingLog {
    log: VecDeque<u64>,
    period_ns: u64,
    limit: u32,
}

impl View for SlidingLog {
    type V = SlidingLogView;

    closed spec fn view(&self) -> SlidingLogView {
        SlidingLogView { log: self.log@, period: self.period_ns as int, limit: self.limit as int }
    }
}

/// Whether an instant admitted at `ts` still counts at `now`: it has not yet
/// aged a whole period (the sum saturates at `u64::MAX`).
pub open spec fn still_counts(ts: int, period: int, now: int) -> bool {
    sat_add(ts, period) > now
}

/// The log with its aged-out front removed: entries are dropped from the
/// front while they no longer count at `now`.
pub open spec fn prune(log: Seq<u64>, period: int, now: int) -> Seq<u64>
    decreases log.len(),
{
    if log.len() > 0 && !still_counts(log[0] as int, period, now) {
        prune(log.drop_first(), period, now)
    } else {
        log
    }
}

/// The state a fresh sliding log starts in: nothing recorded.
pub open spec fn sliding_log_initial(q: QuotaView) -> SlidingLogView {
    SlidingLogView { log: Seq::empty(), period: window_length(q), limit: q.limit as int }
}

/// Whether a sliding log's state is well formed.
pub open spec fn sliding_log_wf(s: SlidingLogView) -> bool {
    &&& 1 <= s.period <= u64::MAX
    &&& 0 <= s.limit <= u32::MAX
    &&& s.log.len() <= s.limit
}

/// One request of `n` units at `now` nanoseconds: the next state and the
/// outcome.
///
/// Zero units are always admitted; more than `limit` (or any when `limit` is
/// zero) never are. Otherwise aged-out entries are dropped, and the request is
/// admitted if the rest plus `n` fit the limit, recording `n` copies of `now`.
/// A refusal waits until enough of the oldest entries age out.
pub open spec fn sliding_log_step(s: SlidingLogView, n: int, now: int) -> (SlidingLogView, Outcome) {
    if n == 0 {
        (s, Outcome::Allow)
    } else if s.limit == 0 || n > s.limit {
        (s, Outcome::Deny(max_duration_nanos()))
    } else {
        let kept = prune(s.log, s.period, now);
        if kept.len() + n <= s.limit {
            (
                SlidingLogView { log: kept + Seq::new(n as nat, |i: int| now as u64), ..s },
                Outcome::Allow,
            )
        } else {
            let need = kept.len() + n - s.limit;
            let expire_at = sat_add(kept[need - 1] as int, s.period);
            (SlidingLogView { log: kept, ..s }, Outcome::Deny(sat_sub(expire_at, now)))
        }
    }
}

proof fn lemma_prune_len(log: Seq<u64>, period: int, now: int)
    ensures
        prune(log, period, now).len() <= log.len(),
    decreases log.len(),
{
    if log.len() > 0 && !still_counts(log[0] as int, period, now) {
        lemma_prune_len(log.drop_first(), period, now);
    }
}

impl SlidingLog {
    /// Whether the state is well formed.
    pub open spec fn wf(&self) -> bool {
        sliding_log_wf(self@)
    }

    /// A fresh, empty sliding log for `quota`.
    pub fn new(quota: &Quota) -> (r: Self)
        ensures
            r@ == sliding_log_initial(quota@),
            r.wf(),
    {
        let p: u64 = nanos_u64(quota.period());
        let period_ns: u64 = if p < 1 { 1 } else { p };
        SlidingLog { log: VecDeque::new(), period_ns, limit: quota.limit() }
    }

    /// Checks `n` units at elapsed time `now`, recording them if admitted.
    pub fn acquire(&mut self, n: u32, now: Duration) -> (d: Decision)
        requires
            old(self).wf(),
        ensures
            final(self).wf(),
            (final(self)@, d@) == sliding_log_step(
                old(self)@,
                n as int,
                clamp_u64(nanos_of(now) as int),
            ),
    {
        if n == 0 {
            return Decision::Allow;
        }
        if self.limit == 0 || n > self.limit {
            return Decision::Deny { retry_after: duration_max() };
        }
        let now_ns: u64 = nanos_u64(now);
        let ghost period: int = self.period_ns as int;
        let ghost start: Seq<u64> = self.log@;
        while self.log.len() > 0 && add_sat(self.log[0], self.period_ns) <= now_ns
            invariant
                self.period_ns as int == period,
                prune(self.log@, period, now_ns as int) == prune(start, period, now_ns as int),
                self.log@.len() <= start.len(),
                self.limit == old(self).limit,
                self.period_ns == old(self).period_ns,
            decreases self.log@.len(),
        {
            let _ = self.log.pop_front();
        }
        proof {
            lemma_prune_len(start, period, now_ns as int);
            assert(prune(self.log@, period, now_ns as int) == self.log@);
        }
        let count: usize = self.log.len();
        if count as u64 + n as u64 <= self.limit as u64 {
            let ghost kept: Seq<u64> = self.log@;
            let mut i: u32 = 0;
            while i < n
                invariant
                    0 <= i <= n,
                    self.log@ == kept + Seq::new(i as nat, |k: int| now_ns),
                    kept.len() + n <= self.limit,
                    self.limit == old(self).limit,
                    self.period_ns == old(self).period_ns,
                decreases n - i,
            {
                self.log.push_back(now_ns);
                i = i + 1;
                assert(self.log@ =~= kept + Seq::new(i as nat, |k: int| now_ns));
            }
            return Decision::Allow;
        }
        assert(count as u64 + n as u64 - self.limit as u64 <= count);
        let need: usize = (count as u64 + n as u64 - self.limit as u64) as usize;
        let expire_at: u64 = add_sat(self.log[need - 1], self.period_ns);
        Decision::Deny { retry_after: duration_from_nanos(sub_sat(expire_at, now_ns)) }
    }
}

/// The state after a sequence of requests, each `(units, nanoseconds)`.
pub open spec fn sliding_log_run(s: SlidingLogView, reqs: Seq<(u32, u64)>) -> SlidingLogView
    decreases reqs.len(),
{
    if reqs.len() == 0 {
        s
    } else {
        let prev = sliding_log_run(s, reqs.drop_last());
        sliding_log_step(prev, reqs.last().0 as int, reqs.last().1 as int).0
    }
}

/// The units admitted, over a sequence of requests, that still count at
/// instant `at`: admitted no later than `at` and less than a period before it.
pub open spec fn sliding_log_admitted(s: SlidingLogView, reqs: Seq<(u32, u64)>, at: int) -> int
    decreases reqs.len(),
{
    if reqs.len() == 0 {
        0
    } else {
        let prev = sliding_log_run(s, reqs.drop_last());
        let n = reqs.last().0 as int;
        let t = reqs.last().1 as int;
        let counted = if sliding_log_step(prev, n, t).1 is Allow && t <= at && still_counts(
            t,
            s.period,
            at,
        ) {
            n
        } else {
            0
        };
        sliding_log_admitted(s, reqs.drop_last(), at) + counted
    }
}

/// The entries of a log that still count at `at`.
spec fn count_live(log: Seq<u64>, period: int, at: int) -> int
    decreases log.len(),
{
    if log.len() == 0 {
        0
    } else {
        (if still_counts(log[0] as int, period, at) { 1int } else { 0int }) + count_live(
            log.drop_first(),
            period,
            at,
        )
    }
}

proof fn lemma_count_live_bounds(log: Seq<u64>, period: int, at: int)
    ensures
        0 <= count_live(log, period, at) <= log.len(),
    decreases log.len(),
{
    if log.len() > 0 {
        lemma_count_live_bounds(log.drop_first(), period, at);
    }
}

proof fn lemma_count_live_prune(log: Seq<u64>, period: int, now: int, at: int)
    requires
        now <= at,
    ensures
        count_live(prune(log, period, now), period, at) == count_live(log, period, at),
    decreases log.len(),
{
    if log.len() > 0 && !still_counts(log[0] as int, period, now) {
        lemma_count_live_prune(log.drop_first(), period, now, at);
    }
}

proof fn lemma_count_live_append(a: Seq<u64>, b: Seq<u64>, period: int, at: int)
    ensures
        count_live(a + b, period, at) == count_live(a, period, at) + count_live(b, period, at),
    decreases a.len(),
{
    if a.len() == 0 {
        assert(a + b =~= b);
    } else {
        assert((a + b).drop_first() =~= a.drop_first() + b);
        assert((a + b)[0] == a[0]);
        lemma_count_live_append(a.drop_first(), b, period, at);
    }
}

proof fn lemma_count_live_copies(n: nat, t: u64, period: int, at: int)
    ensures
        count_live(Seq::new(n, |i: int| t), period, at) == if still_counts(t as int, period, at) {
            n as int
        } else {
            0
        },
    decreases n,
{
    if n > 0 {
        assert(Seq::new(n, |i: int| t).drop_first() =~= Seq::new((n - 1) as nat, |i: int| t));
        lemma_count_live_copies((n - 1) as nat, t, period, at);
    }
}

/// What holds after every prefix of a request sequence.
spec fn sliding_log_inv(s0: SlidingLogView, start: int, reqs: Seq<(u32, u64)>) -> bool {
    let s = sliding_log_run(s0, reqs);
    let t = if reqs.len() == 0 { start } else { reqs.last().1 as int };
    &&& sliding_log_wf(s)
    &&& s.period == s0.period
    &&& s.limit == s0.limit
    &&& forall|at: int| at >= t ==> #[trigger] sliding_log_admitted(s0, reqs, at) == count_live(s.log, s.period, at)
    &&& forall|at: int| #[trigger] sliding_log_admitted(s0, reqs, at) <= s.limit
}

proof fn lemma_sliding_log_inv(s0: SlidingLogView, start: int, reqs: Seq<(u32, u64)>)
    requires
        sliding_log_wf(s0),
        s0.log.len() == 0,
        times_from(start, reqs),
    ensures
        sliding_log_inv(s0, start, reqs),
    decreases reqs.len(),
{
    if reqs.len() == 0 {
        assert forall|at: int| #[trigger] sliding_log_admitted(s0, reqs, at) <= s0.limit by {}
    } else {
        let pre = reqs.drop_last();
        assert(times_from(start, pre)) by {
            assert forall|i: int| 0 <= i < pre.len() implies start <= #[trigger] pre[i].1 by {
                assert(pre[i] == reqs[i]);
            }
            assert forall|i: int, j: int| 0 <= i < j < pre.len() implies #[trigger] pre[i].1 <= #[trigger] pre[j].1 by {
                assert(pre[i] == reqs[i]);
                assert(pre[j] == reqs[j]);
            }
        }
        lemma_sliding_log_inv(s0, start, pre);
        let s = sliding_log_run(s0, pre);
        let n = reqs.last().0 as int;
        let t = reqs.last().1 as int;
        let t0 = if pre.len() == 0 { start } else { pre.last().1 as int };
        assert(t0 <= t) by {
            if pre.len() > 0 {
                assert(pre.last() == reqs[reqs.len() - 2]);
                assert(reqs[reqs.len() - 2].1 <= reqs[reqs.len() - 1].1);
            } else {
                assert(start <= reqs[0].1);
            }
        }
        let (s2, o) = sliding_log_step(s, n, t);
        assert(sliding_log_run(s0, reqs) == s2);
        let p = s.period;
        if n == 0 || s.limit == 0 || n > s.limit {
            assert forall|at: int| #[trigger] sliding_log_admitted(s0, reqs, at) == sliding_log_admitted(s0, pre, at) by {}
        } else {
            let kept = prune(s.log, p, t);
            lemma_prune_len(s.log, p, t);
            assert forall|at: int| at >= t implies count_live(kept, p, at) == count_live(s.log, p, at) by {
                lemma_count_live_prune(s.log, p, t, at);
            }
            if o is Allow {
                let added = Seq::new(n as nat, |i: int| t as u64);
                assert(s2.log == kept + added);
                assert forall|at: int| at >= t implies #[trigger] sliding_log_admitted(s0, reqs, at) == count_live(s2.log, p, at) by {
                    lemma_count_live_append(kept, added, p, at);
                    lemma_count_live_copies(n as nat, t as u64, p, at);
                    assert(sliding_log_admitted(s0, pre, at) == count_live(s.log, p, at));
                    assert(sliding_log_admitted(s0, reqs, at) == sliding_log_admitted(s0, pre, at) + if still_counts(t, p, at) { n } else { 0 });
                }
                assert forall|at: int| #[trigger] sliding_log_admitted(s0, reqs, at) <= s2.limit by {
                    if at >= t {
                        lemma_count_live_append(kept, added, p, at);
                        lemma_count_live_copies(n as nat, t as u64, p, at);
                        lemma_count_live_bounds(s2.log, p, at);
                    } else {
                        assert(sliding_log_admitted(s0, reqs, at) == sliding_log_admitted(s0, pre, at));
                    }
                }
            } else {
                assert forall|at: int| #[trigger] sliding_log_admitted(s0, reqs, at) == sliding_log_admitted(s0, pre, at) by {}
            }
        }
    }
}

/// No over-admission, exactly: starting from a fresh sliding log, for any
/// sequence of requests whose instants never run backwards, the units that
/// still count at any instant `at` (admitted at most `at`, less than a period
/// before it) never exceed the limit.
pub proof fn lemma_sliding_log_never_over_admits(
    quota: QuotaView,
    start: u64,
    reqs: Seq<(u32, u64)>,
    at: int,
)
    requires
        times_from(start as int, reqs),
    ensures
        sliding_log_admitted(sliding_log_initial(quota), reqs, at) <= quota.limit,
{
    lemma_sliding_log_inv(sliding_log_initial(quota), start as int, reqs);
}

/// Whether a log's instants never run backwards.
pub open spec fn log_sorted(log: Seq<u64>) -> bool {
    forall|i: int, j: int| 0 <= i <= j < log.len() ==> #[trigger] log[i] <= #[trigger] log[j]
}

proof fn lemma_prune_sorted(log: Seq<u64>, period: int, now: int)
    requires
        log_sorted(log),
    ensures
        log_sorted(prune(log, period, now)),
    decreases log.len(),
{
    if log.len() > 0 && !still_counts(log[0] as int, period, now) {
        let rest = log.drop_first();
        assert forall|i: int, j: int| 0 <= i <= j < rest.len() implies #[trigger] rest[i] <= #[trigger] rest[j] by {
            assert(rest[i] == log[i + 1]);
            assert(rest[j] == log[j + 1]);
        }
        lemma_prune_sorted(rest, period, now);
    }
}

proof fn lemma_prune_twice(log: Seq<u64>, period: int, now: int, t: int)
    requires
        now <= t,
    ensures
        prune(prune(log, period, now), period, t) == prune(log, period, t),
    decreases log.len(),
{
    if log.len() > 0 && !still_counts(log[0] as int, period, now) {
        lemma_prune_twice(log.drop_first(), period, now, t);
    }
}

/// In a sorted log, whether the entry at `j` still counts decides how many
/// entries pruning keeps: all from `j` on if it does, none up to `j` if not.
proof fn lemma_prune_len_at(log: Seq<u64>, period: int, t: int, j: int)
    requires
        log_sorted(log),
        0 <= j < log.len(),
    ensures
        still_counts(log[j] as int, period, t) ==> prune(log, period, t).len() >= log.len() - j,
        !still_counts(log[j] as int, period, t) ==> prune(log, period, t).len() <= log.len() - j - 1,
    decreases log.len(),
{
    if !still_counts(log[0] as int, period, t) {
        let rest = log.drop_first();
        if j == 0 {
            lemma_prune_len(rest, period, t);
        } else {
            assert forall|a: int, b: int| 0 <= a <= b < rest.len() implies #[trigger] rest[a] <= #[trigger] rest[b] by {
                assert(rest[a] == log[a + 1]);
                assert(rest[b] == log[b + 1]);
            }
            assert(rest[j - 1] == log[j]);
            lemma_prune_len_at(rest, period, t, j - 1);
        }
    } else {
        assert(log[0] <= log[j]);
    }
}

/// A refusal's wait is exact, for a log whose instants never run backwards:
/// if nothing else is admitted meanwhile, the same request is refused at every
/// instant before the wait has passed and admitted at every instant after (for
/// a refusal that is not for good).
pub proof fn lemma_sliding_log_wait_is_exact(s: SlidingLogView, n: int, now: int, w: int, t: int)
    requires
        sliding_log_wf(s),
        log_sorted(s.log),
        1 <= n,
        0 <= now <= t,
        sliding_log_step(s, n, now).1 == Outcome::Deny(w),
        w < max_duration_nanos(),
    ensures
        sliding_log_step(s, n, t).1 is Allow <==> t >= now + w,
{
    let p = s.period;
    let kept = prune(s.log, p, now);
    lemma_prune_len(s.log, p, now);
    lemma_prune_sorted(s.log, p, now);
    lemma_prune_twice(s.log, p, now, t);
    let need = kept.len() + n - s.limit;
    assert(1 <= need <= kept.len());
    let e = sat_add(kept[need - 1] as int, p);
    assert(w == sat_sub(e, now));
    lemma_prune_len_at(kept, p, t, need - 1);
    if t < now + w {
        assert(still_counts(kept[need - 1] as int, p, t));
    } else {
        assert(!still_counts(kept[need - 1] as int, p, t));
    }
}

/// A refusal of a request within the limit is never for good: its wait is
/// finite, and for a log whose instants never run backwards it is exact: the
/// same request, with nothing admitted meanwhile, is refused before the wait
/// has passed and admitted from then on.
pub proof fn lemma_sliding_log_refusal_is_finite(s: SlidingLogView, n: int, now: int)
    requires
        sliding_log_wf(s),
        1 <= n <= s.limit,
        0 <= now,
        sliding_log_step(s, n, now).1 is Deny,
    ensures
        ({
            let w = sliding_log_step(s, n, now).1->0;
            &&& 0 <= w <= u64::MAX
            &&& w < max_duration_nanos()
            &&& log_sorted(s.log) ==> forall|t: int|
                now <= t ==> (#[trigger] sliding_log_step(s, n, t).1 is Allow <==> t >= now + w)
        }),
{
    let w = sliding_log_step(s, n, now).1->0;
    assert(0 <= w <= u64::MAX);
    if log_sorted(s.log) {
        assert forall|t: int| now <= t implies (#[trigger] sliding_log_step(s, n, t).1 is Allow <==> t >= now + w) by {
            lemma_sliding_log_wait_is_exact(s, n, now, w, t);
        }
    }
}

} // verus!
