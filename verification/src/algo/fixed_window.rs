//! Fixed window counter.
//!
//! Time is sliced into aligned windows of `period`; each window admits up to
//! `limit` units and resets at the boundary. The state is one packed word
//! holding the window index (modulo 2^32) and the count. It ignores the
//! quota's `burst`.

use core::time::Duration;
use vstd::prelude::*;

use crate::decision::{Decision, Outcome};
use crate::quota::{Quota, QuotaView};
use crate::time::{
    clamp_u64, duration_from_nanos, duration_max, max_duration_nanos, mul_sat, nanos_of,
    nanos_u64, sat_mul, sat_sub, add_sat, sub_sat, sat_add,
};

verus! {

/// 2^32: the window index is kept modulo this.
pub open spec fn index_modulus() -> int {
    0x1_0000_0000
}

/// The word that `pack` builds from a window index and a count.
pub open spec fn packed(window_index: u32, count: u32) -> u64 {
    (window_index as int * index_modulus() + count as int) as u64
}

proof fn lemma_pack_bits(i: u64, c: u64)
    by (bit_vector)
    requires
        i < 0x1_0000_0000,
        c < 0x1_0000_0000,
    ensures
        (i << 32u64) | c == i * 0x1_0000_0000u64 + c,
        i * 0x1_0000_0000u64 + c >= i * 0x1_0000_0000u64,
{
}

proof fn lemma_unpack_bits(s: u64)
    by (bit_vector)
    ensures
        s >> 32u64 == s / 0x1_0000_0000u64,
        s & 0xFFFF_FFFFu64 == s % 0x1_0000_0000u64,
        s >> 32u64 < 0x1_0000_0000u64,
        s & 0xFFFF_FFFFu64 < 0x1_0000_0000u64,
{
}

/// Packs `(window_index, count)` into one word: the index in the high half,
/// the count in the low half.
pub fn pack(window_index: u32, count: u32) -> (r: u64)
    ensures
        r == packed(window_index, count),
        r as int == window_index as int * index_modulus() + count as int,
{
    proof {
        lemma_pack_bits(window_index as u64, count as u64);
    }
    ((window_index as u64) << 32u64) | (count as u64)
}

/// Splits a packed word back into `(window_index, count)`.
pub fn unpack(state: u64) -> (r: (u32, u32))
    ensures
        r.0 as int == state as int / index_modulus(),
        r.1 as int == state as int % index_modulus(),
{
    proof {
        lemma_unpack_bits(state);
    }
    ((state >> 32u64) as u32, (state & 0xFFFF_FFFFu64) as u32)
}

/// Unpacking undoes packing.
pub proof fn lemma_unpack_of_pack(window_index: u32, count: u32)
    ensures
        (packed(window_index, count) as int) / index_modulus() == window_index,
        (packed(window_index, count) as int) % index_modulus() == count,
{
    let p: int = window_index as int * index_modulus() + count as int;
    assert(p == packed(window_index, count) as int);
    vstd::arithmetic::div_mod::lemma_fundamental_div_mod_converse(
        p,
        index_modulus(),
        window_index as int,
        count as int,
    );
}

/// A fixed window as mathematics.
pub struct FixedWindowView {
    /// The index (modulo 2^32) of the window `count` belongs to.
    pub index: int,
    /// Units admitted in that window.
    pub count: int,
    /// Window length, nanoseconds (at least 1).
    pub period: int,
    /// Units admitted per window.
    pub limit: int,
}

/// Fixed-window state for one key.
pub struct FixedWindow {
    /// Packed `(window_index, count)`.
    state: u64,
    /// Window length in nanoseconds (always at least 1).
    period_ns: u64,
    limit: u32,
}

impl View for FixedWindow {
    type V = FixedWindowView;

    closed spec fn view(&self) -> FixedWindowView {
        FixedWindowView {
            index: self.state as int / index_modulus(),
            count: self.state as int % index_modulus(),
            period: self.period_ns as int,
            limit: self.limit as int,
        }
    }
}

/// The window length a quota gives, in nanoseconds: its period, saturated to
/// 64 bits and at least one.
pub open spec fn window_length(q: QuotaView) -> int {
    let p = clamp_u64(q.period as int);
    if p < 1 { 1 } else { p }
}

/// The state a fresh fixed window starts in at `now` nanoseconds: the window
/// holding `now`, with nothing admitted.
pub open spec fn fixed_window_initial(q: QuotaView, now: int) -> FixedWindowView {
    FixedWindowView {
        index: (now / window_length(q)) % index_modulus(),
        count: 0,
        period: window_length(q),
        limit: q.limit as int,
    }
}

/// Whether a fixed window's state is well formed: a positive window length,
/// a count within the limit, and values that fit their fields.
pub open spec fn fixed_window_wf(s: FixedWindowView) -> bool {
    &&& 1 <= s.period <= u64::MAX
    &&& 0 <= s.limit <= u32::MAX
    &&& 0 <= s.count <= s.limit
    &&& 0 <= s.index < index_modulus()
}

/// One request of `n` units at `now` nanoseconds: the next state and the
/// outcome.
///
/// Zero units are always admitted; more than `limit` never are (the wait is
/// `Duration::MAX`). Otherwise the count of the window holding `now` (zero if
/// the stored count belongs to another window) grows by `n` if it stays within
/// `limit`; a refusal waits until the next window starts.
pub open spec fn fixed_window_step(s: FixedWindowView, n: int, now: int) -> (FixedWindowView, Outcome) {
    if n == 0 {
        (s, Outcome::Allow)
    } else if n > s.limit {
        (s, Outcome::Deny(max_duration_nanos()))
    } else {
        let window = now / s.period;
        let index = window % index_modulus();
        let base = if s.index == index { s.count } else { 0 };
        if base + n > s.limit {
            let next_start = sat_mul(sat_add(window, 1), s.period);
            (s, Outcome::Deny(sat_sub(next_start, now)))
        } else {
            (FixedWindowView { index, count: base + n, ..s }, Outcome::Allow)
        }
    }
}

impl FixedWindow {
    /// Whether the state is well formed.
    pub open spec fn wf(&self) -> bool {
        fixed_window_wf(self@)
    }

    /// A fresh fixed window for `quota`, anchored at the window holding `now`.
    pub fn new(quota: &Quota, now: Duration) -> (r: Self)
        ensures
            r@ == fixed_window_initial(quota@, clamp_u64(nanos_of(now) as int)),
            r.wf(),
    {
        let p: u64 = nanos_u64(quota.period());
        let period_ns: u64 = if p < 1 { 1 } else { p };
        let now_ns: u64 = nanos_u64(now);
        let window_index: u32 = ((now_ns / period_ns) % 0x1_0000_0000u64) as u32;
        let state: u64 = pack(window_index, 0);
        proof {
            lemma_unpack_of_pack(window_index, 0);
        }
        FixedWindow { state, period_ns, limit: quota.limit() }
    }

    /// Checks `n` units at elapsed time `now`, counting them if admitted.
    pub fn acquire(&mut self, n: u32, now: Duration) -> (d: Decision)
        requires
            old(self).wf(),
        ensures
            final(self).wf(),
            (final(self)@, d@) == fixed_window_step(
                old(self)@,
                n as int,
                clamp_u64(nanos_of(now) as int),
            ),
    {
        if n == 0 {
            return Decision::Allow;
        }
        if n > self.limit {
            return Decision::Deny { retry_after: duration_max() };
        }
        let now_ns: u64 = nanos_u64(now);
        let window_number: u64 = now_ns / self.period_ns;
        let window_index: u32 = (window_number % 0x1_0000_0000u64) as u32;
        let (stored_index, stored_count) = unpack(self.state);
        let base: u64 = if stored_index == window_index {
            stored_count as u64
        } else {
            0
        };
        let new_count: u64 = base + n as u64;
        if new_count > self.limit as u64 {
            let next_start: u64 = mul_sat(add_sat(window_number, 1), self.period_ns);
            let wait: u64 = sub_sat(next_start, now_ns);
            return Decision::Deny { retry_after: duration_from_nanos(wait) };
        }
        let next: u64 = pack(window_index, new_count as u32);
        proof {
            lemma_unpack_of_pack(window_index, new_count as u32);
        }
        self.state = next;
        Decision::Allow
    }
}

/// The state after a sequence of requests, each `(units, nanoseconds)`.
pub open spec fn fixed_window_run(s: FixedWindowView, reqs: Seq<(u32, u64)>) -> FixedWindowView
    decreases reqs.len(),
{
    if reqs.len() == 0 {
        s
    } else {
        let prev = fixed_window_run(s, reqs.drop_last());
        fixed_window_step(prev, reqs.last().0 as int, reqs.last().1 as int).0
    }
}

/// The units admitted, over a sequence of requests, at instants that fall in
/// the aligned window number `w` (the window of instant `t` is `t / period`).
pub open spec fn fixed_window_admitted(s: FixedWindowView, reqs: Seq<(u32, u64)>, w: int) -> int
    decreases reqs.len(),
{
    if reqs.len() == 0 {
        0
    } else {
        let prev = fixed_window_run(s, reqs.drop_last());
        let n = reqs.last().0 as int;
        let t = reqs.last().1 as int;
        let counted = if fixed_window_step(prev, n, t).1 is Allow && t / s.period == w {
            n
        } else {
            0
        };
        fixed_window_admitted(s, reqs.drop_last(), w) + counted
    }
}

/// Whether the instants of a sequence of requests never run backwards and
/// never precede `start`.
pub open spec fn times_from(start: int, reqs: Seq<(u32, u64)>) -> bool {
    &&& forall|i: int| 0 <= i < reqs.len() ==> start <= #[trigger] reqs[i].1
    &&& forall|i: int, j: int| 0 <= i < j < reqs.len() ==> #[trigger] reqs[i].1 <= #[trigger] reqs[j].1
}

/// What holds after every prefix of a request sequence: `last` is the window
/// the stored count belongs to.
spec fn fixed_window_inv(s0: FixedWindowView, start: int, reqs: Seq<(u32, u64)>, last: int) -> bool {
    let s = fixed_window_run(s0, reqs);
    let t = if reqs.len() == 0 { start } else { reqs.last().1 as int };
    &&& fixed_window_wf(s)
    &&& s.period == s0.period
    &&& s.limit == s0.limit
    &&& s.index == last % index_modulus()
    &&& 0 <= last <= t / s0.period
    &&& fixed_window_admitted(s0, reqs, last) <= s.count
    &&& forall|w: int| w != last ==> #[trigger] fixed_window_admitted(s0, reqs, w) <= s.limit
    &&& forall|w: int| w > last ==> #[trigger] fixed_window_admitted(s0, reqs, w) == 0
}

proof fn lemma_fixed_window_inv(s0: FixedWindowView, start: int, reqs: Seq<(u32, u64)>) -> (last: int)
    requires
        fixed_window_wf(s0),
        0 <= start <= u64::MAX,
        s0.index == (start / s0.period) % index_modulus(),
        s0.count == 0,
        times_from(start, reqs),
    ensures
        fixed_window_inv(s0, start, reqs, last),
    decreases reqs.len(),
{
    if reqs.len() == 0 {
        let last = start / s0.period;
        assert forall|w: int| w != last implies #[trigger] fixed_window_admitted(s0, reqs, w) <= s0.limit by {}
        assert forall|w: int| w > last implies #[trigger] fixed_window_admitted(s0, reqs, w) == 0 by {}
        last
    } else {
        let pre = reqs.drop_last();
        assert(times_from(start, pre)) by {
            assert forall|i: int| 0 <= i < pre.len() implies start <= #[trigger] pre[i].1 by {
                assert(pre[i] == reqs[i]);
            }
            assert forall|i: int, j: int| 0 <= i < j < pre.len() implies #[trigger] pre[i].1 <= #[trigger] pre[j].1 by {
                assert(pre[i] == reqs[i]);
                assert(pre[j] == reqs[j]);
            }
        }
        let last0 = lemma_fixed_window_inv(s0, start, pre);
        let s = fixed_window_run(s0, pre);
        let n = reqs.last().0 as int;
        let t = reqs.last().1 as int;
        let p = s0.period;
        let t0 = if pre.len() == 0 { start } else { pre.last().1 as int };
        assert(t0 <= t) by {
            if pre.len() > 0 {
                assert(pre.last() == reqs[reqs.len() - 2]);
                assert(reqs[reqs.len() - 2].1 <= reqs[reqs.len() - 1].1);
            } else {
                assert(start <= reqs[0].1);
            }
        }
        assert(t0 / p <= t / p) by {
            vstd::arithmetic::div_mod::lemma_div_is_ordered(t0, t, p);
        }
        let (s2, o) = fixed_window_step(s, n, t);
        assert(fixed_window_run(s0, reqs) == s2);
        let window = t / p;
        if o is Allow && n > 0 && window != last0 {
            let last = window;
            assert forall|w: int| w != last implies #[trigger] fixed_window_admitted(s0, reqs, w) <= s2.limit by {
                assert(fixed_window_admitted(s0, reqs, w) == fixed_window_admitted(s0, pre, w));
            }
            assert forall|w: int| w > last implies #[trigger] fixed_window_admitted(s0, reqs, w) == 0 by {
                assert(fixed_window_admitted(s0, reqs, w) == fixed_window_admitted(s0, pre, w));
            }
            assert(fixed_window_admitted(s0, reqs, last) == fixed_window_admitted(s0, pre, last) + n);
            assert(fixed_window_admitted(s0, pre, last) == 0);
            last
        } else {
            let last = last0;
            assert forall|w: int| w != last implies #[trigger] fixed_window_admitted(s0, reqs, w) <= s2.limit by {
                if o is Allow && n > 0 {
                    assert(fixed_window_admitted(s0, reqs, w) == fixed_window_admitted(s0, pre, w));
                } else {
                    assert(fixed_window_admitted(s0, reqs, w) == fixed_window_admitted(s0, pre, w));
                }
            }
            assert forall|w: int| w > last implies #[trigger] fixed_window_admitted(s0, reqs, w) == 0 by {
                assert(fixed_window_admitted(s0, reqs, w) == fixed_window_admitted(s0, pre, w));
            }
            last
        }
    }
}

/// No over-admission: starting from a fresh fixed window created at `start`,
/// for any sequence of requests whose instants never run backwards, the units
/// admitted at instants in any one aligned window never exceed the limit.
pub proof fn lemma_fixed_window_never_over_admits(
    quota: QuotaView,
    start: u64,
    reqs: Seq<(u32, u64)>,
    w: int,
)
    requires
        times_from(start as int, reqs),
    ensures
        fixed_window_admitted(fixed_window_initial(quota, start as int), reqs, w) <= quota.limit,
{
    let s0 = fixed_window_initial(quota, start as int);
    assert(0 <= (start as int / window_length(quota)) % index_modulus() < index_modulus()) by {
        vstd::arithmetic::div_mod::lemma_mod_bound(start as int / window_length(quota), index_modulus());
    }
    let last = lemma_fixed_window_inv(s0, start as int, reqs);
}

/// The retry point of a refusal within the limit is the start of the next
/// window: if nothing else is admitted meanwhile, the same request is refused
/// at every instant before the reported wait has passed and admitted at every
/// instant of the next window (whose end must fit in 64 bits).
pub proof fn lemma_fixed_window_retry_point(s: FixedWindowView, n: int, now: int, w: int, t: int)
    requires
        fixed_window_wf(s),
        1 <= n,
        0 <= now <= t,
        fixed_window_step(s, n, now).1 == Outcome::Deny(w),
        w < max_duration_nanos(),
        (now / s.period + 2) * s.period <= u64::MAX,
    ensures
        t < now + w ==> fixed_window_step(s, n, t).1 is Deny,
        now + w <= t < now + w + s.period ==> fixed_window_step(s, n, t).1 is Allow,
{
    let p = s.period;
    let m = index_modulus();
    let window = now / p;
    vstd::arithmetic::div_mod::lemma_fundamental_div_mod(now, p);
    vstd::arithmetic::div_mod::lemma_mod_bound(now, p);
    assert(0 <= window) by {
        vstd::arithmetic::div_mod::lemma_div_pos_is_pos(now, p);
    }
    assert((window + 1) * p == window * p + p) by (nonlinear_arith);
    assert((window + 2) * p == window * p + 2 * p) by (nonlinear_arith);
    assert(window * p <= now < window * p + p) by (nonlinear_arith)
        requires
            now == p * window + now % p,
            0 <= now % p < p,
    ;
    assert(window * p >= 0) by (nonlinear_arith)
        requires
            window >= 0,
            p >= 1,
    ;
    assert(sat_add(window, 1) == window + 1);
    assert(sat_mul(window + 1, p) == (window + 1) * p);
    assert(w == (window + 1) * p - now);
    let index = window % m;
    assert(s.index == index);
    if t < now + w {
        vstd::arithmetic::div_mod::lemma_fundamental_div_mod_converse(t, p, window, t - window * p);
    }
    if now + w <= t && t < now + w + p {
        vstd::arithmetic::div_mod::lemma_fundamental_div_mod_converse(t, p, window + 1, t - (window + 1) * p);
        vstd::arithmetic::div_mod::lemma_fundamental_div_mod(window, m);
        vstd::arithmetic::div_mod::lemma_mod_bound(window, m);
        let q = window / m;
        if index + 1 < m {
            vstd::arithmetic::div_mod::lemma_fundamental_div_mod_converse(window + 1, m, q, index + 1);
        } else {
            assert(window + 1 == m * (q + 1)) by (nonlinear_arith)
                requires
                    window == m * q + index,
                    index + 1 == m,
            ;
            vstd::arithmetic::div_mod::lemma_fundamental_div_mod_converse(window + 1, m, q + 1, 0);
        }
        assert((window + 1) % m != index);
    }
}

/// A refusal of a request within the limit is never for good: the window is
/// only full until the next one starts, so the wait is finite, and it ends
/// exactly at the next window's start whenever that start fits in 64 bits of
/// nanoseconds, whatever the window's count.
pub proof fn lemma_fixed_window_refusal_waits_for_next_window(s: FixedWindowView, n: int, now: int)
    requires
        fixed_window_wf(s),
        1 <= n <= s.limit,
        0 <= now,
        fixed_window_step(s, n, now).1 is Deny,
    ensures
        ({
            let w = fixed_window_step(s, n, now).1->0;
            &&& 0 <= w <= u64::MAX
            &&& w < max_duration_nanos()
            &&& (now / s.period + 1) * s.period <= u64::MAX ==> w > 0 && now + w == (now / s.period + 1) * s.period
        }),
{
    let p = s.period;
    let window = now / p;
    vstd::arithmetic::div_mod::lemma_fundamental_div_mod(now, p);
    vstd::arithmetic::div_mod::lemma_mod_bound(now, p);
    assert(0 <= window) by {
        vstd::arithmetic::div_mod::lemma_div_pos_is_pos(now, p);
    }
    assert((window + 1) * p == window * p + p) by (nonlinear_arith);
    assert(window * p <= now < window * p + p) by (nonlinear_arith)
        requires
            now == p * window + now % p,
            0 <= now % p < p,
    ;
    assert(sat_add(window, 1) == window + 1 || sat_add(window, 1) == u64::MAX);
    let a = sat_add(window, 1);
    assert(a >= 1);
    assert(a * p >= window * p + p || a == u64::MAX) by (nonlinear_arith)
        requires
            a == window + 1 || a == u64::MAX,
            (window + 1) * p == window * p + p,
    ;
    if a == u64::MAX {
        assert(a * p >= a) by (nonlinear_arith)
            requires
                p >= 1,
                a >= 1,
        ;
    }
}

} // verus!
