//! What one key sees over a run of checks.
//!
//! A store takes checks one after another, each a `Store::check` of the same
//! algorithm and quota. As long as a key is not evicted once it has been
//! seen, the outcomes it gets are exactly its algorithm's run over its own
//! requests, from fresh state at its first request: the other keys' checks
//! make no difference. Each algorithm's admission bound then holds per key.

use core::time::Duration;
use vstd::prelude::*;

use crate::algo::fixed_window::{lemma_fixed_window_never_over_admits, times_from, window_length};
use crate::algo::token::token_bucket_live;
use crate::algo::leaky::{lemma_leaky_bucket_burst_bound, leaky_far_from_end, leaky_initial};
use crate::algo::runs::{
    lemma_fixed_window_units, lemma_fresh_ran, lemma_leaky_units, lemma_run_outcomes_push,
    lemma_sliding_counter_units, lemma_sliding_log_units, lemma_step_ran, run_outcomes, units_allowed,
};
use crate::algo::sliding_counter::lemma_sliding_counter_bounds;
use crate::algo::sliding_log::{lemma_sliding_log_never_over_admits, still_counts};
use crate::algo::AlgoState;
use crate::algo::token::{
    last_instant, lemma_token_bucket_never_over_grants, lemma_token_bucket_refill_bound, token_bucket_initial,
    token_count, token_granted, token_run, token_step, TokenBucket,
};
use crate::algorithm::Algorithm;
use crate::decision::Outcome;
use crate::key::Key;
use crate::quota::QuotaView;
use crate::store::{holds_key, lemma_checked_layout, make_room, store_checked, Entry, Store};
use crate::time::{clamp_u64, nanos_of};

verus! {

/// Whether `stores` are the states a store passes through as it takes the
/// checks `reqs` (each a key, a number of units and an elapsed time), one
/// after another, answering `outs`: every check a `Store::check` of
/// `algorithm` and quota `q`.
pub open spec fn checked_run(
    stores: Seq<Store>,
    reqs: Seq<(Key, u32, Duration)>,
    outs: Seq<Outcome>,
    algorithm: Algorithm,
    q: QuotaView,
) -> bool {
    &&& stores.len() == reqs.len() + 1
    &&& outs.len() == reqs.len()
    &&& forall|i: int| 0 <= i < stores.len() ==> #[trigger] stores[i].wf()
    &&& forall|i: int|
        0 <= i < reqs.len() ==> #[trigger] store_checked(
            stores[i],
            stores[i + 1],
            reqs[i].0,
            reqs[i].1 as int,
            reqs[i].2,
            algorithm,
            q,
            outs[i],
        )
}

/// The checks of `reqs` on the key with bytes `k`, in order, each as its units
/// and its elapsed time in nanoseconds.
pub open spec fn requests_on(reqs: Seq<(Key, u32, Duration)>, k: Seq<u8>) -> Seq<(u32, u64)>
    decreases reqs.len(),
{
    if reqs.len() == 0 {
        Seq::empty()
    } else {
        let before = requests_on(reqs.drop_last(), k);
        let r = reqs.last();
        if r.0@ == k {
            before.push((r.1, clamp_u64(nanos_of(r.2) as int) as u64))
        } else {
            before
        }
    }
}

/// The outcomes, among `outs`, of the checks of `reqs` on the key `k`.
pub open spec fn outcomes_on(reqs: Seq<(Key, u32, Duration)>, outs: Seq<Outcome>, k: Seq<u8>) -> Seq<Outcome>
    decreases reqs.len(),
{
    if reqs.len() == 0 || outs.len() == 0 {
        Seq::empty()
    } else {
        let before = outcomes_on(reqs.drop_last(), outs.drop_last(), k);
        if reqs.last().0@ == k {
            before.push(outs.last())
        } else {
            before
        }
    }
}

/// The elapsed time, in nanoseconds, of the first check on the key `k` (zero
/// if there is none).
pub open spec fn first_on(reqs: Seq<(Key, u32, Duration)>, k: Seq<u8>) -> int
    decreases reqs.len(),
{
    if reqs.len() == 0 {
        0
    } else if requests_on(reqs.drop_last(), k).len() > 0 {
        first_on(reqs.drop_last(), k)
    } else if reqs.last().0@ == k {
        clamp_u64(nanos_of(reqs.last().2) as int)
    } else {
        0
    }
}

/// Whether the key `k`, once checked, is held by the store after every later
/// check: it is never evicted.
pub open spec fn kept(stores: Seq<Store>, reqs: Seq<(Key, u32, Duration)>, k: Seq<u8>) -> bool {
    forall|i: int|
        0 <= i < stores.len() && requests_on(reqs.take(i), k).len() > 0 ==> holds_key(
            #[trigger] stores[i].entries(stores[i].shard_of(k)),
            k,
        )
}

/// What holds of the key `k` after the checks `reqs`, answered `outs`: held
/// exactly when it has been checked, its state the run of its algorithm over
/// its own requests, and its outcomes that run's outcomes.
spec fn key_alone(st: Store, reqs: Seq<(Key, u32, Duration)>, outs: Seq<Outcome>, algorithm: Algorithm, q: QuotaView, k: Seq<u8>) -> bool {
    let ks = requests_on(reqs, k);
    let shard = st.entries(st.shard_of(k));
    &&& ks.len() == 0 ==> !holds_key(shard, k)
    &&& ks.len() > 0 ==> exists|j: int|
        0 <= j < shard.len() && shard[j].key@ == k && (#[trigger] shard[j]).state.ran(algorithm, q, first_on(reqs, k), ks)
    &&& outcomes_on(reqs, outs, k) == run_outcomes(algorithm, q, first_on(reqs, k), ks)
}

proof fn lemma_first_on_range(reqs: Seq<(Key, u32, Duration)>, k: Seq<u8>)
    ensures
        0 <= first_on(reqs, k) <= u64::MAX,
    decreases reqs.len(),
{
    if reqs.len() > 0 {
        lemma_first_on_range(reqs.drop_last(), k);
    }
}

proof fn lemma_outcomes_on_len(reqs: Seq<(Key, u32, Duration)>, outs: Seq<Outcome>, k: Seq<u8>)
    requires
        outs.len() == reqs.len(),
    ensures
        outcomes_on(reqs, outs, k).len() == requests_on(reqs, k).len(),
    decreases reqs.len(),
{
    if reqs.len() > 0 {
        lemma_outcomes_on_len(reqs.drop_last(), outs.drop_last(), k);
    }
}

/// One check keeps `key_alone` for `k`, provided `k`, if seen, is still held
/// after it.
proof fn lemma_key_alone_step(
    before: Store,
    after: Store,
    reqs: Seq<(Key, u32, Duration)>,
    outs: Seq<Outcome>,
    r: (Key, u32, Duration),
    out: Outcome,
    algorithm: Algorithm,
    q: QuotaView,
    k: Seq<u8>,
)
    requires
        algorithm != Algorithm::TokenBucket,
        before.wf(),
        after.wf(),
        outs.len() == reqs.len(),
        store_checked(before, after, r.0, r.1 as int, r.2, algorithm, q, out),
        key_alone(before, reqs, outs, algorithm, q, k),
        requests_on(reqs.push(r), k).len() > 0 ==> holds_key(after.entries(after.shard_of(k)), k),
    ensures
        key_alone(after, reqs.push(r), outs.push(out), algorithm, q, k),
{
    let reqs2 = reqs.push(r);
    let outs2 = outs.push(out);
    assert(reqs2.drop_last() =~= reqs);
    assert(outs2.drop_last() =~= outs);
    let ks = requests_on(reqs, k);
    let first = first_on(reqs, k);
    let rk = r.0@;
    let sr = before.shard_of(rk);
    let sk = before.shard_of(k);
    let now_ns = clamp_u64(nanos_of(r.2) as int);
    let now_ms = clamp_u64(nanos_of(r.2) as int / 1_000_000);
    let b = before.entries(sr);
    let a = after.entries(sr);
    before.lemma_shard_of_in_range(rk);
    before.lemma_shard_of_in_range(k);
    before.lemma_entries_placed();
    after.lemma_entries_placed();
    lemma_checked_layout(before, after, r.0, r.1 as int, r.2, algorithm, q, out);
    assert(after.shard_of(k) == sk);
    if rk == k {
        let t: u64 = now_ns as u64;
        lemma_run_outcomes_push(algorithm, q, first, ks, r.1, t);
        if holds_key(b, k) {
            let (i, next) = choose|i: int, next: AlgoState| #![trigger b[i].state.step(r.1 as int, now_ns, next, out)]
                0 <= i < b.len() && b[i].key@ == rk && b[i].state.step(r.1 as int, now_ns, next, out)
                    && a == b.update(i, Entry { key: b[i].key, state: next, last_seen_ms: now_ms as u64 });
            let j = choose|j: int| 0 <= j < b.len() && b[j].key@ == k && (#[trigger] b[j]).state.ran(algorithm, q, first, ks);
            assert(keys_distinct_at(b, i, j));
            lemma_step_ran(b[i].state, algorithm, q, first, ks, r.1, t, next, out);
            assert(a[i].state == next);
            assert(a[i].key@ == k);
            assert(requests_on(reqs2, k) =~= ks.push((r.1, t)));
            assert(first_on(reqs2, k) == first);
            assert(outcomes_on(reqs2, outs2, k) == outcomes_on(reqs, outs, k).push(out));
        } else {
            let (fresh, next) = choose|fresh: AlgoState, next: AlgoState| #![trigger fresh.step(r.1 as int, now_ns, next, out)]
                fresh.fresh(algorithm, q, now_ns) && fresh.step(r.1 as int, now_ns, next, out)
                    && a == make_room(b, now_ms, before.ttl(), before.cap()).push(
                        Entry { key: r.0, state: next, last_seen_ms: now_ms as u64 },
                    );
            assert(ks.len() == 0);
            lemma_fresh_ran(fresh, algorithm, q, now_ns);
            lemma_run_outcomes_push(algorithm, q, now_ns, ks, r.1, t);
            lemma_step_ran(fresh, algorithm, q, now_ns, ks, r.1, t, next, out);
            let last = a.len() - 1;
            assert(a[last].state == next);
            assert(a[last].key@ == k);
            assert(requests_on(reqs2, k) =~= ks.push((r.1, t)));
            assert(first_on(reqs2, k) == now_ns);
            assert(ks =~= Seq::<(u32, u64)>::empty());
            assert(outcomes_on(reqs2, outs2, k) == outcomes_on(reqs, outs, k).push(out));
        }
    } else {
        assert(requests_on(reqs2, k) == ks);
        assert(outcomes_on(reqs2, outs2, k) == outcomes_on(reqs, outs, k));
        let bk = before.entries(sk);
        let ak = after.entries(sk);
        if ks.len() > 0 {
            let j = choose|j: int| 0 <= j < bk.len() && bk[j].key@ == k && (#[trigger] bk[j]).state.ran(algorithm, q, first, ks);
            let j2 = choose|j2: int| 0 <= j2 < ak.len() && #[trigger] ak[j2].key@ == k;
            assert(bk.contains(ak[j2])) by {
                if sk != sr {
                    assert(ak[j2] == bk[j2]);
                }
            }
            let j3 = choose|j3: int| 0 <= j3 < bk.len() && bk[j3] == ak[j2];
            assert(keys_distinct_at(bk, j, j3));
            assert(ak[j2].state.ran(algorithm, q, first_on(reqs2, k), ks));
        } else {
            if holds_key(ak, k) {
                let j2 = choose|j2: int| 0 <= j2 < ak.len() && #[trigger] ak[j2].key@ == k;
                assert(bk.contains(ak[j2])) by {
                    if sk != sr {
                        assert(ak[j2] == bk[j2]);
                    }
                }
                let j3 = choose|j3: int| 0 <= j3 < bk.len() && bk[j3] == ak[j2];
                assert(bk[j3].key@ == k);
            }
        }
    }
}

/// Two entries of a shard with the same key bytes are one entry.
spec fn keys_distinct_at(entries: Seq<Entry>, i: int, j: int) -> bool {
    0 <= i < entries.len() && 0 <= j < entries.len() && entries[i].key@ == entries[j].key@ ==> i == j
}


proof fn lemma_key_alone_prefix(
    stores: Seq<Store>,
    reqs: Seq<(Key, u32, Duration)>,
    outs: Seq<Outcome>,
    algorithm: Algorithm,
    q: QuotaView,
    k: Seq<u8>,
    i: int,
)
    requires
        algorithm != Algorithm::TokenBucket,
        checked_run(stores, reqs, outs, algorithm, q),
        !holds_key(stores[0].entries(stores[0].shard_of(k)), k),
        kept(stores, reqs, k),
        0 <= i <= reqs.len(),
    ensures
        key_alone(stores[i], reqs.take(i), outs.take(i), algorithm, q, k),
    decreases i,
{
    if i == 0 {
        assert(reqs.take(0) =~= Seq::<(Key, u32, Duration)>::empty());
        assert(outs.take(0) =~= Seq::<Outcome>::empty());
    } else {
        lemma_key_alone_prefix(stores, reqs, outs, algorithm, q, k, i - 1);
        assert(reqs.take(i) =~= reqs.take(i - 1).push(reqs[i - 1]));
        assert(outs.take(i) =~= outs.take(i - 1).push(outs[i - 1]));
        let x = i - 1;
        assert(store_checked(stores[x], stores[x + 1], reqs[x].0, reqs[x].1 as int, reqs[x].2, algorithm, q, outs[x]));
        assert(stores[x + 1] == stores[i]);
        assert(requests_on(reqs.take(i), k).len() > 0 ==> holds_key(stores[i].entries(stores[i].shard_of(k)), k));
        lemma_key_alone_step(
            stores[i - 1],
            stores[i],
            reqs.take(i - 1),
            outs.take(i - 1),
            reqs[i - 1],
            outs[i - 1],
            algorithm,
            q,
            k,
        );
    }
}

/// Keys run alone: over a run of checks on a store, a key that is absent at
/// the start and, once checked, never evicted gets exactly the outcomes of its
/// algorithm's run over its own checks, from fresh state at its first check.
/// The other keys' checks make no difference. (The token bucket's outcomes are
/// `better-bucket`'s and are not modelled.)
pub proof fn lemma_keys_run_alone(
    stores: Seq<Store>,
    reqs: Seq<(Key, u32, Duration)>,
    outs: Seq<Outcome>,
    algorithm: Algorithm,
    q: QuotaView,
    k: Seq<u8>,
)
    requires
        algorithm != Algorithm::TokenBucket,
        checked_run(stores, reqs, outs, algorithm, q),
        !holds_key(stores[0].entries(stores[0].shard_of(k)), k),
        kept(stores, reqs, k),
    ensures
        outcomes_on(reqs, outs, k) == run_outcomes(algorithm, q, first_on(reqs, k), requests_on(reqs, k)),
{
    lemma_key_alone_prefix(stores, reqs, outs, algorithm, q, k, reqs.len() as int);
    assert(reqs.take(reqs.len() as int) =~= reqs);
    assert(outs.take(reqs.len() as int) =~= outs);
}

proof fn lemma_no_eviction_prefix(
    stores: Seq<Store>,
    reqs: Seq<(Key, u32, Duration)>,
    outs: Seq<Outcome>,
    algorithm: Algorithm,
    q: QuotaView,
    k: Seq<u8>,
    i: int,
)
    requires
        checked_run(stores, reqs, outs, algorithm, q),
        stores[0].cap() is None,
        stores[0].ttl() is None,
        0 <= i < stores.len(),
    ensures
        stores[i].cap() is None,
        stores[i].ttl() is None,
        requests_on(reqs.take(i), k).len() > 0 ==> holds_key(stores[i].entries(stores[i].shard_of(k)), k),
    decreases i,
{
    if i > 0 {
        lemma_no_eviction_prefix(stores, reqs, outs, algorithm, q, k, i - 1);
        let before = stores[i - 1];
        let after = stores[i];
        let r = reqs[i - 1];
        let x = i - 1;
        assert(store_checked(stores[x], stores[x + 1], reqs[x].0, reqs[x].1 as int, reqs[x].2, algorithm, q, outs[x]));
        assert(stores[x + 1] == after);
        assert(before.wf());
        lemma_checked_layout(before, after, r.0, r.1 as int, r.2, algorithm, q, outs[i - 1]);
        assert(reqs.take(i) =~= reqs.take(i - 1).push(r));
        assert(reqs.take(i).drop_last() =~= reqs.take(i - 1));
        let rk = r.0@;
        let sr = before.shard_of(rk);
        let sk = before.shard_of(k);
        let now_ms = clamp_u64(nanos_of(r.2) as int / 1_000_000);
        before.lemma_shard_of_in_range(rk);
        before.lemma_shard_of_in_range(k);
        if rk != k && requests_on(reqs.take(i), k).len() > 0 {
            assert(requests_on(reqs.take(i), k) == requests_on(reqs.take(i - 1), k));
            let bk = before.entries(sk);
            let ak = after.entries(sk);
            let j = choose|j: int| 0 <= j < bk.len() && #[trigger] bk[j].key@ == k;
            if sk == sr {
                let b = before.entries(sr);
                let a = after.entries(sr);
                if holds_key(b, rk) {
                    let now_ns = clamp_u64(nanos_of(r.2) as int);
                    let (x, next) = choose|x: int, next: AlgoState| #![trigger b[x].state.step(r.1 as int, now_ns, next, outs[i - 1])]
                        0 <= x < b.len() && b[x].key@ == rk && b[x].state.step(r.1 as int, now_ns, next, outs[i - 1])
                            && a == b.update(x, Entry { key: b[x].key, state: next, last_seen_ms: now_ms as u64 });
                    assert(a[j] == b[j]);
                } else {
                    assert(make_room(b, now_ms, before.ttl(), before.cap()) == b);
                    assert(a[j] == b[j]);
                }
            } else {
                assert(ak == bk);
            }
            assert(ak[j].key@ == k);
        }
    }
}

/// With no cap and no idle TTL, a store never evicts: once checked, a key
/// stays.
pub proof fn lemma_no_eviction_keeps_keys(
    stores: Seq<Store>,
    reqs: Seq<(Key, u32, Duration)>,
    outs: Seq<Outcome>,
    algorithm: Algorithm,
    q: QuotaView,
    k: Seq<u8>,
)
    requires
        checked_run(stores, reqs, outs, algorithm, q),
        stores[0].cap() is None,
        stores[0].ttl() is None,
    ensures
        kept(stores, reqs, k),
{
    assert forall|i: int| 0 <= i < stores.len() && requests_on(reqs.take(i), k).len() > 0 implies holds_key(
        #[trigger] stores[i].entries(stores[i].shard_of(k)),
        k,
    ) by {
        lemma_no_eviction_prefix(stores, reqs, outs, algorithm, q, k, i);
    }
}

/// No over-admission per key, fixed window: over a run of checks on a store,
/// for a key absent at the start and never evicted once checked, whose own
/// checks never run backwards, the units admitted to it at instants in any one
/// aligned window never exceed the limit.
pub proof fn lemma_fixed_window_key_never_over_admits(
    stores: Seq<Store>,
    reqs: Seq<(Key, u32, Duration)>,
    outs: Seq<Outcome>,
    q: QuotaView,
    k: Seq<u8>,
    w: int,
)
    requires
        checked_run(stores, reqs, outs, Algorithm::FixedWindow, q),
        !holds_key(stores[0].entries(stores[0].shard_of(k)), k),
        kept(stores, reqs, k),
        times_from(first_on(reqs, k), requests_on(reqs, k)),
    ensures
        units_allowed(requests_on(reqs, k), outcomes_on(reqs, outs, k), |t: int| t / window_length(q) == w)
            <= q.limit,
{
    let first = first_on(reqs, k);
    let ks = requests_on(reqs, k);
    lemma_keys_run_alone(stores, reqs, outs, Algorithm::FixedWindow, q, k);
    lemma_first_on_range(reqs, k);
    lemma_fixed_window_units(q, first, ks, w);
    lemma_fixed_window_never_over_admits(q, first as u64, ks, w);
}

/// No over-admission per key, sliding log: under the same conditions, the
/// units admitted to the key that still count at any instant `at` (admitted
/// at most `at`, less than a period before it) never exceed the limit.
pub proof fn lemma_sliding_log_key_never_over_admits(
    stores: Seq<Store>,
    reqs: Seq<(Key, u32, Duration)>,
    outs: Seq<Outcome>,
    q: QuotaView,
    k: Seq<u8>,
    at: int,
)
    requires
        checked_run(stores, reqs, outs, Algorithm::SlidingWindowLog, q),
        !holds_key(stores[0].entries(stores[0].shard_of(k)), k),
        kept(stores, reqs, k),
        times_from(first_on(reqs, k), requests_on(reqs, k)),
    ensures
        units_allowed(
            requests_on(reqs, k),
            outcomes_on(reqs, outs, k),
            |t: int| t <= at && still_counts(t, window_length(q), at),
        ) <= q.limit,
{
    let first = first_on(reqs, k);
    let ks = requests_on(reqs, k);
    lemma_keys_run_alone(stores, reqs, outs, Algorithm::SlidingWindowLog, q, k);
    lemma_first_on_range(reqs, k);
    lemma_sliding_log_units(q, first, ks, at);
    lemma_sliding_log_never_over_admits(q, first as u64, ks, at);
}

/// Per key, sliding counter: under the same conditions, the units admitted to
/// the key in any aligned window never exceed the limit, and in any trailing
/// window of one period never exceed twice the limit.
pub proof fn lemma_sliding_counter_key_bounds(
    stores: Seq<Store>,
    reqs: Seq<(Key, u32, Duration)>,
    outs: Seq<Outcome>,
    q: QuotaView,
    k: Seq<u8>,
    w: int,
    at: int,
)
    requires
        checked_run(stores, reqs, outs, Algorithm::SlidingWindowCounter, q),
        !holds_key(stores[0].entries(stores[0].shard_of(k)), k),
        kept(stores, reqs, k),
        times_from(first_on(reqs, k), requests_on(reqs, k)),
    ensures
        units_allowed(requests_on(reqs, k), outcomes_on(reqs, outs, k), |t: int| t / window_length(q) == w)
            <= q.limit,
        units_allowed(
            requests_on(reqs, k),
            outcomes_on(reqs, outs, k),
            |t: int| at - window_length(q) < t <= at,
        ) <= 2 * q.limit,
{
    let first = first_on(reqs, k);
    let ks = requests_on(reqs, k);
    lemma_keys_run_alone(stores, reqs, outs, Algorithm::SlidingWindowCounter, q, k);
    lemma_first_on_range(reqs, k);
    lemma_sliding_counter_units(q, first, ks, w, at);
    lemma_sliding_counter_bounds(q, first as u64, ks, w, at);
}

/// Per key, leaky bucket: under the same conditions (and with the key's
/// instants far from the end of the 64-bit nanosecond range), the units
/// admitted to the key in any trailing window of `width` nanoseconds, spaced
/// one emission interval apart, fit within the window plus the burst tolerance
/// plus one interval.
pub proof fn lemma_leaky_bucket_key_burst_bound(
    stores: Seq<Store>,
    reqs: Seq<(Key, u32, Duration)>,
    outs: Seq<Outcome>,
    q: QuotaView,
    k: Seq<u8>,
    at: int,
    width: int,
)
    requires
        checked_run(stores, reqs, outs, Algorithm::LeakyBucket, q),
        !holds_key(stores[0].entries(stores[0].shard_of(k)), k),
        kept(stores, reqs, k),
        times_from(first_on(reqs, k), requests_on(reqs, k)),
        width >= 1,
        leaky_far_from_end(leaky_initial(q, first_on(reqs, k)), first_on(reqs, k)),
        forall|i: int|
            0 <= i < requests_on(reqs, k).len() ==> leaky_far_from_end(
                leaky_initial(q, first_on(reqs, k)),
                #[trigger] requests_on(reqs, k)[i].1 as int,
            ),
    ensures
        units_allowed(requests_on(reqs, k), outcomes_on(reqs, outs, k), |t: int| at - width < t <= at)
            * leaky_initial(q, first_on(reqs, k)).interval < width + leaky_initial(q, first_on(reqs, k)).tolerance
            + leaky_initial(q, first_on(reqs, k)).interval,
{
    let first = first_on(reqs, k);
    let ks = requests_on(reqs, k);
    lemma_keys_run_alone(stores, reqs, outs, Algorithm::LeakyBucket, q, k);
    lemma_first_on_range(reqs, k);
    lemma_leaky_units(q, first, ks, at, width);
    lemma_leaky_bucket_burst_bound(q, first as u64, ks, at, width);
}


/// What holds of the key `k` under the token bucket after the checks `reqs`,
/// answered `outs`: held exactly when it has been checked, its bucket reached
/// from one full at its first check by a run over its own requests, with the
/// outcomes it got.
spec fn key_bucket(st: Store, reqs: Seq<(Key, u32, Duration)>, outs: Seq<Outcome>, q: QuotaView, k: Seq<u8>) -> bool {
    let ks = requests_on(reqs, k);
    let shard = st.entries(st.shard_of(k));
    &&& ks.len() == 0 ==> !holds_key(shard, k)
    &&& ks.len() > 0 ==> exists|j: int, bs: Seq<TokenBucket>|
        0 <= j < shard.len() && shard[j].key@ == k && (#[trigger] shard[j]).state == AlgoState::TokenBucket(bs.last())
            && #[trigger] token_run(bs, ks, outcomes_on(reqs, outs, k)) && token_bucket_initial(bs[0], q, first_on(reqs, k))
}

proof fn lemma_token_run_push(
    bs: Seq<TokenBucket>,
    ks: Seq<(u32, u64)>,
    os: Seq<Outcome>,
    b2: TokenBucket,
    n: u32,
    t: u64,
    out: Outcome,
)
    requires
        token_run(bs, ks, os),
        token_step(bs.last(), n as int, t as int, b2, out),
    ensures
        token_run(bs.push(b2), ks.push((n, t)), os.push(out)),
        bs.push(b2)[0] == bs[0],
        bs.push(b2).last() == b2,
{
    let bs2 = bs.push(b2);
    let ks2 = ks.push((n, t));
    let os2 = os.push(out);
    assert forall|i: int| 0 <= i < ks2.len() implies #[trigger] token_step(
        bs2[i],
        ks2[i].0 as int,
        ks2[i].1 as int,
        bs2[i + 1],
        os2[i],
    ) by {
        if i < ks.len() {
            assert(token_step(bs[i], ks[i].0 as int, ks[i].1 as int, bs[i + 1], os[i]));
        }
    }
}

proof fn lemma_key_bucket_step(
    before: Store,
    after: Store,
    reqs: Seq<(Key, u32, Duration)>,
    outs: Seq<Outcome>,
    r: (Key, u32, Duration),
    out: Outcome,
    q: QuotaView,
    k: Seq<u8>,
)
    requires
        before.wf(),
        after.wf(),
        outs.len() == reqs.len(),
        store_checked(before, after, r.0, r.1 as int, r.2, Algorithm::TokenBucket, q, out),
        key_bucket(before, reqs, outs, q, k),
        requests_on(reqs.push(r), k).len() > 0 ==> holds_key(after.entries(after.shard_of(k)), k),
    ensures
        key_bucket(after, reqs.push(r), outs.push(out), q, k),
{
    let reqs2 = reqs.push(r);
    let outs2 = outs.push(out);
    assert(reqs2.drop_last() =~= reqs);
    assert(outs2.drop_last() =~= outs);
    let ks = requests_on(reqs, k);
    let os = outcomes_on(reqs, outs, k);
    let first = first_on(reqs, k);
    let rk = r.0@;
    let sr = before.shard_of(rk);
    let sk = before.shard_of(k);
    let now_ns = clamp_u64(nanos_of(r.2) as int);
    let now_ms = clamp_u64(nanos_of(r.2) as int / 1_000_000);
    let b = before.entries(sr);
    let a = after.entries(sr);
    before.lemma_shard_of_in_range(rk);
    before.lemma_shard_of_in_range(k);
    before.lemma_entries_placed();
    after.lemma_entries_placed();
    lemma_checked_layout(before, after, r.0, r.1 as int, r.2, Algorithm::TokenBucket, q, out);
    assert(after.shard_of(k) == sk);
    lemma_outcomes_on_len(reqs, outs, k);
    if rk == k {
        let t: u64 = now_ns as u64;
        assert(requests_on(reqs2, k) =~= ks.push((r.1, t)));
        assert(outcomes_on(reqs2, outs2, k) == os.push(out));
        if holds_key(b, k) {
            let (i, next) = choose|i: int, next: AlgoState| #![trigger b[i].state.step(r.1 as int, now_ns, next, out)]
                0 <= i < b.len() && b[i].key@ == rk && b[i].state.step(r.1 as int, now_ns, next, out)
                    && a == b.update(i, Entry { key: b[i].key, state: next, last_seen_ms: now_ms as u64 });
            let (j, bs) = choose|j: int, bs: Seq<TokenBucket>|
                0 <= j < b.len() && b[j].key@ == k && (#[trigger] b[j]).state == AlgoState::TokenBucket(bs.last())
                    && #[trigger] token_run(bs, ks, os) && token_bucket_initial(bs[0], q, first);
            assert(keys_distinct_at(b, i, j));
            let b2 = next->TokenBucket_0;
            lemma_token_run_push(bs, ks, os, b2, r.1, t, out);
            assert(first_on(reqs2, k) == first);
            assert(a[i].state == AlgoState::TokenBucket(bs.push(b2).last()));
            assert(a[i].key@ == k);
        } else {
            let (fresh, next) = choose|fresh: AlgoState, next: AlgoState| #![trigger fresh.step(r.1 as int, now_ns, next, out)]
                fresh.fresh(Algorithm::TokenBucket, q, now_ns) && fresh.step(r.1 as int, now_ns, next, out)
                    && a == make_room(b, now_ms, before.ttl(), before.cap()).push(
                        Entry { key: r.0, state: next, last_seen_ms: now_ms as u64 },
                    );
            assert(ks.len() == 0);
            assert(ks =~= Seq::<(u32, u64)>::empty());
            assert(os =~= Seq::<Outcome>::empty());
            let b0 = fresh->TokenBucket_0;
            let b2 = next->TokenBucket_0;
            let bs0 = seq![b0];
            assert(token_run(bs0, ks, os));
            lemma_token_run_push(bs0, ks, os, b2, r.1, t, out);
            assert(first_on(reqs2, k) == now_ns);
            let last = a.len() - 1;
            assert(a[last].state == AlgoState::TokenBucket(bs0.push(b2).last()));
            assert(a[last].key@ == k);
        }
    } else {
        assert(requests_on(reqs2, k) == ks);
        assert(outcomes_on(reqs2, outs2, k) == os);
        let bk = before.entries(sk);
        let ak = after.entries(sk);
        if ks.len() > 0 {
            let (j, bs) = choose|j: int, bs: Seq<TokenBucket>|
                0 <= j < bk.len() && bk[j].key@ == k && (#[trigger] bk[j]).state == AlgoState::TokenBucket(bs.last())
                    && #[trigger] token_run(bs, ks, os) && token_bucket_initial(bs[0], q, first);
            let j2 = choose|j2: int| 0 <= j2 < ak.len() && #[trigger] ak[j2].key@ == k;
            assert(bk.contains(ak[j2])) by {
                if sk != sr {
                    assert(ak[j2] == bk[j2]);
                }
            }
            let j3 = choose|j3: int| 0 <= j3 < bk.len() && bk[j3] == ak[j2];
            assert(keys_distinct_at(bk, j, j3));
            assert(first_on(reqs2, k) == first);
            assert(ak[j2].state == AlgoState::TokenBucket(bs.last()));
        } else {
            if holds_key(ak, k) {
                let j2 = choose|j2: int| 0 <= j2 < ak.len() && #[trigger] ak[j2].key@ == k;
                assert(bk.contains(ak[j2])) by {
                    if sk != sr {
                        assert(ak[j2] == bk[j2]);
                    }
                }
                let j3 = choose|j3: int| 0 <= j3 < bk.len() && bk[j3] == ak[j2];
                assert(bk[j3].key@ == k);
            }
        }
    }
}

proof fn lemma_key_bucket_prefix(
    stores: Seq<Store>,
    reqs: Seq<(Key, u32, Duration)>,
    outs: Seq<Outcome>,
    q: QuotaView,
    k: Seq<u8>,
    i: int,
)
    requires
        checked_run(stores, reqs, outs, Algorithm::TokenBucket, q),
        !holds_key(stores[0].entries(stores[0].shard_of(k)), k),
        kept(stores, reqs, k),
        0 <= i <= reqs.len(),
    ensures
        key_bucket(stores[i], reqs.take(i), outs.take(i), q, k),
    decreases i,
{
    if i == 0 {
        assert(reqs.take(0) =~= Seq::<(Key, u32, Duration)>::empty());
        assert(outs.take(0) =~= Seq::<Outcome>::empty());
    } else {
        lemma_key_bucket_prefix(stores, reqs, outs, q, k, i - 1);
        assert(reqs.take(i) =~= reqs.take(i - 1).push(reqs[i - 1]));
        assert(outs.take(i) =~= outs.take(i - 1).push(outs[i - 1]));
        let x = i - 1;
        assert(store_checked(stores[x], stores[x + 1], reqs[x].0, reqs[x].1 as int, reqs[x].2, Algorithm::TokenBucket, q, outs[x]));
        assert(stores[x + 1] == stores[i]);
        assert(requests_on(reqs.take(i), k).len() > 0 ==> holds_key(stores[i].entries(stores[i].shard_of(k)), k));
        lemma_key_bucket_step(stores[i - 1], stores[i], reqs.take(i - 1), outs.take(i - 1), reqs[i - 1], outs[i - 1], q, k);
    }
}

/// No over-grant per key, token bucket: over a run of checks on a store, for a
/// key absent at the start and never evicted once checked, whose own checks
/// never run backwards, there is a bucket full at the key's first check such
/// that what the key was granted, in that bucket's units, never exceeds a full
/// bucket plus the units accrued from its first check to its last.
pub proof fn lemma_token_bucket_key_never_over_grants(
    stores: Seq<Store>,
    reqs: Seq<(Key, u32, Duration)>,
    outs: Seq<Outcome>,
    q: QuotaView,
    k: Seq<u8>,
)
    requires
        checked_run(stores, reqs, outs, Algorithm::TokenBucket, q),
        !holds_key(stores[0].entries(stores[0].shard_of(k)), k),
        kept(stores, reqs, k),
        token_bucket_live(q),
        requests_on(reqs, k).len() > 0,
        times_from(first_on(reqs, k), requests_on(reqs, k)),
    ensures
        exists|b0: TokenBucket|
            token_bucket_initial(b0, q, first_on(reqs, k)) && #[trigger] token_granted(b0, requests_on(reqs, k), outcomes_on(reqs, outs, k))
                <= b0.burst() + b0.units(last_instant(first_on(reqs, k), requests_on(reqs, k))) - b0.units(first_on(reqs, k)),
{
    lemma_key_bucket_prefix(stores, reqs, outs, q, k, reqs.len() as int);
    assert(reqs.take(reqs.len() as int) =~= reqs);
    assert(outs.take(reqs.len() as int) =~= outs);
    let ks = requests_on(reqs, k);
    let os = outcomes_on(reqs, outs, k);
    let first = first_on(reqs, k);
    let st = stores[reqs.len() as int];
    let shard = st.entries(st.shard_of(k));
    let (j, bs) = choose|j: int, bs: Seq<TokenBucket>|
        0 <= j < shard.len() && shard[j].key@ == k && (#[trigger] shard[j]).state == AlgoState::TokenBucket(bs.last())
            && #[trigger] token_run(bs, ks, os) && token_bucket_initial(bs[0], q, first);
    lemma_first_on_range(reqs, k);
    lemma_token_bucket_never_over_grants(bs, ks, os, first as u64);
    assert(token_granted(bs[0], ks, os) <= bs[0].burst() + bs[0].units(last_instant(first, ks)) - bs[0].units(first));
}

/// No over-admission per key, token bucket, in tokens: over a run of checks on
/// a store, for a key absent at the start and never evicted once checked, whose
/// own checks never run backwards, under a quota of `limit` per `period`
/// nanoseconds (at most 4.3 tokens per nanosecond, a period that fits 64 bits)
/// with burst `burst`, the tokens the key was granted by its last check stay
/// below its burst plus two plus what refilled since its first check:
/// `period * granted < period * (burst + 2) + (last - first) * limit`. For a key
/// first checked at time zero the slack is one token: over `E` whole periods it
/// is granted at most `burst + E * limit`.
pub proof fn lemma_token_bucket_key_refill_bound(
    stores: Seq<Store>,
    reqs: Seq<(Key, u32, Duration)>,
    outs: Seq<Outcome>,
    q: QuotaView,
    k: Seq<u8>,
)
    requires
        checked_run(stores, reqs, outs, Algorithm::TokenBucket, q),
        !holds_key(stores[0].entries(stores[0].shard_of(k)), k),
        kept(stores, reqs, k),
        token_bucket_live(q),
        10 * q.limit <= 43 * q.period,
        q.period <= u64::MAX,
        requests_on(reqs, k).len() > 0,
        times_from(first_on(reqs, k), requests_on(reqs, k)),
    ensures
        ({
            let g = token_count(requests_on(reqs, k), outcomes_on(reqs, outs, k));
            let first = first_on(reqs, k);
            let last = last_instant(first, requests_on(reqs, k));
            &&& q.period * g < q.period * (q.burst + 2) + (last - first) * q.limit
            &&& first == 0 ==> q.period * g < q.period * (q.burst + 1) + last * q.limit
        }),
{
    lemma_key_bucket_prefix(stores, reqs, outs, q, k, reqs.len() as int);
    assert(reqs.take(reqs.len() as int) =~= reqs);
    assert(outs.take(reqs.len() as int) =~= outs);
    let ks = requests_on(reqs, k);
    let os = outcomes_on(reqs, outs, k);
    let first = first_on(reqs, k);
    let st = stores[reqs.len() as int];
    let shard = st.entries(st.shard_of(k));
    let (j, bs) = choose|j: int, bs: Seq<TokenBucket>|
        0 <= j < shard.len() && shard[j].key@ == k && (#[trigger] shard[j]).state == AlgoState::TokenBucket(bs.last())
            && #[trigger] token_run(bs, ks, os) && token_bucket_initial(bs[0], q, first);
    lemma_first_on_range(reqs, k);
    lemma_token_bucket_refill_bound(bs, ks, os, first as u64);
}

} // verus!
