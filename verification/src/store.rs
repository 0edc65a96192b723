//! The sharded, bounded-memory per-key state store.
//!
//! Keys are spread across a power-of-two number of shards by a seeded hash of
//! their bytes. Each shard holds its entries in a vector in which no key
//! appears twice. Eviction is lazy and per shard: it runs only when a new key
//! is inserted, and only looks at the shard receiving it. Idle keys past the
//! TTL are dropped; if the shard is still at its cap, its least-recently-seen
//! keys are evicted to make room.

use core::time::Duration;
use std::collections::hash_map::RandomState;
use std::hash::BuildHasher;
use vstd::prelude::*;

use crate::algo::{lemma_fresh_is_configured, lemma_step_keeps_configured, AlgoState};
use crate::algorithm::Algorithm;
use crate::decision::{Decision, Outcome};
use crate::eviction::Eviction;
use crate::key::Key;
use crate::quota::{Quota, QuotaView};
use crate::time::{clamp_u64, millis_u64, nanos_of, sat_sub};

verus! {

/// The hash `RandomState::hash_one` gives a key with these bytes. A
/// `RandomState` fixes its keys when it is built, so for one hasher the hash is
/// a function of the key's bytes.
pub uninterp spec fn key_hash(hasher: RandomState, key: Seq<u8>) -> u64;

/// `RandomState::new()`: a hasher with freshly drawn keys. Nothing is known of
/// the keys drawn.
#[verifier::external_body]
fn new_hasher() -> (r: RandomState) {
    RandomState::new()
}

/// `RandomState::hash_one(key)`. A key hashes its bytes alone, so the hash is
/// a function of the hasher and the bytes.
#[verifier::external_body]
fn hash_key(hasher: &RandomState, key: &Key) -> (r: u64)
    ensures
        r == key_hash(*hasher, key@),
{
    hasher.hash_one(key)
}

/// `2^k`.
pub open spec fn two_to(k: nat) -> nat
    decreases k,
{
    if k == 0 { 1 } else { 2 * two_to((k - 1) as nat) }
}

/// Whether `p` is the smallest power of two that is at least `x`.
pub open spec fn is_next_power_of_two(p: int, x: int) -> bool {
    exists|k: nat| p == #[trigger] two_to(k) && p >= x && (k == 0 || two_to((k - 1) as nat) < x)
}

/// The smallest power of two that is at least `x` (and at least one).
pub(crate) fn next_power_of_two(x: usize) -> (r: usize)
    requires
        x <= usize::MAX / 2 + 1,
    ensures
        is_next_power_of_two(r as int, if x == 0 { 1 } else { x as int }),
        r >= 1,
{
    let target: usize = if x == 0 { 1 } else { x };
    let mut p: usize = 1;
    let ghost mut k: nat = 0;
    while p < target
        invariant
            target <= usize::MAX / 2 + 1,
            target >= 1,
            p == two_to(k),
            p >= 1,
            k == 0 || two_to((k - 1) as nat) < target,
        decreases usize::MAX - p,
    {
        p = p * 2;
        proof {
            k = k + 1;
        }
    }
    p
}

/// One key's entry: the key, its algorithm state, and when it was last
/// checked (milliseconds since the limiter's epoch).
pub struct Entry {
    /// The key.
    pub key: Key,
    /// The algorithm's per-key state.
    pub state: AlgoState,
    /// When the key was last checked, in milliseconds.
    pub last_seen_ms: u64,
}

/// Whether no key appears twice among `entries`.
pub open spec fn keys_distinct(entries: Seq<Entry>) -> bool {
    forall|i: int, j: int|
        0 <= i < entries.len() && 0 <= j < entries.len() && i != j ==> #[trigger] entries[i].key@
            != #[trigger] entries[j].key@
}

/// Whether an entry last seen at `last_seen` is still fresh at `now` under an
/// idle TTL of `ttl` milliseconds.
pub open spec fn is_fresh(last_seen: int, now: int, ttl: int) -> bool {
    sat_sub(now, last_seen) < ttl
}

/// The entries whose idle time at `now` is under `ttl` milliseconds, in order.
pub open spec fn keep_fresh(entries: Seq<Entry>, now: int, ttl: int) -> Seq<Entry>
    decreases entries.len(),
{
    if entries.len() == 0 {
        entries
    } else {
        let rest = keep_fresh(entries.drop_last(), now, ttl);
        if is_fresh(entries.last().last_seen_ms as int, now, ttl) {
            rest.push(entries.last())
        } else {
            rest
        }
    }
}

/// The position of the first entry with the smallest last-seen time.
pub open spec fn first_least_recent(entries: Seq<Entry>) -> int
    decreases entries.len(),
{
    if entries.len() <= 1 {
        0
    } else {
        let k = first_least_recent(entries.drop_last());
        if entries.last().last_seen_ms < entries[k].last_seen_ms {
            entries.len() - 1
        } else {
            k
        }
    }
}

pub proof fn lemma_first_least_recent_bounds(entries: Seq<Entry>)
    requires
        entries.len() > 0,
    ensures
        0 <= first_least_recent(entries) < entries.len(),
        forall|j: int|
            0 <= j < entries.len() ==> entries[first_least_recent(entries)].last_seen_ms
                <= #[trigger] entries[j].last_seen_ms,
    decreases entries.len(),
{
    if entries.len() > 1 {
        let pre = entries.drop_last();
        lemma_first_least_recent_bounds(pre);
        let k = first_least_recent(pre);
        assert forall|j: int| 0 <= j < entries.len() implies entries[first_least_recent(entries)].last_seen_ms
            <= #[trigger] entries[j].last_seen_ms by {
            if j < entries.len() - 1 {
                assert(entries[j] == pre[j]);
            }
            assert(entries[k] == pre[k]);
        }
    }
}

/// The entries left once least-recently-seen ones are removed, one at a time,
/// until fewer than `cap` remain.
pub open spec fn evict_least_recent(entries: Seq<Entry>, cap: int) -> Seq<Entry>
    decreases entries.len(),
{
    if entries.len() > 0 && entries.len() >= cap {
        proof {
            lemma_first_least_recent_bounds(entries);
        }
        evict_least_recent(entries.remove(first_least_recent(entries)), cap)
    } else {
        entries
    }
}

/// A shard's entries once room has been made for a new key at `now`: idle
/// entries dropped first (under a TTL), then least-recently-seen ones until
/// the shard is below its cap.
pub open spec fn make_room(entries: Seq<Entry>, now: int, ttl: Option<u64>, cap: Option<usize>) -> Seq<Entry> {
    let kept = match ttl {
        Some(t) => keep_fresh(entries, now, t as int),
        None => entries,
    };
    match cap {
        Some(c) => evict_least_recent(kept, c as int),
        None => kept,
    }
}

/// The per-shard key cap for a total cap of `max` over `shards` shards: the
/// total spread evenly, rounded up, and at least one.
pub open spec fn per_shard_cap(max: int, shards: int) -> int {
    let c = (max + shards - 1) / shards;
    if c < 1 { 1 } else { c }
}

/// The sharded per-key store.
pub struct Store {
    shards: Vec<Vec<Entry>>,
    shard_mask: u64,
    hasher: RandomState,
    per_shard_cap: Option<usize>,
    idle_ttl_ms: Option<u64>,
}

impl Store {
    /// The number of shards.
    pub closed spec fn num_shards(&self) -> int {
        self.shards@.len() as int
    }

    /// The entries of shard `s`.
    pub closed spec fn entries(&self, s: int) -> Seq<Entry> {
        self.shards@[s]@
    }

    /// The shard a key with these bytes lives in.
    pub closed spec fn shard_of(&self, key: Seq<u8>) -> int {
        (key_hash(self.hasher, key) & self.shard_mask) as int
    }

    /// The most keys a shard holds, if capped.
    pub closed spec fn cap(&self) -> Option<usize> {
        self.per_shard_cap
    }

    /// The idle TTL, in milliseconds, if any.
    pub closed spec fn ttl(&self) -> Option<u64> {
        self.idle_ttl_ms
    }

    /// Whether the store is well formed: a power-of-two number of shards, each
    /// entry in the shard its key hashes to, no key twice in a shard, every
    /// state well formed, and every shard within its cap.
    pub closed spec fn wf(&self) -> bool {
        &&& self.shards@.len() >= 1
        &&& self.shards@.len() <= u64::MAX
        &&& exists|k: nat| self.shards@.len() == #[trigger] two_to(k)
        &&& self.shard_mask == self.shards@.len() - 1
        &&& forall|s: int, i: int|
            0 <= s < self.shards@.len() && 0 <= i < self.shards@[s]@.len() ==> self.shard_of(
                #[trigger] self.shards@[s]@[i].key@,
            ) == s
        &&& forall|s: int, i: int|
            0 <= s < self.shards@.len() && 0 <= i < self.shards@[s]@.len() ==> (
            #[trigger] self.shards@[s]@[i]).state.wf()
        &&& forall|s: int| 0 <= s < self.shards@.len() ==> keys_distinct(#[trigger] self.shards@[s]@)
        &&& match self.per_shard_cap {
            Some(c) => c >= 1 && forall|s: int|
                0 <= s < self.shards@.len() ==> #[trigger] self.shards@[s]@.len() <= c,
            None => true,
        }
    }
}

impl Store {
    /// Whether every key's state was built for `algorithm` under quota `q`.
    pub open spec fn all_configured(&self, algorithm: Algorithm, q: QuotaView) -> bool {
        forall|t: int, j: int|
            0 <= t < self.num_shards() && 0 <= j < self.entries(t).len() ==> (#[trigger] self.entries(t)[j]).state.configured(
                algorithm,
                q,
            )
    }
}

proof fn lemma_and_mask(h: u64, m: u64)
    by (bit_vector)
    ensures
        h & m <= m,
{
}

/// Where a key with these bytes sits among `entries`, if it does.
pub open spec fn holds_key(entries: Seq<Entry>, key: Seq<u8>) -> bool {
    exists|i: int| 0 <= i < entries.len() && #[trigger] entries[i].key@ == key
}

/// The position of `key` in `shard`, if present.
fn find(shard: &Vec<Entry>, key: &Key) -> (r: Option<usize>)
    ensures
        r matches Some(i) ==> i < shard@.len() && shard@[i as int].key@ == key@,
        r is None ==> !holds_key(shard@, key@),
{
    let mut i: usize = 0;
    while i < shard.len()
        invariant
            0 <= i <= shard@.len(),
            forall|j: int| 0 <= j < i ==> shard@[j].key@ != key@,
        decreases shard@.len() - i,
    {
        if shard[i].key.same_as(key) {
            return Some(i);
        }
        i = i + 1;
    }
    None
}

/// Every entry of `a` is an entry of `b`.
pub open spec fn drawn_from(a: Seq<Entry>, b: Seq<Entry>) -> bool {
    forall|i: int| 0 <= i < a.len() ==> b.contains(#[trigger] a[i])
}

proof fn lemma_keep_fresh(entries: Seq<Entry>, now: int, ttl: int)
    ensures
        drawn_from(keep_fresh(entries, now, ttl), entries),
        keys_distinct(entries) ==> keys_distinct(keep_fresh(entries, now, ttl)),
        keep_fresh(entries, now, ttl).len() <= entries.len(),
    decreases entries.len(),
{
    if entries.len() > 0 {
        let pre = entries.drop_last();
        lemma_keep_fresh(pre, now, ttl);
        let rest = keep_fresh(pre, now, ttl);
        let r = keep_fresh(entries, now, ttl);
        assert forall|i: int| 0 <= i < r.len() implies entries.contains(#[trigger] r[i]) by {
            if i < rest.len() {
                assert(pre.contains(rest[i]));
                let j = choose|j: int| 0 <= j < pre.len() && pre[j] == rest[i];
                assert(r[i] == entries[j]);
            } else {
                assert(r[i] == entries[entries.len() - 1]);
            }
        }
        if keys_distinct(entries) {
            assert(keys_distinct(pre)) by {
                assert forall|i: int, j: int| 0 <= i < pre.len() && 0 <= j < pre.len() && i != j implies #[trigger] pre[i].key@ != #[trigger] pre[j].key@ by {
                    assert(pre[i] == entries[i]);
                    assert(pre[j] == entries[j]);
                }
            }
            assert forall|i: int, j: int| 0 <= i < r.len() && 0 <= j < r.len() && i != j implies #[trigger] r[i].key@ != #[trigger] r[j].key@ by {
                if i < rest.len() && j < rest.len() {
                    assert(r[i] == rest[i]);
                    assert(r[j] == rest[j]);
                    assert(rest[i].key@ != rest[j].key@);
                } else if i < rest.len() {
                    assert(r.len() <= rest.len() + 1);
                    assert(j == rest.len());
                    assert(r[i] == rest[i]);
                    assert(pre.contains(rest[i]));
                    let a = choose|a: int| 0 <= a < pre.len() && pre[a] == rest[i];
                    assert(pre[a] == entries[a]);
                    assert(r[j] == entries[entries.len() - 1]);
                    assert(entries[a].key@ != entries[entries.len() - 1].key@);
                } else {
                    assert(r.len() <= rest.len() + 1);
                    assert(i == rest.len());
                    assert(j < rest.len());
                    assert(r[j] == rest[j]);
                    assert(pre.contains(rest[j]));
                    let b = choose|b: int| 0 <= b < pre.len() && pre[b] == rest[j];
                    assert(pre[b] == entries[b]);
                    assert(r[i] == entries[entries.len() - 1]);
                    assert(entries[b].key@ != entries[entries.len() - 1].key@);
                }
            }
        }
    }
}

proof fn lemma_remove_props(entries: Seq<Entry>, k: int)
    requires
        0 <= k < entries.len(),
    ensures
        drawn_from(entries.remove(k), entries),
        keys_distinct(entries) ==> keys_distinct(entries.remove(k)),
{
    let r = entries.remove(k);
    assert forall|i: int| 0 <= i < r.len() implies entries.contains(#[trigger] r[i]) by {
        if i < k {
            assert(r[i] == entries[i]);
        } else {
            assert(r[i] == entries[i + 1]);
        }
    }
    assert(drawn_from(r, entries));
    if keys_distinct(entries) {
        assert forall|i: int, j: int| 0 <= i < r.len() && 0 <= j < r.len() && i != j implies #[trigger] r[i].key@ != #[trigger] r[j].key@ by {
            let a = if i < k { i } else { i + 1 };
            let b = if j < k { j } else { j + 1 };
            assert(r[i] == entries[a]);
            assert(r[j] == entries[b]);
        }
    }
}

proof fn lemma_evict_least_recent(entries: Seq<Entry>, cap: int)
    requires
        cap >= 1,
    ensures
        drawn_from(evict_least_recent(entries, cap), entries),
        keys_distinct(entries) ==> keys_distinct(evict_least_recent(entries, cap)),
        evict_least_recent(entries, cap).len() < cap || evict_least_recent(entries, cap) == entries,
        evict_least_recent(entries, cap).len() <= entries.len(),
        entries.len() >= cap ==> evict_least_recent(entries, cap).len() < cap,
    decreases entries.len(),
{
    if entries.len() > 0 && entries.len() >= cap {
        lemma_first_least_recent_bounds(entries);
        let k = first_least_recent(entries);
        let smaller = entries.remove(k);
        lemma_remove_props(entries, k);
        lemma_evict_least_recent(smaller, cap);
        let r = evict_least_recent(smaller, cap);
        assert forall|i: int| 0 <= i < r.len() implies entries.contains(#[trigger] r[i]) by {
            assert(smaller.contains(r[i]));
            let a = choose|a: int| 0 <= a < smaller.len() && smaller[a] == r[i];
            assert(entries.contains(smaller[a]));
            let b = choose|b: int| 0 <= b < entries.len() && entries[b] == smaller[a];
        }
    }
}

proof fn lemma_make_room(entries: Seq<Entry>, now: int, ttl: Option<u64>, cap: Option<usize>)
    requires
        cap matches Some(c) ==> c >= 1,
    ensures
        drawn_from(make_room(entries, now, ttl, cap), entries),
        keys_distinct(entries) ==> keys_distinct(make_room(entries, now, ttl, cap)),
        cap matches Some(c) ==> make_room(entries, now, ttl, cap).len() < c,
        make_room(entries, now, ttl, cap).len() <= entries.len(),
{
    let kept = match ttl {
        Some(t) => keep_fresh(entries, now, t as int),
        None => entries,
    };
    if let Some(t) = ttl {
        lemma_keep_fresh(entries, now, t as int);
    }
    if let Some(c) = cap {
        lemma_evict_least_recent(kept, c as int);
        let r = evict_least_recent(kept, c as int);
        assert forall|i: int| 0 <= i < r.len() implies entries.contains(#[trigger] r[i]) by {
            assert(kept.contains(r[i]));
            let a = choose|a: int| 0 <= a < kept.len() && kept[a] == r[i];
            if ttl is Some {
                assert(entries.contains(kept[a]));
                let b = choose|b: int| 0 <= b < entries.len() && entries[b] == kept[a];
            } else {
                assert(r[i] == entries[a]);
            }
        }
    }
}

/// Drops the entries of `shard` idle for `ttl` milliseconds or more at `now`.
fn drop_idle(shard: &mut Vec<Entry>, now: u64, ttl: u64)
    ensures
        final(shard)@ == keep_fresh(old(shard)@, now as int, ttl as int),
{
    let ghost orig: Seq<Entry> = shard@;
    let ghost mut k: int = 0;
    let mut i: usize = 0;
    proof {
        assert(orig.take(0) =~= Seq::<Entry>::empty());
        assert(shard@ =~= keep_fresh(orig.take(0), now as int, ttl as int) + orig.skip(0));
    }
    while i < shard.len()
        invariant
            0 <= k <= orig.len(),
            shard@ == keep_fresh(orig.take(k), now as int, ttl as int) + orig.skip(k),
            i as int == keep_fresh(orig.take(k), now as int, ttl as int).len(),
        decreases orig.len() - k,
    {
        let ghost kept: Seq<Entry> = keep_fresh(orig.take(k), now as int, ttl as int);
        proof {
            assert(orig.take(k + 1).drop_last() =~= orig.take(k));
            assert(orig.take(k + 1).last() == orig[k]);
            assert(shard@[i as int] == orig[k]);
        }
        let idle: u64 = if now < shard[i].last_seen_ms {
            0
        } else {
            now - shard[i].last_seen_ms
        };
        if idle >= ttl {
            let _ = shard.remove(i);
            proof {
                assert(shard@ =~= keep_fresh(orig.take(k + 1), now as int, ttl as int) + orig.skip(k + 1));
            }
        } else {
            i = i + 1;
            proof {
                assert(shard@ =~= keep_fresh(orig.take(k + 1), now as int, ttl as int) + orig.skip(k + 1));
            }
        }
        proof {
            k = k + 1;
        }
    }
    proof {
        assert(k == orig.len());
        assert(orig.take(k) =~= orig);
        assert(shard@ =~= keep_fresh(orig, now as int, ttl as int));
    }
}

/// The position of the first entry of `shard` with the smallest last-seen
/// time.
fn least_recent(shard: &Vec<Entry>) -> (r: usize)
    requires
        shard@.len() > 0,
    ensures
        r as int == first_least_recent(shard@),
{
    let mut best: usize = 0;
    let mut j: usize = 1;
    proof {
        assert(shard@.take(1).len() == 1);
    }
    while j < shard.len()
        invariant
            1 <= j <= shard@.len(),
            best < j,
            best as int == first_least_recent(shard@.take(j as int)),
        decreases shard@.len() - j,
    {
        proof {
            assert(shard@.take(j + 1).drop_last() =~= shard@.take(j as int));
            assert(shard@.take(j + 1).last() == shard@[j as int]);
            assert(shard@.take(j + 1)[best as int] == shard@[best as int]);
        }
        if shard[j].last_seen_ms < shard[best].last_seen_ms {
            best = j;
        }
        j = j + 1;
    }
    proof {
        assert(shard@.take(j as int) =~= shard@);
    }
    best
}

/// Evicts least-recently-seen entries until fewer than `cap` remain.
fn evict_to_cap(shard: &mut Vec<Entry>, cap: usize)
    requires
        cap >= 1,
    ensures
        final(shard)@ == evict_least_recent(old(shard)@, cap as int),
{
    let ghost orig: Seq<Entry> = shard@;
    while shard.len() >= cap
        invariant
            cap >= 1,
            evict_least_recent(shard@, cap as int) == evict_least_recent(orig, cap as int),
        decreases shard@.len(),
    {
        let j: usize = least_recent(shard);
        proof {
            lemma_first_least_recent_bounds(shard@);
        }
        let _ = shard.remove(j);
    }
}

/// What a check of `n` units against `key` at elapsed time `now` does to a
/// store, with outcome `out`: the key's shard alone changes. If the key is
/// there, its state takes one step and its last-seen time moves to `now`; if
/// not, room is made in the shard and the key is added with fresh state that
/// has taken the request.
pub open spec fn store_checked(
    before_store: Store,
    after_store: Store,
    key: Key,
    n: int,
    now: Duration,
    algorithm: Algorithm,
    quota: QuotaView,
    out: Outcome,
) -> bool {
    let k = key@;
    let s = before_store.shard_of(k);
    let now_ns = clamp_u64(nanos_of(now) as int);
    let now_ms = clamp_u64(nanos_of(now) as int / 1_000_000);
    let before = before_store.entries(s);
    let after = after_store.entries(s);
    &&& after_store.same_layout(&before_store)
    &&& forall|t: int| 0 <= t < before_store.num_shards() && t != s ==> #[trigger] after_store.entries(t) == before_store.entries(t)
    &&& holds_key(before, k) ==> exists|i: int, next: AlgoState| #![trigger before[i], next.wf()]
        0 <= i < before.len() && before[i].key@ == k && before[i].state.step(n, now_ns, next, out)
            && after == before.update(i, Entry { key: before[i].key, state: next, last_seen_ms: now_ms as u64 })
    &&& !holds_key(before, k) ==> exists|fresh: AlgoState, next: AlgoState| #![trigger fresh.wf(), next.wf()]
        fresh.fresh(algorithm, quota, now_ns) && fresh.step(n, now_ns, next, out)
            && after == make_room(before, now_ms, before_store.ttl(), before_store.cap()).push(
                Entry { key, state: next, last_seen_ms: now_ms as u64 },
            )
    &&& holds_key(after, k)
    &&& forall|j: int| 0 <= j < after.len() && (#[trigger] after[j]).key@ != k ==> before.contains(after[j])
}

impl Store {
    /// A store with `shards` shards (rounded up to a power of two, at least
    /// one), all empty, bounded by `eviction`.
    pub fn new(shards: usize, eviction: Eviction) -> (r: Self)
        requires
            shards <= usize::MAX / 2 + 1,
        ensures
            r.wf(),
            is_next_power_of_two(r.num_shards(), if shards == 0 { 1 } else { shards as int }),
            forall|s: int| 0 <= s < r.num_shards() ==> #[trigger] r.entries(s).len() == 0,
            r.total_keys() == 0,
            r.cap() == match eviction@.max_keys {
                Some(m) => Some(per_shard_cap(m as int, r.num_shards()) as usize),
                None => None::<usize>,
            },
            r.ttl() == match eviction@.idle_ttl {
                Some(t) => Some(clamp_u64(nanos_of(t) as int / 1_000_000) as u64),
                None => None::<u64>,
            },
    {
        let shard_count: usize = next_power_of_two(shards);
        let per_shard_cap: Option<usize> = match eviction.max_keys() {
            Some(max) => {
                let q: usize = max / shard_count;
                let m: usize = max % shard_count;
                proof {
                    vstd::arithmetic::div_mod::lemma_fundamental_div_mod(max as int, shard_count as int);
                    vstd::arithmetic::div_mod::lemma_mod_bound(max as int, shard_count as int);
                    let d = shard_count as int;
                    let qi = q as int;
                    let mi = m as int;
                    assert(max as int == qi * d + mi) by (nonlinear_arith)
                        requires
                            max as int == d * qi + mi,
                    ;
                    if m != 0 {
                        assert(d >= 2);
                        assert(qi < usize::MAX) by (nonlinear_arith)
                            requires
                                max as int == qi * d + mi,
                                d >= 2,
                                mi >= 0,
                                qi >= 0,
                                max <= usize::MAX,
                        ;
                        assert(max as int + d - 1 == (qi + 1) * d + (mi - 1)) by (nonlinear_arith)
                            requires
                                max as int == qi * d + mi,
                        ;
                        vstd::arithmetic::div_mod::lemma_fundamental_div_mod_converse(
                            max as int + d - 1,
                            d,
                            qi + 1,
                            mi - 1,
                        );
                    } else {
                        assert(max as int + d - 1 == qi * d + (d - 1));
                        vstd::arithmetic::div_mod::lemma_fundamental_div_mod_converse(
                            max as int + d - 1,
                            d,
                            qi,
                            d - 1,
                        );
                    }
                }
                let c: usize = if m != 0 { q + 1 } else { q };
                Some(if c < 1 { 1usize } else { c })
            },
            None => None,
        };
        let idle_ttl_ms: Option<u64> = match eviction.idle_ttl() {
            Some(ttl) => Some(millis_u64(ttl)),
            None => None,
        };
        let mut all: Vec<Vec<Entry>> = Vec::with_capacity(shard_count);
        let mut i: usize = 0;
        while i < shard_count
            invariant
                0 <= i <= shard_count,
                all@.len() == i,
                forall|s: int| 0 <= s < i ==> #[trigger] all@[s]@.len() == 0,
            decreases shard_count - i,
        {
            all.push(Vec::new());
            i = i + 1;
        }
        let r = Store {
            shards: all,
            shard_mask: (shard_count - 1) as u64,
            hasher: new_hasher(),
            per_shard_cap,
            idle_ttl_ms,
        };
        proof {
            lemma_keys_in_empty(&r, r.num_shards());
            let k = choose|k: nat| shard_count == #[trigger] two_to(k) && shard_count >= (if shards == 0 { 1 } else { shards as int }) && (k == 0 || two_to((k - 1) as nat) < (if shards == 0 { 1 } else { shards as int }));
            assert(r.shards@.len() == two_to(k));
        }
        r
    }

    /// The shard a key lives in.
    fn shard_index(&self, key: &Key) -> (r: usize)
        requires
            self.wf(),
        ensures
            r as int == self.shard_of(key@),
            r < self.num_shards(),
    {
        let h: u64 = hash_key(&self.hasher, key);
        proof {
            lemma_and_mask(h, self.shard_mask);
        }
        let idx: u64 = h & self.shard_mask;
        assert(idx <= self.shard_mask);
        assert(idx < self.shards@.len());
        assert(h == key_hash(self.hasher, key@));
        assert(idx as int == self.shard_of(key@));
        let count: usize = self.shards.len();
        assert(idx < count);
        idx as usize
    }



    /// A well-formed store's cap, if any, is at least one and every shard is
    /// within it.
    pub proof fn lemma_cap_holds(&self)
        requires
            self.wf(),
        ensures
            self.num_shards() >= 1,
            self.cap() matches Some(c) ==> c >= 1 && forall|s: int|
                0 <= s < self.num_shards() ==> #[trigger] self.entries(s).len() <= c,
    {
    }

    /// In a well-formed store no key appears twice in a shard, and every
    /// entry sits in the shard its key hashes to.
    pub proof fn lemma_entries_placed(&self)
        requires
            self.wf(),
        ensures
            forall|t: int| 0 <= t < self.num_shards() ==> keys_distinct(#[trigger] self.entries(t)),
            forall|t: int, j: int|
                0 <= t < self.num_shards() && 0 <= j < self.entries(t).len() ==> self.shard_of(
                    #[trigger] self.entries(t)[j].key@,
                ) == t,
    {
    }

    /// Every key hashes to one of the store's shards.
    pub proof fn lemma_shard_of_in_range(&self, key: Seq<u8>)
        requires
            self.wf(),
        ensures
            0 <= self.shard_of(key) < self.num_shards(),
    {
        lemma_and_mask(key_hash(self.hasher, key), self.shard_mask);
    }

    /// The same hasher, mask, cap and TTL: keys map to the same shards.
    pub closed spec fn same_layout(&self, other: &Store) -> bool {
        &&& self.shards@.len() == other.shards@.len()
        &&& self.hasher == other.hasher
        &&& self.shard_mask == other.shard_mask
        &&& self.per_shard_cap == other.per_shard_cap
        &&& self.idle_ttl_ms == other.idle_ttl_ms
    }

    /// Checks `n` units against `key` at elapsed time `now`. An existing key's
    /// state takes the request and its last-seen time moves to `now`; a key
    /// seen for the first time gets fresh state for `algorithm` and `quota`,
    /// after room is made in its shard.
    pub fn check(&mut self, key: Key, n: u32, now: Duration, algorithm: Algorithm, quota: &Quota) -> (d: Decision)
        requires
            old(self).wf(),
        ensures
            final(self).wf(),
            store_checked(*old(self), *final(self), key, n as int, now, algorithm, quota@, d@),
            old(self).all_configured(algorithm, quota@) ==> final(self).all_configured(algorithm, quota@),
    {
        let now_ms: u64 = millis_u64(now);
        let idx: usize = self.shard_index(&key);
        let ghost before: Seq<Entry> = self.shards@[idx as int]@;
        let ghost old_self: Store = *self;
        let found: Option<usize> = find(&self.shards[idx], &key);
        match found {
            Some(i) => {
                let shard: &mut Vec<Entry> = &mut self.shards[idx];
                let entry: &mut Entry = &mut shard[i];
                entry.last_seen_ms = now_ms;
                let d: Decision = entry.state.acquire(n, now);
                proof {
                    let after = self.shards@[idx as int]@;
                    if old_self.all_configured(algorithm, quota@) {
                        assert(before[i as int] == old_self.entries(idx as int)[i as int]);
                        lemma_step_keeps_configured(
                            before[i as int].state,
                            algorithm,
                            quota@,
                            n as int,
                            clamp_u64(nanos_of(now) as int),
                            after[i as int].state,
                            d@,
                        );
                        assert forall|t: int, j: int|
                            0 <= t < self.num_shards() && 0 <= j < self.entries(t).len() implies (#[trigger] self.entries(
                            t,
                        )[j]).state.configured(algorithm, quota@) by {
                            if t == idx as int {
                                if j != i as int {
                                    assert(after[j] == before[j]);
                                    assert(old_self.entries(t)[j] == before[j]);
                                }
                            } else {
                                assert(self.shards@[t] == old_self.shards@[t]);
                                assert(old_self.entries(t)[j] == self.entries(t)[j]);
                            }
                        }
                    }
                    assert(after.len() == before.len());
                    assert forall|t: int, j: int|
                        0 <= t < self.shards@.len() && 0 <= j < self.shards@[t]@.len() implies self.shard_of(
                        #[trigger] self.shards@[t]@[j].key@) == t && self.shards@[t]@[j].state.wf() by {
                        if t == idx as int {
                            if j != i as int {
                                assert(after[j] == before[j]);
                            }
                        } else {
                            assert(self.shards@[t] == old_self.shards@[t]);
                        }
                    }
                    assert forall|t: int| 0 <= t < self.shards@.len() implies keys_distinct(#[trigger] self.shards@[t]@) by {
                        if t == idx as int {
                            assert forall|a: int, b: int| 0 <= a < after.len() && 0 <= b < after.len() && a != b implies #[trigger] after[a].key@ != #[trigger] after[b].key@ by {
                                assert(after[a].key@ == before[a].key@);
                                assert(after[b].key@ == before[b].key@);
                            }
                        } else {
                            assert(self.shards@[t] == old_self.shards@[t]);
                        }
                    }
                    if let Some(c) = self.per_shard_cap {
                        assert forall|t: int| 0 <= t < self.shards@.len() implies #[trigger] self.shards@[t]@.len() <= c by {
                            if t != idx as int {
                                assert(self.shards@[t] == old_self.shards@[t]);
                            }
                        }
                    }
                    let kk = choose|kk: nat| old_self.shards@.len() == #[trigger] two_to(kk);
                    assert(self.shards@.len() == two_to(kk));
                    assert(after[i as int].key@ == key@);
                    assert forall|j: int| 0 <= j < after.len() && (#[trigger] after[j]).key@ != key@ implies before.contains(after[j]) by {
                        assert(j != i as int);
                        assert(after[j] == before[j]);
                    }
                }
                d
            },
            None => {
                let shard: &mut Vec<Entry> = &mut self.shards[idx];
                match self.idle_ttl_ms {
                    Some(ttl) => drop_idle(shard, now_ms, ttl),
                    None => {},
                }
                match self.per_shard_cap {
                    Some(c) => evict_to_cap(shard, c),
                    None => {},
                }
                let mut state: AlgoState = AlgoState::new(algorithm, quota, now);
                let ghost fresh_state: AlgoState = state;
                let d: Decision = state.acquire(n, now);
                proof {
                    lemma_fresh_is_configured(fresh_state, algorithm, quota@, clamp_u64(nanos_of(now) as int));
                    lemma_step_keeps_configured(
                        fresh_state,
                        algorithm,
                        quota@,
                        n as int,
                        clamp_u64(nanos_of(now) as int),
                        state,
                        d@,
                    );
                }
                let ghost roomy: Seq<Entry> = shard@;
                let ghost new_key: Seq<u8> = key@;
                shard.push(Entry { key, state, last_seen_ms: now_ms });
                proof {
                    let after = self.shards@[idx as int]@;
                    lemma_make_room(before, now_ms as int, old_self.idle_ttl_ms, old_self.per_shard_cap);
                    assert(roomy == make_room(before, now_ms as int, old_self.idle_ttl_ms, old_self.per_shard_cap));
                    assert(after.len() == roomy.len() + 1);
                    assert forall|j: int| 0 <= j < roomy.len() implies #[trigger] after[j] == roomy[j] && before.contains(roomy[j]) by {
                    }
                    assert forall|t: int, j: int|
                        0 <= t < self.shards@.len() && 0 <= j < self.shards@[t]@.len() implies self.shard_of(
                        #[trigger] self.shards@[t]@[j].key@) == t && self.shards@[t]@[j].state.wf() by {
                        if t == idx as int {
                            if j < roomy.len() {
                                assert(after[j] == roomy[j]);
                                assert(before.contains(roomy[j]));
                                let b = choose|b: int| 0 <= b < before.len() && before[b] == roomy[j];
                                assert(old_self.shards@[t]@[b] == before[b]);
                            } else {
                                assert(after[j].key@ == new_key);
                            }
                        } else {
                            assert(self.shards@[t] == old_self.shards@[t]);
                        }
                    }
                    assert forall|t: int| 0 <= t < self.shards@.len() implies keys_distinct(#[trigger] self.shards@[t]@) by {
                        if t == idx as int {
                            assert forall|a: int, b: int| 0 <= a < after.len() && 0 <= b < after.len() && a != b implies #[trigger] after[a].key@ != #[trigger] after[b].key@ by {
                                if a < roomy.len() && b < roomy.len() {
                                    assert(after[a] == roomy[a]);
                                    assert(after[b] == roomy[b]);
                                    assert(roomy[a].key@ != roomy[b].key@);
                                } else if a < roomy.len() {
                                    assert(after[a] == roomy[a]);
                                    assert(before.contains(roomy[a]));
                                    let x = choose|x: int| 0 <= x < before.len() && before[x] == roomy[a];
                                    assert(before[x].key@ == roomy[a].key@);
                                } else {
                                    assert(after[b] == roomy[b]);
                                    assert(before.contains(roomy[b]));
                                    let x = choose|x: int| 0 <= x < before.len() && before[x] == roomy[b];
                                    assert(before[x].key@ == roomy[b].key@);
                                }
                            }
                        } else {
                            assert(self.shards@[t] == old_self.shards@[t]);
                        }
                    }
                    if let Some(c) = self.per_shard_cap {
                        assert forall|t: int| 0 <= t < self.shards@.len() implies #[trigger] self.shards@[t]@.len() <= c by {
                            if t != idx as int {
                                assert(self.shards@[t] == old_self.shards@[t]);
                            }
                        }
                    }
                    let kk = choose|kk: nat| old_self.shards@.len() == #[trigger] two_to(kk);
                    assert(self.shards@.len() == two_to(kk));
                    assert(after[roomy.len() as int].key@ == key@);
                    if old_self.all_configured(algorithm, quota@) {
                        assert forall|t: int, j: int|
                            0 <= t < self.num_shards() && 0 <= j < self.entries(t).len() implies (#[trigger] self.entries(
                            t,
                        )[j]).state.configured(algorithm, quota@) by {
                            if t == idx as int {
                                if j < roomy.len() {
                                    assert(after[j] == roomy[j]);
                                    assert(before.contains(roomy[j]));
                                    let b = choose|b: int| 0 <= b < before.len() && before[b] == roomy[j];
                                    assert(old_self.entries(t)[b] == before[b]);
                                } else {
                                    assert(after[j].state == state);
                                }
                            } else {
                                assert(self.shards@[t] == old_self.shards@[t]);
                                assert(old_self.entries(t)[j] == self.entries(t)[j]);
                            }
                        }
                    }
                    assert forall|j: int| 0 <= j < after.len() && (#[trigger] after[j]).key@ != key@ implies before.contains(after[j]) by {
                        assert(j < roomy.len());
                        assert(after[j] == roomy[j]);
                    }
                }
                d
            },
        }
    }


    /// The number of keys held in shards `0..upto`.
    pub closed spec fn keys_in(&self, upto: int) -> int
        decreases upto,
    {
        if upto <= 0 {
            0
        } else {
            self.keys_in(upto - 1) + self.shards@[upto - 1]@.len()
        }
    }

    /// The number of keys held.
    pub open spec fn total_keys(&self) -> int {
        self.keys_in(self.num_shards())
    }

    /// The number of keys with live state, saturating at `usize::MAX`.
    pub fn len(&self) -> (r: usize)
        ensures
            r as int == if self.total_keys() > usize::MAX { usize::MAX as int } else { self.total_keys() },
    {
        let mut total: usize = 0;
        let mut saturated: bool = false;
        let mut s: usize = 0;
        while s < self.shards.len()
            invariant
                0 <= s <= self.shards@.len(),
                saturated ==> total == usize::MAX && self.keys_in(s as int) >= usize::MAX,
                !saturated ==> total as int == self.keys_in(s as int),
            decreases self.shards@.len() - s,
        {
            let len: usize = self.shards[s].len();
            if !saturated {
                if total > usize::MAX - len {
                    total = usize::MAX;
                    saturated = true;
                } else {
                    total = total + len;
                }
            }
            s = s + 1;
        }
        total
    }

    /// The number of shards (a power of two).
    pub fn shard_count(&self) -> (r: usize)
        ensures
            r as int == self.num_shards(),
    {
        self.shards.len()
    }
}

proof fn lemma_keys_in_bounded(st: &Store, upto: int, c: int)
    requires
        0 <= upto <= st.num_shards(),
        forall|s: int| 0 <= s < st.num_shards() ==> #[trigger] st.entries(s).len() <= c,
    ensures
        0 <= st.keys_in(upto) <= c * upto,
    decreases upto,
{
    reveal_with_fuel(Store::keys_in, 2);
    if upto == 0 {
        assert(c * upto == 0) by (nonlinear_arith)
            requires
                upto == 0,
        ;
    } else {
        lemma_keys_in_bounded(st, upto - 1, c);
        assert(st.entries(upto - 1).len() <= c);
        assert(c * (upto - 1) + c == c * upto) by (nonlinear_arith);
    }
}

/// Bounded memory: a well-formed store with a per-shard cap holds at most
/// that cap times the number of shards, however many distinct keys it has
/// seen.
pub proof fn lemma_store_memory_bounded(store: Store)
    requires
        store.wf(),
        store.cap() is Some,
    ensures
        store.total_keys() <= store.cap().unwrap() * store.num_shards(),
{
    let c = store.cap().unwrap() as int;
    store.lemma_cap_holds();
    lemma_keys_in_bounded(&store, store.num_shards(), c);
}

/// Keys are independent: a check on `key` leaves every other key's entry as
/// it was (it may only evict it to make room), and afterwards `key` is held,
/// once, in its shard.
pub proof fn lemma_check_spares_other_keys(
    before: Store,
    after: Store,
    key: Key,
    n: int,
    now: Duration,
    algorithm: Algorithm,
    quota: QuotaView,
    out: Outcome,
)
    requires
        before.wf(),
        store_checked(before, after, key, n, now, algorithm, quota, out),
    ensures
        forall|t: int, j: int|
            0 <= t < after.num_shards() && 0 <= j < after.entries(t).len() && (#[trigger] after.entries(t)[j]).key@
                != key@ ==> before.entries(t).contains(after.entries(t)[j]),
        holds_key(after.entries(before.shard_of(key@)), key@),
{
    let s = before.shard_of(key@);
    before.lemma_shard_of_in_range(key@);
    assert forall|t: int, j: int|
        0 <= t < after.num_shards() && 0 <= j < after.entries(t).len() && (#[trigger] after.entries(t)[j]).key@
            != key@ implies before.entries(t).contains(after.entries(t)[j]) by {
        if t != s {
            assert(after.entries(t) == before.entries(t));
            assert(before.entries(t)[j] == after.entries(t)[j]);
        }
    }
}


/// A check's outcome is a step of the state the key held, or of fresh state
/// for the algorithm and quota; either was built for them if every state in
/// the store was.
pub proof fn lemma_checked_step(
    before: Store,
    after: Store,
    key: Key,
    n: int,
    now: Duration,
    algorithm: Algorithm,
    quota: QuotaView,
    out: Outcome,
) -> (r: (AlgoState, AlgoState))
    requires
        before.wf(),
        store_checked(before, after, key, n, now, algorithm, quota, out),
    ensures
        r.0.step(n, clamp_u64(nanos_of(now) as int), r.1, out),
        before.all_configured(algorithm, quota) ==> r.0.configured(algorithm, quota),
{
    let k = key@;
    let s = before.shard_of(k);
    let now_ns = clamp_u64(nanos_of(now) as int);
    let now_ms = clamp_u64(nanos_of(now) as int / 1_000_000);
    let b = before.entries(s);
    let a = after.entries(s);
    before.lemma_shard_of_in_range(k);
    if holds_key(b, k) {
        let (i, next) = choose|i: int, next: AlgoState| #![trigger b[i].state.step(n, now_ns, next, out)]
            0 <= i < b.len() && b[i].key@ == k && b[i].state.step(n, now_ns, next, out)
                && a == b.update(i, Entry { key: b[i].key, state: next, last_seen_ms: now_ms as u64 });
        assert(before.entries(s)[i] == b[i]);
        (b[i].state, next)
    } else {
        let (fresh, next) = choose|fresh: AlgoState, next: AlgoState| #![trigger fresh.step(n, now_ns, next, out)]
            fresh.fresh(algorithm, quota, now_ns) && fresh.step(n, now_ns, next, out)
                && a == make_room(b, now_ms, before.ttl(), before.cap()).push(
                    Entry { key, state: next, last_seen_ms: now_ms as u64 },
                );
        lemma_fresh_is_configured(fresh, algorithm, quota, now_ns);
        (fresh, next)
    }
}

/// A check keeps the store's layout: its shard count, cap and TTL.
pub proof fn lemma_checked_layout(
    before: Store,
    after: Store,
    key: Key,
    n: int,
    now: Duration,
    algorithm: Algorithm,
    quota: QuotaView,
    out: Outcome,
)
    requires
        store_checked(before, after, key, n, now, algorithm, quota, out),
    ensures
        after.num_shards() == before.num_shards(),
        after.cap() == before.cap(),
        after.ttl() == before.ttl(),
        forall|k: Seq<u8>| #[trigger] after.shard_of(k) == before.shard_of(k),
{
}


/// Shards other than `s` hold the same entries in both stores: the key count
/// over the first `upto` shards differs by the change in shard `s` alone.
proof fn lemma_keys_in_one_shard_changed(a: Store, b: Store, s: int, upto: int)
    requires
        a.num_shards() == b.num_shards(),
        0 <= s < a.num_shards(),
        0 <= upto <= a.num_shards(),
        forall|t: int| 0 <= t < a.num_shards() && t != s ==> #[trigger] b.entries(t) == a.entries(t),
    ensures
        b.keys_in(upto) == a.keys_in(upto) + if s < upto {
            b.entries(s).len() - a.entries(s).len()
        } else {
            0
        },
    decreases upto,
{
    if upto > 0 {
        lemma_keys_in_one_shard_changed(a, b, s, upto - 1);
        if upto - 1 != s {
            assert(b.entries(upto - 1) == a.entries(upto - 1));
        }
    }
}

/// Counting keys: a check on a key the store already holds leaves the number
/// of keys as it was; a check on a new key adds at most one, and exactly one
/// when the store neither caps nor expires keys.
pub proof fn lemma_check_counts_keys(
    before: Store,
    after: Store,
    key: Key,
    n: int,
    now: Duration,
    algorithm: Algorithm,
    quota: QuotaView,
    out: Outcome,
)
    requires
        before.wf(),
        store_checked(before, after, key, n, now, algorithm, quota, out),
    ensures
        holds_key(before.entries(before.shard_of(key@)), key@) ==> after.total_keys() == before.total_keys(),
        !holds_key(before.entries(before.shard_of(key@)), key@) ==> after.total_keys() <= before.total_keys() + 1,
        !holds_key(before.entries(before.shard_of(key@)), key@) && before.cap() is None && before.ttl() is None
            ==> after.total_keys() == before.total_keys() + 1,
{
    let k = key@;
    let s = before.shard_of(k);
    let now_ms = clamp_u64(nanos_of(now) as int / 1_000_000);
    let b = before.entries(s);
    before.lemma_shard_of_in_range(k);
    lemma_keys_in_one_shard_changed(before, after, s, before.num_shards());
    if !holds_key(b, k) {
        before.lemma_cap_holds();
        lemma_make_room(b, now_ms, before.ttl(), before.cap());
    }
}


proof fn lemma_keep_fresh_keeps(entries: Seq<Entry>, now: int, ttl: int, e: Entry)
    requires
        entries.contains(e),
        is_fresh(e.last_seen_ms as int, now, ttl),
    ensures
        keep_fresh(entries, now, ttl).contains(e),
    decreases entries.len(),
{
    let pre = entries.drop_last();
    let rest = keep_fresh(pre, now, ttl);
    if entries.last() == e {
        assert(keep_fresh(entries, now, ttl) == rest.push(e));
        assert(rest.push(e)[rest.len() as int] == e);
    } else {
        let i = choose|i: int| 0 <= i < entries.len() && entries[i] == e;
        assert(pre[i] == e);
        lemma_keep_fresh_keeps(pre, now, ttl, e);
        let j = choose|j: int| 0 <= j < rest.len() && rest[j] == e;
        if is_fresh(entries.last().last_seen_ms as int, now, ttl) {
            assert(rest.push(entries.last())[j] == e);
        }
    }
}

proof fn lemma_evict_keeps_most_recent(entries: Seq<Entry>, cap: int, e: Entry)
    requires
        cap >= 2,
        entries.contains(e),
        forall|j: int| 0 <= j < entries.len() && entries[j] != e ==> #[trigger] entries[j].last_seen_ms < e.last_seen_ms,
    ensures
        evict_least_recent(entries, cap).contains(e),
    decreases entries.len(),
{
    if entries.len() > 0 && entries.len() >= cap {
        lemma_first_least_recent_bounds(entries);
        let k = first_least_recent(entries);
        let smaller = entries.remove(k);
        let i = choose|i: int| 0 <= i < entries.len() && entries[i] == e;
        if i != k {
            if i < k {
                assert(smaller[i] == e);
            } else {
                assert(smaller[i - 1] == e);
            }
        } else {
            let j: int = if k == 0 { 1 } else { 0 };
            assert(entries[k].last_seen_ms <= entries[j].last_seen_ms);
            assert(entries[j] == e);
            if j < k {
                assert(smaller[j] == e);
            } else {
                assert(smaller[j - 1] == e);
            }
        }
        assert forall|j: int| 0 <= j < smaller.len() && smaller[j] != e implies #[trigger] smaller[j].last_seen_ms
            < e.last_seen_ms by {
            if j < k {
                assert(smaller[j] == entries[j]);
            } else {
                assert(smaller[j] == entries[j + 1]);
            }
        }
        lemma_evict_keeps_most_recent(smaller, cap, e);
    }
}

/// Least-recently-seen eviction spares the most recent key: when room is made
/// in a shard whose cap, if any, is at least two, an entry seen more recently
/// than every other one, and not idle past the TTL, stays.
pub proof fn lemma_room_spares_most_recent(
    entries: Seq<Entry>,
    now: int,
    ttl: Option<u64>,
    cap: Option<usize>,
    e: Entry,
)
    requires
        entries.contains(e),
        forall|j: int| 0 <= j < entries.len() && entries[j] != e ==> #[trigger] entries[j].last_seen_ms < e.last_seen_ms,
        ttl matches Some(t) ==> is_fresh(e.last_seen_ms as int, now, t as int),
        cap matches Some(c) ==> c >= 2,
    ensures
        make_room(entries, now, ttl, cap).contains(e),
{
    let kept = match ttl {
        Some(t) => keep_fresh(entries, now, t as int),
        None => entries,
    };
    if let Some(t) = ttl {
        lemma_keep_fresh(entries, now, t as int);
        lemma_keep_fresh_keeps(entries, now, t as int, e);
        assert forall|j: int| 0 <= j < kept.len() && kept[j] != e implies #[trigger] kept[j].last_seen_ms
            < e.last_seen_ms by {
            assert(entries.contains(kept[j]));
            let a = choose|a: int| 0 <= a < entries.len() && entries[a] == kept[j];
            assert(entries[a].last_seen_ms < e.last_seen_ms);
        }
    }
    if let Some(c) = cap {
        lemma_evict_keeps_most_recent(kept, c as int, e);
    }
}


proof fn lemma_keys_in_empty(st: &Store, upto: int)
    requires
        0 <= upto <= st.num_shards(),
        forall|s: int| 0 <= s < st.num_shards() ==> #[trigger] st.entries(s).len() == 0,
    ensures
        st.keys_in(upto) == 0,
    decreases upto,
{
    if upto > 0 {
        lemma_keys_in_empty(st, upto - 1);
        assert(st.entries(upto - 1).len() == 0);
    }
}

proof fn lemma_evict_takes_only_needed(entries: Seq<Entry>, cap: int)
    requires
        cap >= 1,
    ensures
        evict_least_recent(entries, cap).len() == if entries.len() < cap { entries.len() as int } else { cap - 1 },
        entries.len() < cap ==> evict_least_recent(entries, cap) == entries,
    decreases entries.len(),
{
    if entries.len() > 0 && entries.len() >= cap {
        lemma_first_least_recent_bounds(entries);
        let k = first_least_recent(entries);
        lemma_evict_takes_only_needed(entries.remove(k), cap);
    }
}

/// Eviction takes only what is needed. Without a TTL, making room for a new
/// key in a shard below its cap `c` evicts nothing; a shard at or over its cap
/// is brought down to exactly `c - 1` entries, so that with the new key it
/// holds `c`. Under a TTL, the same holds of the entries still fresh.
pub proof fn lemma_make_room_takes_only_needed(entries: Seq<Entry>, now: int, ttl: Option<u64>, c: usize)
    requires
        c >= 1,
    ensures
        ttl is None && entries.len() < c ==> make_room(entries, now, ttl, Some(c)) == entries,
        ttl is None ==> make_room(entries, now, ttl, Some(c)).len() == if entries.len() < c {
            entries.len() as int
        } else {
            c - 1
        },
        ttl matches Some(t) ==> make_room(entries, now, ttl, Some(c)).len() == if keep_fresh(
            entries,
            now,
            t as int,
        ).len() < c {
            keep_fresh(entries, now, t as int).len() as int
        } else {
            c - 1
        },
        make_room(entries, now, None, None) == entries,
{
    let kept = match ttl {
        Some(t) => keep_fresh(entries, now, t as int),
        None => entries,
    };
    lemma_evict_takes_only_needed(kept, c as int);
}

/// A check on a key new to its shard, in a store without an idle TTL, adds
/// exactly one key while that shard is below its cap (or the store is
/// uncapped), and leaves the count unchanged once the shard is full: the
/// least-recently-seen key makes way.
pub proof fn lemma_check_new_key_counts(
    before: Store,
    after: Store,
    key: Key,
    n: int,
    now: Duration,
    algorithm: Algorithm,
    quota: QuotaView,
    out: Outcome,
)
    requires
        before.wf(),
        store_checked(before, after, key, n, now, algorithm, quota, out),
        !holds_key(before.entries(before.shard_of(key@)), key@),
        before.ttl() is None,
    ensures
        before.cap() matches Some(c) && before.entries(before.shard_of(key@)).len() < c ==> after.total_keys()
            == before.total_keys() + 1,
        before.cap() matches Some(c) && before.entries(before.shard_of(key@)).len() >= c ==> after.total_keys()
            == before.total_keys(),
        before.cap() is None ==> after.total_keys() == before.total_keys() + 1,
{
    let k = key@;
    let s = before.shard_of(k);
    let now_ms = clamp_u64(nanos_of(now) as int / 1_000_000);
    let b = before.entries(s);
    before.lemma_shard_of_in_range(k);
    lemma_keys_in_one_shard_changed(before, after, s, before.num_shards());
    before.lemma_cap_holds();
    if let Some(c) = before.cap() {
        lemma_make_room_takes_only_needed(b, now_ms, before.ttl(), c);
    }
}

} // verus!
