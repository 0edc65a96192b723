use std::sync::Arc;
use std::time::Duration;

use clock_lib::ManualClock;
use rate_net::store::Store;
use rate_net::{
    next_step, shard_count_for, Algorithm, AsyncLimiter, Decision, Eviction, Key, Limiter, NextStep, Quota,
    RateLimiter, DEFAULT_MAX_KEYS, DEFAULT_SHARDS,
};

fn manual() -> (Arc<ManualClock>, RateLimiter<Arc<ManualClock>>) {
    let clock = Arc::new(ManualClock::new());
    let limiter = RateLimiter::per_second(5).with_clock(Arc::clone(&clock));
    (clock, limiter)
}

fn at(ms: u64) -> Duration {
    Duration::from_millis(ms)
}

#[test]
fn test_fresh_key_is_admitted() {
    let mut limiter = RateLimiter::per_second(1);
    assert_eq!(limiter.check("user:1"), Decision::Allow);
}

#[test]
fn test_quota_is_exhausted_then_refills_on_advance() {
    let (clock, mut limiter) = manual();
    for _ in 0..5 {
        assert_eq!(limiter.check("k"), Decision::Allow);
    }
    let decision = limiter.check("k");
    assert!(decision.is_deny());
    assert!(decision.retry_after().is_some());
    clock.advance(Duration::from_secs(1));
    assert_eq!(limiter.check("k"), Decision::Allow);
}

#[test]
fn test_keys_are_independent() {
    let (_clock, mut limiter) = manual();
    for _ in 0..5 {
        assert!(limiter.check("a").is_allow());
    }
    assert!(limiter.check("a").is_deny());
    assert!(limiter.check("b").is_allow());
}

#[test]
fn test_check_n_takes_multiple_units_atomically() {
    let (_clock, mut limiter) = manual();
    assert_eq!(limiter.check_n("batch", 3), Decision::Allow);
    assert_eq!(limiter.check_n("batch", 2), Decision::Allow);
    assert!(limiter.check_n("batch", 1).is_deny());
}

#[test]
fn test_check_n_zero_always_admits() {
    let (_clock, mut limiter) = manual();
    for _ in 0..5 {
        assert!(limiter.check("k").is_allow());
    }
    assert_eq!(limiter.check_n("k", 0), Decision::Allow);
}

#[test]
fn test_request_larger_than_quota_can_never_succeed() {
    let (clock, mut limiter) = manual();
    let decision = limiter.check_n("k", 6);
    assert_eq!(
        decision,
        Decision::Deny {
            retry_after: Duration::MAX
        }
    );
    clock.advance(Duration::from_secs(10));
    assert_eq!(limiter.check_n("k", 6).retry_after(), Some(Duration::MAX));
}

#[test]
fn test_zero_limit_denies_everything() {
    let mut limiter = RateLimiter::with_quota(Quota::per_second(0));
    assert!(limiter.check("k").is_deny());
}

#[test]
fn test_partial_refill_admits_proportionally() {
    let clock = Arc::new(ManualClock::new());
    let mut limiter = RateLimiter::per_second(10).with_clock(Arc::clone(&clock));
    for _ in 0..10 {
        assert!(limiter.check("k").is_allow());
    }
    assert!(limiter.check("k").is_deny());
    clock.advance(Duration::from_millis(300));
    assert!(limiter.check("k").is_allow());
    assert!(limiter.check("k").is_allow());
    assert!(limiter.check("k").is_allow());
    assert!(limiter.check("k").is_deny());
}

#[test]
fn test_tracked_keys_counts_distinct_keys() {
    let (_clock, mut limiter) = manual();
    assert_eq!(limiter.tracked_keys(), 0);
    let _ = limiter.check("a");
    let _ = limiter.check("b");
    let _ = limiter.check("a");
    assert_eq!(limiter.tracked_keys(), 2);
}

#[test]
fn test_introspection_reports_token_bucket() {
    let limiter = RateLimiter::per_second(1);
    assert_eq!(limiter.algorithm(), Algorithm::TokenBucket);
}

#[test]
fn test_with_shards_rounds_to_power_of_two() {
    let limiter = RateLimiter::per_second(1).with_shards(5);
    assert_eq!(limiter.shards(), 8);
}

#[test]
fn test_with_eviction_is_reported() {
    let limiter = RateLimiter::per_second(1).with_eviction(Eviction::capacity(10));
    assert_eq!(limiter.eviction().max_keys(), Some(10));
}

#[test]
fn test_unique_key_flood_is_bounded_by_capacity() {
    let mut limiter = RateLimiter::per_second(1)
        .with_shards(8)
        .with_eviction(Eviction::capacity(100));
    for k in 0..50_000u64 {
        let _ = limiter.check(k);
    }
    let bound = 100usize.div_ceil(8).max(1) * 8;
    assert!(
        limiter.tracked_keys() <= bound,
        "flood grew to {} keys, bound {bound}",
        limiter.tracked_keys()
    );
}

#[test]
fn test_limiter_trait_generic() {
    fn count_admitted<L: Limiter>(limiter: &mut L, key: &str, attempts: u32) -> u32 {
        (0..attempts)
            .filter(|_| limiter.check(key).is_allow())
            .count() as u32
    }
    let mut limiter = RateLimiter::per_second(3);
    assert_eq!(count_admitted(&mut limiter, "k", 10), 3);
}

#[test]
fn limiter_defaults_are_reported() {
    let limiter = RateLimiter::per_minute(600);
    assert_eq!(limiter.quota().period(), Duration::from_secs(60));
    assert_eq!(limiter.quota().limit(), 600);
    assert_eq!(limiter.eviction().max_keys(), Some(DEFAULT_MAX_KEYS));
    assert_eq!(limiter.shards(), DEFAULT_SHARDS);
    assert_eq!(limiter.tracked_keys(), 0);
}

#[test]
fn with_algorithm_is_reported_and_resets_state() {
    let mut limiter = RateLimiter::per_second(2);
    let _ = limiter.check("k");
    assert_eq!(limiter.tracked_keys(), 1);
    let limiter = limiter.with_algorithm(Algorithm::SlidingWindowCounter);
    assert_eq!(limiter.algorithm(), Algorithm::SlidingWindowCounter);
    assert_eq!(limiter.tracked_keys(), 0);
    assert_eq!(limiter.quota().limit(), 2);
}

#[test]
fn zero_shards_round_up_to_one() {
    assert_eq!(RateLimiter::per_second(1).with_shards(0).shards(), 1);
    assert_eq!(RateLimiter::per_second(1).with_shards(32).shards(), 32);
}

#[test]
fn check_at_is_driven_by_the_elapsed_time_given() {
    let mut limiter = RateLimiter::per_second(2).with_algorithm(Algorithm::FixedWindow);
    assert!(limiter.check_at(Key::from("k"), 2, at(100)).is_allow());
    assert_eq!(
        limiter.check_at(Key::from("k"), 1, at(400)),
        Decision::Deny {
            retry_after: Duration::from_millis(600)
        }
    );
    assert!(limiter.check_at(Key::from("k"), 1, at(1000)).is_allow());
}

#[test]
fn shard_count_for_scales_with_parallelism() {
    assert_eq!(shard_count_for(0), 1);
    assert_eq!(shard_count_for(1), 4);
    assert_eq!(shard_count_for(3), 16);
    assert_eq!(shard_count_for(6), 32);
    assert_eq!(shard_count_for(1024), 4096);
    assert_eq!(shard_count_for(100_000), 4096);
}

#[test]
fn test_builder_defaults_to_token_bucket_and_set_quota() {
    let limiter = RateLimiter::builder()
        .quota(50, Duration::from_secs(1))
        .build();
    assert_eq!(limiter.algorithm(), Algorithm::TokenBucket);
    assert_eq!(limiter.quota().limit(), 50);
    assert_eq!(limiter.quota().burst(), 50);
}

#[test]
fn test_builder_covers_every_knob() {
    let limiter = RateLimiter::builder()
        .per_minute(1000)
        .burst(50)
        .shards(64)
        .eviction(Eviction::capacity(100_000))
        .build();
    assert_eq!(limiter.quota().limit(), 1000);
    assert_eq!(limiter.quota().period(), Duration::from_secs(60));
    assert_eq!(limiter.quota().burst(), 50);
    assert_eq!(limiter.shards(), 64);
    assert_eq!(limiter.eviction().max_keys(), Some(100_000));
}

#[test]
fn test_builder_clock_injection() {
    let clock = Arc::new(ManualClock::new());
    let mut limiter = RateLimiter::builder()
        .per_second(2)
        .clock(Arc::clone(&clock))
        .build();
    assert!(limiter.check("k").is_allow());
    assert!(limiter.check("k").is_allow());
    assert!(limiter.check("k").is_deny());
    clock.advance(Duration::from_secs(1));
    assert!(limiter.check("k").is_allow());
}

#[test]
fn test_unset_quota_denies() {
    let mut limiter = RateLimiter::builder().build();
    assert!(limiter.check("k").is_deny());
}

#[test]
fn test_builder_selects_algorithm() {
    let limiter = RateLimiter::builder()
        .algorithm(Algorithm::FixedWindow)
        .per_second(10)
        .build();
    assert_eq!(limiter.algorithm(), Algorithm::FixedWindow);
}

#[test]
fn builder_quota_and_shards_default_when_unset() {
    let limiter = RateLimiter::builder().quota(5, Duration::from_millis(100)).build();
    assert_eq!(limiter.quota().period(), Duration::from_millis(100));
    assert_eq!(limiter.quota().burst(), 5);
    assert_eq!(limiter.shards(), DEFAULT_SHARDS);
    assert_eq!(limiter.eviction().max_keys(), Some(DEFAULT_MAX_KEYS));
}

#[test]
fn test_check_passthrough_is_sync() {
    let mut limiter = AsyncLimiter::new(RateLimiter::per_second(1));
    assert!(limiter.check("k").is_allow());
    assert!(limiter.check("k").is_deny());
}

#[test]
fn test_from_and_into_inner_round_trip() {
    let limiter: AsyncLimiter = RateLimiter::per_second(10).into();
    assert_eq!(limiter.inner().quota().limit(), 10);
    let back = limiter.into_inner();
    assert_eq!(back.quota().limit(), 10);
}

#[test]
fn next_step_follows_the_decision() {
    assert!(matches!(next_step(Decision::Allow), NextStep::Done));
    assert!(matches!(
        next_step(Decision::Deny {
            retry_after: Duration::MAX
        }),
        NextStep::GiveUp
    ));
    match next_step(Decision::Deny {
        retry_after: Duration::from_millis(5),
    }) {
        NextStep::Sleep(wait) => assert_eq!(wait, Duration::from_millis(5)),
        _ => panic!("expected a sleep"),
    }
}

#[test]
fn async_check_n_gives_up_on_impossible_requests() {
    let mut limiter = AsyncLimiter::new(RateLimiter::per_second(5));
    let d = limiter.check_n("k", 6);
    assert!(matches!(next_step(d), NextStep::GiveUp));
}

fn make_store(shards: usize, eviction: Eviction) -> Store {
    Store::new(shards, eviction)
}

fn tb(rate: u32) -> Quota {
    Quota::per_second(rate)
}

#[test]
fn test_shard_count_rounds_up_to_power_of_two() {
    assert_eq!(make_store(1, Eviction::unbounded()).shard_count(), 1);
    assert_eq!(make_store(5, Eviction::unbounded()).shard_count(), 8);
    assert_eq!(make_store(16, Eviction::unbounded()).shard_count(), 16);
}

#[test]
fn test_first_check_creates_one_key() {
    let mut store = make_store(4, Eviction::unbounded());
    let q = tb(10);
    assert!(store.check(Key::from("a"), 1, at(0), Algorithm::TokenBucket, &q).is_allow());
    assert_eq!(store.len(), 1);
    assert!(store.check(Key::from("a"), 1, at(0), Algorithm::TokenBucket, &q).is_allow());
    assert_eq!(store.len(), 1);
}

#[test]
fn test_capacity_bounds_total_keys_under_unique_flood() {
    let shards = 8;
    let cap = 100usize;
    let mut store = make_store(shards, Eviction::capacity(cap));
    let q = tb(10);
    for k in 0..10_000u64 {
        let _ = store.check(Key::from(k), 1, at(k), Algorithm::TokenBucket, &q);
    }
    let per_shard_cap = cap.div_ceil(shards).max(1);
    let bound = per_shard_cap * shards;
    assert!(
        store.len() <= bound,
        "flood grew to {} keys, bound {bound}",
        store.len()
    );
}

#[test]
fn test_ttl_reclaims_idle_keys_on_later_insert() {
    let mut store = make_store(1, Eviction::idle(Duration::from_millis(1000)));
    let q = tb(10);
    let _ = store.check(Key::from("idle"), 1, at(0), Algorithm::TokenBucket, &q);
    assert_eq!(store.len(), 1);
    let _ = store.check(Key::from("fresh"), 1, at(2_000), Algorithm::TokenBucket, &q);
    assert_eq!(store.len(), 1, "the idle key should have been reclaimed");
}

#[test]
fn test_recently_seen_key_survives_eviction_pressure() {
    let mut store = make_store(1, Eviction::capacity(4));
    let q = tb(1_000);
    let mut now = 0u64;
    for round in 0..50u64 {
        now += 1;
        assert!(store.check(Key::from("hot"), 1, at(now), Algorithm::TokenBucket, &q).is_allow());
        now += 1;
        let _ = store.check(Key::from(round), 1, at(now - 1), Algorithm::TokenBucket, &q);
    }
    now += 10_000;
    assert!(store.check(Key::from("hot"), 1, at(now), Algorithm::TokenBucket, &q).is_allow());
}

#[test]
fn test_manual_clock_store_refills_across_window() {
    let mut store = Store::new(4, Eviction::unbounded());
    let q = tb(3);
    for _ in 0..3 {
        assert!(store.check(Key::from("k"), 1, at(0), Algorithm::TokenBucket, &q).is_allow());
    }
    assert!(store.check(Key::from("k"), 1, at(0), Algorithm::TokenBucket, &q).is_deny());
    assert!(store.check(Key::from("k"), 1, at(1_000), Algorithm::TokenBucket, &q).is_allow());
}

#[test]
fn ttl_keeps_keys_seen_within_it() {
    let mut store = make_store(1, Eviction::idle(Duration::from_millis(1000)));
    let q = tb(10);
    let _ = store.check(Key::from("a"), 1, at(0), Algorithm::TokenBucket, &q);
    let _ = store.check(Key::from("b"), 1, at(999), Algorithm::TokenBucket, &q);
    assert_eq!(store.len(), 2);
}

#[test]
fn full_shard_evicts_the_least_recently_seen_key() {
    let mut store = make_store(1, Eviction::capacity(2));
    let q = tb(10);
    let _ = store.check(Key::from("old"), 1, at(0), Algorithm::TokenBucket, &q);
    let _ = store.check(Key::from("new"), 1, at(5), Algorithm::TokenBucket, &q);
    let _ = store.check(Key::from("old"), 1, at(10), Algorithm::TokenBucket, &q);
    let _ = store.check(Key::from("third"), 1, at(20), Algorithm::TokenBucket, &q);
    assert_eq!(store.len(), 2);
    // "new" was the least recently seen, so it went; "old" kept its spent unit.
    for _ in 0..8 {
        assert!(store.check(Key::from("old"), 1, at(20), Algorithm::TokenBucket, &q).is_allow());
    }
    assert!(store.check(Key::from("old"), 1, at(20), Algorithm::TokenBucket, &q).is_deny());
    assert_eq!(store.len(), 2);
}

#[test]
fn public_types_are_send_sync_and_static() {
    fn assert_send_sync_static<T: Send + Sync + 'static>() {}

    assert_send_sync_static::<rate_net::RateLimiter>();
    assert_send_sync_static::<rate_net::Decision>();
    assert_send_sync_static::<rate_net::Quota>();
    assert_send_sync_static::<rate_net::Eviction>();
    assert_send_sync_static::<rate_net::Algorithm>();
    assert_send_sync_static::<rate_net::RateLimiterError>();
    assert_send_sync_static::<rate_net::Key>();
    assert_send_sync_static::<rate_net::AsyncLimiter>();
}

#[test]
fn test_debug_does_not_leak_keys() {
    let (_clock, mut limiter) = manual();
    let _ = limiter.check("secret-token-do-not-print");
    let rendered = limiter.describe();
    assert!(!rendered.contains("secret-token"));
    assert!(rendered.contains("RateLimiter"));
    assert!(rendered.contains("tracked_keys"));
}

#[test]
fn describe_renders_the_configuration_and_key_count() {
    let (_clock, mut limiter) = manual();
    let _ = limiter.check("a");
    let _ = limiter.check("b");
    assert_eq!(
        limiter.describe(),
        "RateLimiter { algorithm: TokenBucket, limit: 5, period_ns: 1000000000, burst: 5, shards: 16, \
         max_keys: 100000, idle_ttl_ns: none, tracked_keys: 2 }"
    );
}
