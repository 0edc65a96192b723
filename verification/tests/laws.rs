use std::time::Duration;

use rate_net::algo::fixed_window::{pack, unpack, FixedWindow};
use rate_net::algo::leaky::LeakyBucket;
use rate_net::algo::sliding_counter::SlidingCounter;
use rate_net::algo::sliding_log::SlidingLog;
use rate_net::algo::token::TokenBucket;
use rate_net::{Algorithm, Decision, Eviction, Key, Quota, RateLimiter};

fn at(ms: u64) -> Duration {
    Duration::from_millis(ms)
}

#[test]
fn zero_units_are_admitted_even_under_a_zero_quota() {
    for algorithm in [
        Algorithm::TokenBucket,
        Algorithm::LeakyBucket,
        Algorithm::FixedWindow,
        Algorithm::SlidingWindowLog,
        Algorithm::SlidingWindowCounter,
    ] {
        let mut limiter = RateLimiter::per_second(0).with_algorithm(algorithm);
        assert_eq!(limiter.check_at(Key::from("k"), 0, at(0)), Decision::Allow);
        assert!(limiter.check_at(Key::from("k"), 1, at(0)).is_deny());
    }
}

#[test]
fn oversized_requests_wait_forever_whatever_the_time() {
    let mut limiter = RateLimiter::builder()
        .algorithm(Algorithm::LeakyBucket)
        .per_second(4)
        .burst(2)
        .build();
    for ms in [0u64, 10, 5_000, 86_400_000] {
        assert_eq!(
            limiter.check_at(Key::from("k"), 3, at(ms)),
            Decision::Deny {
                retry_after: Duration::MAX
            }
        );
    }
}

#[test]
fn fixed_window_never_admits_more_than_the_limit_per_window() {
    let mut fw = FixedWindow::new(&Quota::per_second(3), at(0));
    let mut per_window = [0u32; 4];
    for step in 0..400u64 {
        let t = step * 10;
        if fw.acquire(1, at(t)).is_allow() {
            per_window[(t / 1000) as usize] += 1;
        }
    }
    assert_eq!(per_window, [3, 3, 3, 3]);
}

#[test]
fn sliding_log_never_admits_more_than_the_limit_in_any_trailing_window() {
    let mut sl = SlidingLog::new(&Quota::per_second(4));
    let mut admitted: Vec<u64> = Vec::new();
    for step in 0..300u64 {
        let t = step * 17;
        if sl.acquire(1, at(t)).is_allow() {
            admitted.push(t);
        }
    }
    for &end in &admitted {
        let in_window = admitted.iter().filter(|&&s| s <= end && s + 1000 > end).count();
        assert!(in_window <= 4);
    }
}

#[test]
fn sliding_counter_bounds_aligned_and_trailing_windows() {
    let mut sc = SlidingCounter::new(&Quota::per_second(5), at(0));
    let mut admitted: Vec<u64> = Vec::new();
    for step in 0..500u64 {
        let t = step * 13;
        if sc.acquire(1, at(t)).is_allow() {
            admitted.push(t);
        }
    }
    for w in 0..6u64 {
        let n = admitted.iter().filter(|&&s| s / 1000 == w).count();
        assert!(n <= 5);
    }
    for &end in &admitted {
        let n = admitted.iter().filter(|&&s| s <= end && s + 1000 > end).count();
        assert!(n <= 10);
    }
}

#[test]
fn leaky_bucket_admits_at_most_its_burst_plus_its_rate() {
    // 10 per second, burst 3: a burst of 3 at the start, then one unit every
    // 100 ms, so 7 conform in the first 500 ms (the bound allows fewer than 8).
    let quota = Quota::per_second(10).with_burst(3);
    let mut lb = LeakyBucket::new(&quota, at(0));
    let admitted = (0..500u64).filter(|&ms| lb.acquire(1, at(ms)).is_allow()).count();
    assert_eq!(admitted, 7);
}

#[test]
fn memory_is_bounded_by_the_per_shard_cap() {
    let mut limiter = RateLimiter::per_second(1)
        .with_shards(4)
        .with_eviction(Eviction::capacity(10));
    for k in 0..2_000u64 {
        let _ = limiter.check_at(Key::from(k), 1, at(k));
    }
    // ceil(10 / 4) = 3 keys per shard, 4 shards.
    assert!(limiter.tracked_keys() <= 12);
}

#[test]
fn a_check_leaves_other_keys_alone() {
    let mut limiter = RateLimiter::per_second(2).with_algorithm(Algorithm::FixedWindow);
    assert!(limiter.check_at(Key::from("a"), 2, at(0)).is_allow());
    for _ in 0..10 {
        let _ = limiter.check_at(Key::from("b"), 1, at(1));
    }
    assert!(limiter.check_at(Key::from("a"), 1, at(2)).is_deny());
    assert!(limiter.check_at(Key::from("c"), 2, at(2)).is_allow());
}

#[test]
fn pack_and_unpack_are_inverse() {
    for (w, c) in [(0u32, 0u32), (1, 2), (u32::MAX, 7), (12_345, u32::MAX)] {
        assert_eq!(unpack(pack(w, c)), (w, c));
    }
    assert_eq!(pack(1, 2), (1u64 << 32) | 2);
}

#[test]
fn a_key_sees_what_its_algorithm_gives_its_own_checks_alone() {
    // Checks on "a" interleaved with checks on other keys get exactly the
    // outcomes a fresh sliding log gives "a"'s checks on their own.
    let quota = Quota::per_second(3);
    let mut limiter = RateLimiter::builder()
        .algorithm(Algorithm::SlidingWindowLog)
        .per_second(3)
        .eviction(Eviction::unbounded())
        .build();
    let mut alone = SlidingLog::new(&quota);
    for step in 0..200u64 {
        let t = step * 37;
        let other: u64 = step % 7;
        let _ = limiter.check_at(Key::from(other), 1, at(t));
        let got = limiter.check_at(Key::from("a"), 1 + (step % 2) as u32, at(t));
        let expected = alone.acquire(1 + (step % 2) as u32, at(t));
        assert_eq!(got, expected);
    }
}

#[test]
fn token_bucket_starts_full_and_refills_at_its_rate() {
    let mut tb = TokenBucket::new(&Quota::per_second(5), at(0));
    for _ in 0..5 {
        assert_eq!(tb.acquire(1, at(0)), Decision::Allow);
    }
    assert!(tb.acquire(1, at(0)).is_deny());
    assert_eq!(tb.acquire(0, at(0)), Decision::Allow);
    assert_eq!(tb.acquire(6, at(0)), Decision::Deny { retry_after: Duration::MAX });
    // One token per 200 ms.
    assert!(tb.acquire(1, at(199)).is_deny());
    assert_eq!(tb.acquire(1, at(200)), Decision::Allow);
    // Never more than a full bucket, however long the wait.
    let granted = (0..20).filter(|_| tb.acquire(1, at(100_000)).is_allow()).count();
    assert_eq!(granted, 5);
}

#[test]
fn token_bucket_with_an_empty_quota_grants_nothing() {
    let mut tb = TokenBucket::new(&Quota::per_second(0), at(0));
    assert_eq!(tb.acquire(0, at(0)), Decision::Allow);
    assert_eq!(tb.acquire(1, at(5_000)), Decision::Deny { retry_after: Duration::MAX });
}

#[test]
fn token_bucket_refusal_wait_is_enough() {
    // Capacity 2, refilling 2 per second: both tokens spent at 0 ms, the next
    // one is due at 500 ms, and asking again then is granted.
    let mut b = TokenBucket::new(&Quota::per_second(2), Duration::ZERO);
    assert_eq!(b.acquire(2, Duration::ZERO), Decision::Allow);
    assert_eq!(
        b.acquire(1, Duration::ZERO),
        Decision::Deny { retry_after: Duration::from_millis(500) }
    );
    assert!(b.acquire(1, Duration::from_millis(499)).is_deny());
    assert_eq!(b.acquire(1, Duration::from_millis(500)), Decision::Allow);
}
