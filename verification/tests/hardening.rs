use std::sync::Arc;
use std::time::Duration;

use clock_lib::ManualClock;
use rate_net::{Algorithm, Decision, Eviction, Key, Limiter, RateLimiter};

fn manual(limit: u32) -> (Arc<ManualClock>, RateLimiter<Arc<ManualClock>>) {
    let clock = Arc::new(ManualClock::new());
    let limiter = RateLimiter::per_second(limit).with_clock(Arc::clone(&clock));
    (clock, limiter)
}

const ALL: [Algorithm; 5] = [
    Algorithm::TokenBucket,
    Algorithm::LeakyBucket,
    Algorithm::FixedWindow,
    Algorithm::SlidingWindowLog,
    Algorithm::SlidingWindowCounter,
];

fn limiter(algorithm: Algorithm, limit: u32) -> (Arc<ManualClock>, RateLimiter<Arc<ManualClock>>) {
    let clock = Arc::new(ManualClock::new());
    let limiter = RateLimiter::builder()
        .algorithm(algorithm)
        .per_second(limit)
        .clock(Arc::clone(&clock))
        .build();
    (clock, limiter)
}

#[test]
fn flood_of_unique_keys_stays_bounded_and_spares_a_live_key() {
    let clock = Arc::new(ManualClock::new());
    let mut limiter = RateLimiter::per_second(5)
        .with_clock(Arc::clone(&clock))
        .with_shards(8)
        .with_eviction(Eviction::capacity(64));

    assert!(limiter.check("live").is_allow());
    for k in 0..100_000u64 {
        let _ = limiter.check(k);
        if k % 1000 == 0 {
            let _ = limiter.check("live");
        }
    }

    let bound = 64usize.div_ceil(8).max(1) * 8;
    assert!(
        limiter.tracked_keys() <= bound,
        "flood unbounded: {}",
        limiter.tracked_keys()
    );

    clock.advance(Duration::from_secs(1));
    let mut admitted = 0;
    for _ in 0..10 {
        if limiter.check("live").is_allow() {
            admitted += 1;
        }
    }
    assert!(
        admitted <= 5,
        "live key over-admitted {admitted} after a flood"
    );
}

#[test]
fn burst_storm_on_one_key_never_over_admits() {
    let (_clock, mut limiter) = manual(50);
    let admitted = (0..500).filter(|_| limiter.check("k").is_allow()).count();
    assert_eq!(
        admitted, 50,
        "burst storm admitted {admitted}, expected exactly 50"
    );
}

#[test]
fn no_clock_advance_admits_exactly_the_quota() {
    let (_clock, mut limiter) = manual(7);
    let admitted = (0..1000).filter(|_| limiter.check("k").is_allow()).count();
    assert_eq!(admitted, 7);
}

#[test]
fn large_clock_jump_refills_to_cap_not_beyond() {
    let (clock, mut limiter) = manual(10);
    for _ in 0..10 {
        assert!(limiter.check("k").is_allow());
    }
    assert!(limiter.check("k").is_deny());
    clock.advance(Duration::from_secs(100 * 86_400));
    let admitted = (0..1000).filter(|_| limiter.check("k").is_allow()).count();
    assert_eq!(admitted, 10, "clock jump over-admitted {admitted}");
}

#[test]
fn request_near_u32_max_denies_without_panic() {
    let (_clock, mut limiter) = manual(100);
    assert_eq!(
        limiter.check_n("k", u32::MAX),
        Decision::Deny {
            retry_after: Duration::MAX
        }
    );
    assert!(limiter.check("k").is_allow());
}

#[test]
fn huge_quota_does_not_panic() {
    let mut limiter = RateLimiter::per_second(u32::MAX);
    assert!(limiter.check("k").is_allow());
    assert!(limiter.check_n("k", u32::MAX).is_allow() || limiter.check_n("k", u32::MAX).is_deny());
}

#[test]
fn zero_quota_denies_everything_without_panic() {
    let mut limiter = RateLimiter::per_second(0);
    for _ in 0..100 {
        assert!(limiter.check("k").is_deny());
    }
}

#[test]
fn rapid_reconfiguration_does_not_panic() {
    let mut limiter = RateLimiter::per_second(10);
    for shards in [1usize, 2, 4, 8, 16, 32] {
        limiter = limiter
            .with_shards(shards)
            .with_eviction(Eviction::capacity(shards * 4))
            .with_eviction(Eviction::idle(Duration::from_secs(1)));
        assert!(limiter.check("k").is_allow() || limiter.check("k").is_deny());
    }
    assert!(limiter.tracked_keys() <= 1 || limiter.tracked_keys() >= 1);
}

#[test]
fn unbounded_eviction_keeps_every_key() {
    let clock = Arc::new(ManualClock::new());
    let mut limiter = RateLimiter::per_second(1)
        .with_clock(Arc::clone(&clock))
        .with_eviction(Eviction::unbounded());
    for k in 0..5_000u64 {
        let _ = limiter.check(k);
    }
    assert_eq!(limiter.tracked_keys(), 5_000);
}

#[test]
fn every_algorithm_admits_zero_units() {
    for algorithm in ALL {
        let (_clock, mut lim) = limiter(algorithm, 1);
        assert!(lim.check("k").is_allow());
        assert_eq!(lim.check_n("k", 0), Decision::Allow, "{algorithm:?}");
    }
}

#[test]
fn every_algorithm_admits_exactly_the_quota_in_a_window() {
    for algorithm in ALL {
        let (_clock, mut lim) = limiter(algorithm, 5);
        let admitted = (0..100).filter(|_| lim.check("k").is_allow()).count();
        assert_eq!(
            admitted, 5,
            "{algorithm:?} admitted {admitted} of a 5 quota"
        );
    }
}

#[test]
fn every_algorithm_refuses_a_request_larger_than_the_quota() {
    for algorithm in ALL {
        let (_clock, mut lim) = limiter(algorithm, 5);
        assert!(
            lim.check_n("k", 6).is_deny(),
            "{algorithm:?} admitted n > limit"
        );
        assert_eq!(
            lim.check_n("k", 6).retry_after(),
            Some(Duration::MAX),
            "{algorithm:?} should report an impossible request"
        );
    }
}

#[test]
fn every_algorithm_refills_after_enough_time() {
    for algorithm in ALL {
        let (clock, mut lim) = limiter(algorithm, 4);
        for _ in 0..4 {
            assert!(lim.check("k").is_allow(), "{algorithm:?}");
        }
        assert!(lim.check("k").is_deny(), "{algorithm:?}");
        clock.advance(Duration::from_secs(2));
        assert!(lim.check("k").is_allow(), "{algorithm:?} did not refill");
    }
}

#[test]
fn window_algorithms_handle_exact_boundary() {
    for algorithm in [Algorithm::FixedWindow, Algorithm::SlidingWindowLog] {
        let (clock, mut lim) = limiter(algorithm, 3);
        for _ in 0..3 {
            assert!(lim.check("k").is_allow(), "{algorithm:?}");
        }
        assert!(lim.check("k").is_deny(), "{algorithm:?}");
        clock.advance(Duration::from_secs(1));
        assert!(lim.check("k").is_allow(), "{algorithm:?} at boundary");
    }
}

#[test]
fn every_algorithm_survives_a_burst_storm_with_no_time() {
    for algorithm in ALL {
        let (_clock, mut lim) = limiter(algorithm, 20);
        let admitted = (0..1000).filter(|_| lim.check("k").is_allow()).count();
        assert_eq!(
            admitted, 20,
            "{algorithm:?} over-admitted under a burst storm"
        );
    }
}

#[derive(Debug, PartialEq, Eq)]
enum Verdict {
    Serve,
    TooManyRequests { retry_after_secs: u64 },
}

fn gate<L: Limiter>(limiter: &mut L, key: impl Into<Key>) -> Verdict {
    match limiter.check(key) {
        Decision::Allow => Verdict::Serve,
        Decision::Deny { retry_after } => Verdict::TooManyRequests {
            retry_after_secs: retry_after.as_secs().max(1),
        },
        _ => Verdict::TooManyRequests {
            retry_after_secs: 1,
        },
    }
}

#[test]
fn test_gatekeeper_consumes_through_the_trait() {
    let clock = Arc::new(ManualClock::new());
    let mut limiter = RateLimiter::per_second(2).with_clock(Arc::clone(&clock));
    assert_eq!(gate(&mut limiter, "client:7"), Verdict::Serve);
    assert_eq!(gate(&mut limiter, "client:7"), Verdict::Serve);
    assert_eq!(
        gate(&mut limiter, "client:7"),
        Verdict::TooManyRequests {
            retry_after_secs: 1
        }
    );
    clock.advance(Duration::from_secs(1));
    assert_eq!(gate(&mut limiter, "client:7"), Verdict::Serve);
}

#[test]
fn test_gatekeeper_works_with_any_configured_algorithm() {
    for algorithm in ALL {
        let mut limiter = RateLimiter::builder()
            .algorithm(algorithm)
            .per_second(3)
            .build();
        let served = (0..10)
            .filter(|_| gate(&mut limiter, "client") == Verdict::Serve)
            .count();
        assert_eq!(served, 3, "{algorithm:?} gatekeeper served the wrong count");
    }
}

#[test]
fn per_identity_isolation_with_octet_keys() {
    let mut limiter = RateLimiter::per_second(1);
    let attacker: Key = vec![203u8, 0, 113, 9].into();
    assert_eq!(gate(&mut limiter, attacker.clone()), Verdict::Serve);
    assert!(matches!(
        gate(&mut limiter, attacker),
        Verdict::TooManyRequests { .. }
    ));
    let other: Key = vec![198u8, 51, 100, 1].into();
    assert_eq!(gate(&mut limiter, other), Verdict::Serve);
    assert_eq!(gate(&mut limiter, "user:42"), Verdict::Serve);
}
