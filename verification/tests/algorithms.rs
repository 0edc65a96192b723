use core::time::Duration;

use rate_net::algo::fixed_window::FixedWindow;
use rate_net::algo::leaky::LeakyBucket;
use rate_net::algo::sliding_counter::SlidingCounter;
use rate_net::algo::sliding_log::SlidingLog;
use rate_net::{Algorithm, Decision, Quota};

fn at(ms: u64) -> Duration {
    Duration::from_millis(ms)
}

#[test]
fn test_window_admits_limit_then_denies_until_rollover() {
    let mut fw = FixedWindow::new(&Quota::per_second(5), at(0));
    for _ in 0..5 {
        assert_eq!(fw.acquire(1, at(10)), Decision::Allow);
    }
    assert!(fw.acquire(1, at(10)).is_deny());
    assert_eq!(fw.acquire(1, at(1000)), Decision::Allow);
}

#[test]
fn test_retry_after_points_at_window_boundary() {
    let mut fw = FixedWindow::new(&Quota::per_second(1), at(0));
    assert!(fw.acquire(1, at(200)).is_allow());
    match fw.acquire(1, at(200)) {
        Decision::Deny { retry_after } => {
            assert_eq!(retry_after, Duration::from_millis(800));
        }
        other => panic!("expected denial, got {other:?}"),
    }
}

#[test]
fn test_check_n_consumes_multiple_units() {
    let mut fw = FixedWindow::new(&Quota::per_second(10), at(0));
    assert_eq!(fw.acquire(7, at(0)), Decision::Allow);
    assert_eq!(fw.acquire(3, at(0)), Decision::Allow);
    assert!(fw.acquire(1, at(0)).is_deny());
}

#[test]
fn fixed_window_test_request_larger_than_limit_never_admits() {
    let mut fw = FixedWindow::new(&Quota::per_second(5), at(0));
    assert_eq!(
        fw.acquire(6, at(0)),
        Decision::Deny {
            retry_after: Duration::MAX
        }
    );
}

#[test]
fn test_admits_burst_then_spaces() {
    let mut lb = LeakyBucket::new(&Quota::per_second(10), at(0));
    for _ in 0..10 {
        assert_eq!(lb.acquire(1, at(0)), Decision::Allow);
    }
    assert!(lb.acquire(1, at(0)).is_deny());
    assert_eq!(lb.acquire(1, at(100)), Decision::Allow);
    assert!(lb.acquire(1, at(100)).is_deny());
    assert_eq!(lb.acquire(1, at(200)), Decision::Allow);
}

#[test]
fn test_retry_after_points_at_next_conforming_instant() {
    let mut lb = LeakyBucket::new(&Quota::per_second(10), at(0));
    for _ in 0..10 {
        assert!(lb.acquire(1, at(0)).is_allow());
    }
    match lb.acquire(1, at(0)) {
        Decision::Deny { retry_after } => {
            assert!(retry_after <= Duration::from_millis(100));
            assert!(retry_after >= Duration::from_millis(99));
        }
        other => panic!("expected denial, got {other:?}"),
    }
}

#[test]
fn test_request_larger_than_burst_never_conforms() {
    let mut lb = LeakyBucket::new(&Quota::per_second(5), at(0));
    assert_eq!(
        lb.acquire(6, at(0)),
        Decision::Deny {
            retry_after: Duration::MAX
        }
    );
}

#[test]
fn test_zero_limit_denies() {
    let mut lb = LeakyBucket::new(&Quota::per_second(0), at(0));
    assert!(lb.acquire(1, at(0)).is_deny());
}

#[test]
fn test_zero_units_always_admitted() {
    let mut lb = LeakyBucket::new(&Quota::per_second(1), at(0));
    assert_eq!(lb.acquire(0, at(0)), Decision::Allow);
}

#[test]
fn test_admits_limit_within_window_then_denies() {
    let mut sl = SlidingLog::new(&Quota::per_second(3));
    for _ in 0..3 {
        assert_eq!(sl.acquire(1, at(0)), Decision::Allow);
    }
    assert!(sl.acquire(1, at(500)).is_deny());
}

#[test]
fn test_admits_again_as_oldest_ages_out() {
    let mut sl = SlidingLog::new(&Quota::per_second(3));
    assert!(sl.acquire(1, at(0)).is_allow());
    assert!(sl.acquire(1, at(100)).is_allow());
    assert!(sl.acquire(1, at(200)).is_allow());
    assert!(sl.acquire(1, at(999)).is_deny());
    assert!(sl.acquire(1, at(1000)).is_allow());
}

#[test]
fn test_retry_after_points_at_oldest_expiry() {
    let mut sl = SlidingLog::new(&Quota::per_second(2));
    assert!(sl.acquire(1, at(0)).is_allow());
    assert!(sl.acquire(1, at(300)).is_allow());
    match sl.acquire(1, at(500)) {
        Decision::Deny { retry_after } => {
            assert_eq!(retry_after, Duration::from_millis(500));
        }
        other => panic!("expected denial, got {other:?}"),
    }
}

#[test]
fn test_no_boundary_burst() {
    let mut sl = SlidingLog::new(&Quota::per_second(5));
    for _ in 0..5 {
        assert!(sl.acquire(1, at(900)).is_allow());
    }
    assert!(sl.acquire(1, at(1000)).is_deny());
}

#[test]
fn sliding_log_test_request_larger_than_limit_never_admits() {
    let mut sl = SlidingLog::new(&Quota::per_second(3));
    assert_eq!(
        sl.acquire(4, at(0)),
        Decision::Deny {
            retry_after: Duration::MAX
        }
    );
}

#[test]
fn test_admits_limit_in_a_quiet_window() {
    let mut sc = SlidingCounter::new(&Quota::per_second(5), at(0));
    for _ in 0..5 {
        assert_eq!(sc.acquire(1, at(0)), Decision::Allow);
    }
    assert!(sc.acquire(1, at(0)).is_deny());
}

#[test]
fn test_previous_window_weight_limits_the_next() {
    let mut sc = SlidingCounter::new(&Quota::per_second(10), at(0));
    for _ in 0..10 {
        assert!(sc.acquire(1, at(0)).is_allow());
    }
    assert!(sc.acquire(1, at(1000)).is_deny());
    assert!(sc.acquire(1, at(1600)).is_allow());
}

#[test]
fn test_stale_windows_reset() {
    let mut sc = SlidingCounter::new(&Quota::per_second(3), at(0));
    for _ in 0..3 {
        assert!(sc.acquire(1, at(0)).is_allow());
    }
    assert!(sc.acquire(1, at(10_000)).is_allow());
}

#[test]
fn test_denial_reports_a_bounded_retry_after() {
    let mut sc = SlidingCounter::new(&Quota::per_second(2), at(0));
    assert!(sc.acquire(2, at(0)).is_allow());
    match sc.acquire(1, at(100)) {
        Decision::Deny { retry_after } => {
            assert!(retry_after > Duration::ZERO);
            assert!(retry_after <= Duration::from_secs(1));
        }
        other => panic!("expected denial, got {other:?}"),
    }
}

#[test]
fn sliding_counter_test_request_larger_than_limit_never_admits() {
    let mut sc = SlidingCounter::new(&Quota::per_second(3), at(0));
    assert_eq!(
        sc.acquire(4, at(0)),
        Decision::Deny {
            retry_after: Duration::MAX
        }
    );
}

#[test]
fn test_default_is_token_bucket() {
    assert_eq!(Algorithm::default(), Algorithm::TokenBucket);
}

#[test]
fn test_variants_are_distinct() {
    assert_ne!(Algorithm::TokenBucket, Algorithm::LeakyBucket);
    assert_ne!(Algorithm::FixedWindow, Algorithm::SlidingWindowLog);
}

// Exact values of each algorithm's formulas.

#[test]
fn fixed_window_denial_waits_for_the_next_window_start() {
    // Window length 500 ms: at 1 250 ms the window [1 000, 1 500) is full and
    // the next one starts 250 ms later.
    let mut fw = FixedWindow::new(&Quota::rate(1, Duration::from_millis(500)).unwrap(), at(0));
    assert!(fw.acquire(1, at(1250)).is_allow());
    assert_eq!(
        fw.acquire(1, at(1250)),
        Decision::Deny {
            retry_after: Duration::from_millis(250)
        }
    );
}

#[test]
fn leaky_bucket_spaces_units_by_the_emission_interval() {
    // 4 per second with a burst of 1: one unit per 250 ms, no tolerance.
    let quota = Quota::per_second(4).with_burst(1);
    let mut lb = LeakyBucket::new(&quota, at(0));
    assert!(lb.acquire(1, at(0)).is_allow());
    assert_eq!(
        lb.acquire(1, at(100)),
        Decision::Deny {
            retry_after: Duration::from_millis(150)
        }
    );
    assert!(lb.acquire(1, at(250)).is_allow());
}

#[test]
fn leaky_bucket_with_a_rate_finer_than_a_nanosecond_still_holds_its_burst() {
    // 10 units per 5 ns: the emission interval is held to 1 ns, so the burst
    // of 10 is granted once, the next unit waits a nanosecond, and more than
    // the burst can never conform.
    let quota = Quota::rate(10, Duration::from_nanos(5)).unwrap();
    let mut lb = LeakyBucket::new(&quota, at(0));
    assert_eq!(lb.acquire(100, at(0)), Decision::Deny { retry_after: Duration::MAX });
    assert_eq!(lb.acquire(10, at(0)), Decision::Allow);
    assert_eq!(lb.acquire(1, at(0)), Decision::Deny { retry_after: Duration::from_nanos(1) });
}

#[test]
fn leaky_bucket_never_hands_out_a_burst_twice_at_once() {
    let mut lb = LeakyBucket::new(&Quota::per_second(u32::MAX), Duration::ZERO);
    assert_eq!(lb.acquire(u32::MAX, Duration::ZERO), Decision::Allow);
    assert!(lb.acquire(u32::MAX, Duration::ZERO).is_deny());
}

#[test]
fn sliding_log_multi_unit_denial_waits_for_enough_to_age_out() {
    // Limit 3 per second: units at 0, 100 and 200 ms. Two more at 300 ms need
    // the two oldest gone, the second of which leaves at 1 100 ms.
    let mut sl = SlidingLog::new(&Quota::per_second(3));
    assert!(sl.acquire(1, at(0)).is_allow());
    assert!(sl.acquire(1, at(100)).is_allow());
    assert!(sl.acquire(1, at(200)).is_allow());
    assert_eq!(
        sl.acquire(2, at(300)),
        Decision::Deny {
            retry_after: Duration::from_millis(800)
        }
    );
}

#[test]
fn sliding_counter_weighted_estimate_exact_wait() {
    // Limit 10 per second; 10 admitted in [0, 1000). At 1 500 ms the previous
    // window still weighs 10 * 500 / 1000 = 5, so 5 more fit and the sixth is
    // refused until the previous window's weight drops by one unit: 100 ms.
    let mut sc = SlidingCounter::new(&Quota::per_second(10), at(0));
    for _ in 0..10 {
        assert!(sc.acquire(1, at(0)).is_allow());
    }
    assert_eq!(sc.acquire(5, at(1500)), Decision::Allow);
    assert_eq!(
        sc.acquire(1, at(1500)),
        Decision::Deny {
            retry_after: Duration::from_millis(100)
        }
    );
}

#[test]
fn sliding_counter_wait_counts_the_fading_window() {
    // 2 per second, both spent at 900 ms. In the next window the 2 weigh in
    // full at first, so one more fits only once their share is down to 1:
    // at 1 500 ms, a wait of 600 ms; a nanosecond earlier it does not fit.
    let mut sc = SlidingCounter::new(&Quota::per_second(2), at(0));
    assert!(sc.acquire(2, at(900)).is_allow());
    assert_eq!(
        sc.acquire(1, at(900)),
        Decision::Deny {
            retry_after: Duration::from_millis(600)
        }
    );
    assert!(sc.acquire(1, at(1500) - Duration::from_nanos(1)).is_deny());
    assert!(sc.acquire(1, at(1500)).is_allow());
}

#[test]
fn sliding_counter_wait_is_at_most_a_period() {
    // Spent at 300 ms: the request only fits at 1 500 ms, later than a period
    // ahead, so the wait reported is one period and it is still refused then.
    let mut sc = SlidingCounter::new(&Quota::per_second(2), at(0));
    assert!(sc.acquire(2, at(300)).is_allow());
    assert_eq!(
        sc.acquire(1, at(300)),
        Decision::Deny {
            retry_after: Duration::from_secs(1)
        }
    );
    assert!(sc.acquire(1, at(1300)).is_deny());
    assert!(sc.acquire(1, at(1500)).is_allow());
}

#[test]
fn leaky_bucket_retry_a_nanosecond_early_is_refused() {
    // 10 per second with a burst of 10: the whole burst at 0 ms moves the
    // arrival time to 1 000 ms, so the next unit conforms at 100 ms.
    let fill = || {
        let mut lb = LeakyBucket::new(&Quota::per_second(10), at(0));
        for _ in 0..10 {
            assert!(lb.acquire(1, at(0)).is_allow());
        }
        lb
    };
    let mut lb = fill();
    assert_eq!(lb.acquire(1, at(0)), Decision::Deny { retry_after: at(100) });
    assert!(lb.acquire(1, at(100) - Duration::from_nanos(1)).is_deny());
    let mut lb = fill();
    assert!(lb.acquire(1, at(100)).is_allow());
}

#[test]
fn sliding_log_retry_a_nanosecond_early_is_refused() {
    let fill = || {
        let mut sl = SlidingLog::new(&Quota::per_second(3));
        assert!(sl.acquire(1, at(0)).is_allow());
        assert!(sl.acquire(1, at(100)).is_allow());
        assert!(sl.acquire(1, at(200)).is_allow());
        sl
    };
    let mut sl = fill();
    assert_eq!(sl.acquire(2, at(300)), Decision::Deny { retry_after: at(800) });
    assert!(sl.acquire(2, at(1100) - Duration::from_nanos(1)).is_deny());
    let mut sl = fill();
    assert!(sl.acquire(2, at(1100)).is_allow());
}

#[test]
fn fixed_window_retry_point_is_the_next_window_start() {
    let fill = || {
        let mut fw = FixedWindow::new(&Quota::per_second(2), at(0));
        assert!(fw.acquire(2, at(300)).is_allow());
        fw
    };
    let mut fw = fill();
    assert_eq!(fw.acquire(1, at(300)), Decision::Deny { retry_after: at(700) });
    assert!(fw.acquire(1, at(1000) - Duration::from_nanos(1)).is_deny());
    let mut fw = fill();
    assert!(fw.acquire(2, at(1000)).is_allow());
    let mut fw = fill();
    assert!(fw.acquire(2, at(1999)).is_allow());
}

#[test]
fn sliding_counter_wait_within_the_window_is_exact() {
    // 10 per second: 10 in [0, 1000), then 2 at 1 200 ms, where the previous
    // window still weighs 8. One more fits once that weight is down to 7, at
    // 1 300 ms: a wait of 100 ms, and a nanosecond earlier it does not fit.
    let fill = || {
        let mut sc = SlidingCounter::new(&Quota::per_second(10), at(0));
        assert!(sc.acquire(10, at(0)).is_allow());
        assert!(sc.acquire(2, at(1200)).is_allow());
        sc
    };
    let mut sc = fill();
    assert_eq!(sc.acquire(1, at(1200)), Decision::Deny { retry_after: at(100) });
    assert!(sc.acquire(1, at(1300) - Duration::from_nanos(1)).is_deny());
    let mut sc = fill();
    assert!(sc.acquire(1, at(1300)).is_allow());
}
