use core::time::Duration;
use std::collections::hash_map::DefaultHasher;
use std::hash::{Hash, Hasher};

use rate_net::{Decision, Eviction, Key, Quota, RateLimiterError, DEFAULT_MAX_KEYS, INLINE_CAP};

#[test]
fn test_allow_predicates() {
    let allow = Decision::Allow;
    assert!(allow.is_allow());
    assert!(!allow.is_deny());
    assert_eq!(allow.retry_after(), None);
}

#[test]
fn test_deny_predicates() {
    let deny = Decision::Deny {
        retry_after: Duration::from_secs(2),
    };
    assert!(deny.is_deny());
    assert!(!deny.is_allow());
    assert_eq!(deny.retry_after(), Some(Duration::from_secs(2)));
}

#[test]
fn test_display_names_the_violated_constraint() {
    assert!(RateLimiterError::ZeroQuota.to_string().contains("limit"));
    assert!(RateLimiterError::ZeroPeriod.to_string().contains("period"));
}

#[test]
fn test_forge_kind_matches_variant() {
    assert_eq!(RateLimiterError::ZeroQuota.kind(), "ZeroQuota");
    assert_eq!(RateLimiterError::ZeroPeriod.kind(), "ZeroPeriod");
}

#[test]
fn test_config_errors_are_not_retryable() {
    assert!(!RateLimiterError::ZeroQuota.is_retryable());
}

#[test]
fn error_texts_are_exact() {
    assert_eq!(RateLimiterError::ZeroQuota.message(), "quota limit must be greater than zero");
    assert_eq!(RateLimiterError::ZeroPeriod.message(), "quota period must be greater than zero");
    assert_eq!(RateLimiterError::ZeroPeriod.caption(), "Invalid rate-limit configuration");
    assert!(!RateLimiterError::ZeroPeriod.is_retryable());
}

#[test]
fn test_per_second_sets_one_second_period() {
    let quota = Quota::per_second(10);
    assert_eq!(quota.limit(), 10);
    assert_eq!(quota.period(), Duration::from_secs(1));
}

#[test]
fn test_per_minute_sets_sixty_second_period() {
    assert_eq!(Quota::per_minute(10).period(), Duration::from_secs(60));
}

#[test]
fn test_burst_defaults_to_limit_and_overrides() {
    assert_eq!(Quota::per_second(10).burst(), 10);
    assert_eq!(Quota::per_minute(10).burst(), 10);
    let q = Quota::rate(10, Duration::from_secs(1)).unwrap();
    assert_eq!(q.burst(), 10);
    assert_eq!(q.with_burst(25).burst(), 25);
    assert_eq!(q.with_burst(25).limit(), 10);
}

#[test]
fn test_rate_accepts_valid_values() {
    let quota = Quota::rate(5, Duration::from_millis(100)).unwrap();
    assert_eq!(quota.limit(), 5);
    assert_eq!(quota.period(), Duration::from_millis(100));
}

#[test]
fn test_rate_rejects_zero_limit() {
    assert_eq!(
        Quota::rate(0, Duration::from_secs(1)),
        Err(RateLimiterError::ZeroQuota)
    );
}

#[test]
fn test_rate_rejects_zero_period() {
    assert_eq!(
        Quota::rate(10, Duration::ZERO),
        Err(RateLimiterError::ZeroPeriod)
    );
}

#[test]
fn test_per_second_zero_limit_is_allowed() {
    assert_eq!(Quota::per_second(0).limit(), 0);
}

#[test]
fn rate_with_zero_limit_and_zero_period_reports_the_limit() {
    assert_eq!(Quota::rate(0, Duration::ZERO), Err(RateLimiterError::ZeroQuota));
}

#[test]
fn test_str_and_string_are_equal_for_same_bytes() {
    let a: Key = "user:42".into();
    let b: Key = String::from("user:42").into();
    assert_eq!(a, b);
    assert_eq!(a.as_bytes(), b"user:42");
}

#[test]
fn test_distinct_content_is_distinct() {
    let a: Key = "a".into();
    let b: Key = "b".into();
    assert_ne!(a, b);
}

#[test]
fn test_byte_slice_and_vec_round_trip() {
    let bytes: &[u8] = &[1, 2, 3, 4];
    let a: Key = bytes.into();
    let b: Key = vec![1u8, 2, 3, 4].into();
    assert_eq!(a, b);
    assert_eq!(a.as_bytes(), bytes);
}

#[test]
fn test_u64_uses_big_endian_bytes() {
    let key: Key = 1u64.into();
    assert_eq!(key.as_bytes(), &[0, 0, 0, 0, 0, 0, 0, 1]);
}

#[test]
fn test_large_keys_spill_to_heap_and_compare_equal() {
    let long = vec![b'y'; INLINE_CAP + 1];
    let from_slice: Key = long.as_slice().into();
    let from_vec: Key = long.clone().into();
    assert!(!from_slice.is_inline());
    assert_eq!(from_slice, from_vec);
    assert_eq!(from_slice.as_bytes(), long.as_slice());
}

#[test]
fn test_inline_and_heap_hash_consistently_by_bytes() {
    fn hash(key: &Key) -> u64 {
        let mut h = DefaultHasher::new();
        key.hash(&mut h);
        h.finish()
    }
    let a: Key = "short".into();
    let b: Key = String::from("short").into();
    assert_eq!(hash(&a), hash(&b));
}

#[test]
fn small_keys_are_inline_up_to_the_cap() {
    assert!(Key::from("user:42").is_inline());
    assert!(Key::from(1u64).is_inline());
    let at_cap = vec![b'x'; INLINE_CAP];
    assert!(Key::from(at_cap.as_slice()).is_inline());
    assert!(Key::from(at_cap).is_inline());
}

#[test]
fn u64_key_bytes_are_most_significant_first() {
    let key: Key = 0x0102_0304_0506_0708u64.into();
    assert_eq!(key.as_bytes(), &[1, 2, 3, 4, 5, 6, 7, 8]);
}

#[test]
fn same_as_compares_bytes_across_sources() {
    let long = vec![b'z'; INLINE_CAP + 5];
    let a: Key = long.clone().into();
    let b: Key = String::from_utf8(long).unwrap().into();
    assert!(a.same_as(&b));
    assert!(!a.same_as(&Key::from("z")));
    let c = a.clone();
    assert_eq!(c.as_bytes(), a.as_bytes());
}

#[test]
fn eviction_policies_report_what_they_hold() {
    assert_eq!(Eviction::default().max_keys(), Some(DEFAULT_MAX_KEYS));
    assert_eq!(Eviction::default().idle_ttl(), None);
    assert_eq!(Eviction::capacity(7).max_keys(), Some(7));
    assert_eq!(Eviction::idle(Duration::from_secs(3)).idle_ttl(), Some(Duration::from_secs(3)));
    assert_eq!(Eviction::idle(Duration::from_secs(3)).max_keys(), None);
    assert_eq!(Eviction::unbounded().max_keys(), None);
    let both = Eviction::capacity(9).with_idle(Duration::from_millis(5));
    assert_eq!(both.max_keys(), Some(9));
    assert_eq!(both.idle_ttl(), Some(Duration::from_millis(5)));
}
