use binda::rate_limit::RateLimiter;

/// Token buckets that hold up to `capacity` tokens and regain
/// `refill_per_sec` of them. Times are in milliseconds.
fn bucket(capacity: f64, refill_per_sec: f64) -> impl Fn(f64, u64) -> (f64, bool) {
    move |tokens, elapsed_millis| {
        let elapsed = elapsed_millis as f64 / 1000.0;
        let tokens = (tokens + elapsed * refill_per_sec).min(capacity);
        if tokens >= 1.0 {
            (tokens - 1.0, true)
        } else {
            (tokens, false)
        }
    }
}

#[test]
fn allows_bursts_up_to_capacity_then_throttles() {
    let spend = bucket(3.0, 1.0);
    let mut limiter = RateLimiter::new(3.0, 100);
    assert!(limiter.allow_at("a", 0, &spend));
    assert!(limiter.allow_at("a", 0, &spend));
    assert!(limiter.allow_at("a", 0, &spend));
    assert!(!limiter.allow_at("a", 0, &spend));
}

#[test]
fn refills_over_time() {
    let spend = bucket(1.0, 1.0);
    let mut limiter = RateLimiter::new(1.0, 100);
    assert!(limiter.allow_at("a", 0, &spend));
    assert!(!limiter.allow_at("a", 0, &spend));
    assert!(limiter.allow_at("a", 1100, &spend));
}

#[test]
fn keys_are_independent() {
    let spend = bucket(1.0, 1.0);
    let mut limiter = RateLimiter::new(1.0, 100);
    assert!(limiter.allow_at("a", 0, &spend));
    assert!(limiter.allow_at("b", 0, &spend));
    assert!(!limiter.allow_at("a", 0, &spend));
    assert!(!limiter.allow_at("b", 0, &spend));
}

#[test]
fn evicts_least_recently_seen_key_when_over_capacity() {
    let mut limiter = RateLimiter::new(1.0, 2);
    limiter.allow_at("a", 0, bucket(1.0, 1.0));
    limiter.allow_at("b", 10, bucket(1.0, 1.0));
    limiter.allow_at("c", 20, bucket(1.0, 1.0));
    assert_eq!(limiter.tracked_keys(), 2);
    assert!(!limiter.is_tracked("a"));
}

#[test]
fn prune_removes_stale_keys() {
    let mut limiter = RateLimiter::new(1.0, 100);
    limiter.allow_at("a", 0, bucket(1.0, 1.0));
    limiter.prune_older_than(60_000, 120_000);
    assert_eq!(limiter.tracked_keys(), 0);
}

#[test]
fn prune_keeps_recent_keys() {
    let mut limiter = RateLimiter::new(1.0, 100);
    limiter.allow_at("a", 0, bucket(1.0, 1.0));
    limiter.allow_at("b", 61, bucket(1.0, 1.0));
    limiter.allow_at("c", 60, bucket(1.0, 1.0));
    limiter.allow_at("d", 500, bucket(1.0, 1.0));
    limiter.prune_older_than(60, 120);
    assert!(!limiter.is_tracked("a"));
    assert!(limiter.is_tracked("b"));
    assert!(!limiter.is_tracked("c"));
    assert!(limiter.is_tracked("d"));
}

#[test]
fn bucket_gets_the_elapsed_time() {
    let mut limiter = RateLimiter::new(0u64, 10);
    let mut seen = Vec::new();
    for now in [5, 9, 9, 3, 7] {
        let mut waited = None;
        limiter.allow_at("a", now, |_, elapsed| {
            waited = Some(elapsed);
            (0, true)
        });
        seen.push(waited.unwrap());
    }
    assert_eq!(seen, vec![0, 4, 0, 0, 4]);
}

#[test]
fn limit_of_none_still_tracks_one() {
    let mut limiter = RateLimiter::new(1.0, 0);
    for key in ["a", "b", "c"] {
        assert!(limiter.allow_at(key, 0, bucket(1.0, 1.0)));
        assert_eq!(limiter.tracked_keys(), 1);
        assert!(limiter.is_tracked(key));
    }
}

#[test]
fn tracked_keys_stay_bounded() {
    let mut limiter = RateLimiter::new(1.0, 3);
    for i in 0..50u64 {
        limiter.allow_at(&format!("k{}", i % 7), i, bucket(1.0, 1.0));
        assert!(limiter.tracked_keys() <= 3);
    }
}
