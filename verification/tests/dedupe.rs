use std::time::Duration;

use mdsevent_tcp_bridge::dedupe::SeenCache;

#[test]
fn dedupe_basics() {
    let mut cache = SeenCache::new(Duration::from_secs(1).as_nanos() as u64, 3);
    let now: u64 = 5_000_000_000;
    let two_secs = Duration::from_secs(2).as_nanos() as u64;
    assert!(cache.add_if_new("a", now));
    assert!(!cache.add_if_new("a", now));
    assert!(cache.add_if_new("b", now));
    assert!(cache.add_if_new("c", now));
    assert!(cache.add_if_new("d", now));
    assert!(cache.add_if_new("a", now + two_secs));
}

#[test]
fn dedupe_within_ttl_is_duplicate() {
    let mut cache = SeenCache::new(1_000, 10);
    assert!(cache.add_if_new("x", 10_000));
    assert!(!cache.add_if_new("x", 10_500));
    assert!(!cache.add_if_new("x", 11_000));
    // Older than the time-to-live: expired, new again.
    assert!(cache.add_if_new("x", 11_001));
}

#[test]
fn dedupe_capacity_evicts_oldest() {
    let mut cache = SeenCache::new(1_000_000, 2);
    assert!(cache.add_if_new("a", 100));
    assert!(cache.add_if_new("b", 100));
    assert!(cache.add_if_new("c", 100));
    // "a" was evicted, "c" and "b" are kept.
    assert!(!cache.add_if_new("c", 100));
    assert!(!cache.add_if_new("b", 100));
    assert!(cache.add_if_new("a", 100));
}

#[test]
fn dedupe_zero_capacity_keeps_nothing() {
    let mut cache = SeenCache::new(1_000_000, 0);
    assert!(cache.add_if_new("a", 1));
    assert!(cache.add_if_new("a", 1));
}

#[test]
fn dedupe_early_clock_expires_older() {
    // Before the clock has run for a time-to-live, the threshold is `now` itself.
    let mut cache = SeenCache::new(1_000, 10);
    assert!(cache.add_if_new("a", 10));
    assert!(!cache.add_if_new("a", 10));
    assert!(cache.add_if_new("a", 20));
}
