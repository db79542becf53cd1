//! Tests of the cache engine: reads, stores, deletes, eviction of the
//! oldest, lazy expiry on the read path, and garbage collection. Timed
//! behaviour is exercised through the instant-taking operations with
//! explicit instants, so the tests are deterministic.
use memcached::Memcached;

#[test]
fn set_get_ok() {
    let mut mc = Memcached::new(300);
    mc.set("a", "a".as_bytes(), None);
    assert_eq!(mc.get("a"), Some("a".into()));
}

#[test]
fn get_none() {
    let mc = Memcached::new(300);
    assert_eq!(mc.get("b"), None);
}

#[test]
fn displace_oldest() {
    let mut mc = Memcached::new(3);
    mc.set("a", "a".as_bytes(), None);
    mc.set("b", "a".as_bytes(), None);
    mc.set("c", "a".as_bytes(), None);
    mc.set("d", "a".as_bytes(), None);

    assert_eq!(mc.get("a"), None);
    assert_eq!(mc.get("b"), Some("a".into()));
    assert_eq!(mc.get("c"), Some("a".into()));
    assert_eq!(mc.get("d"), Some("a".into()));
}

#[test]
fn overflow() {
    let mut mc = Memcached::new(1);
    mc.set("a", "aa".as_bytes(), None);
    assert_eq!(mc.get("a"), None);
}

/// The key stored in the table and the keys referenced from both secondary
/// indexes are the same value, recorded under the entry's own instants.
#[test]
fn valid_pointers() {
    let mut mc = Memcached::new(300);
    mc.set("a", "a".as_bytes(), Some(300_000));

    let touch = mc.entry_touch("a").unwrap();
    let expiry = mc.entry_expiry("a").unwrap();
    let (touch_instant, key_touch) = mc.touch_index_entry(0).unwrap();
    let (ttl_instant, key_ttl) = mc.ttl_index_entry(0).unwrap();
    assert_eq!(key_touch, "a");
    assert_eq!(key_ttl, "a");
    assert_eq!(touch_instant, touch);
    assert_eq!(ttl_instant, expiry);
}

#[test]
fn expire() {
    let mut mc = Memcached::new(300);
    assert!(mc.set_at("a", "a".as_bytes(), Some(100), 0));
    assert_eq!(mc.get_at("a", 0), Some("a".into()));

    assert_eq!(mc.get_at("a", 200), None);
}

#[test]
fn expire_without_gc() {
    let mut mc = Memcached::new(300);
    assert!(mc.set_at("a", "a".as_bytes(), Some(100), 0));
    assert_eq!(mc.get_at("a", 0), Some("a".into()));

    assert_eq!(mc.get_at("a", 200), None);
    assert_eq!(mc.current_size(), 1);
    assert_eq!(mc.store_len(), 1);
    assert_eq!(mc.ttl_index_len(), 1);
    assert_eq!(mc.touch_index_len(), 1);
}

#[test]
fn expire_with_gc() {
    let mut mc = Memcached::new(300);
    assert!(mc.set_at("a", "a".as_bytes(), Some(100), 0));
    assert_eq!(mc.get_at("a", 0), Some("a".into()));

    mc.collect_garbage_at(200);

    assert_eq!(mc.get_at("a", 200), None);
    assert_eq!(mc.current_size(), 0);
    assert_eq!(mc.store_len(), 0);
    assert_eq!(mc.ttl_index_len(), 0);
    assert_eq!(mc.touch_index_len(), 0);
}

#[test]
fn round_trip_size() {
    let mut mc = Memcached::new(300);
    assert!(mc.set("a", "a".as_bytes(), None));
    assert_eq!(mc.get("a"), Some("a".into()));
    assert_eq!(mc.current_size(), 1);
}

#[test]
fn overflow_rejected_and_empty() {
    let mut mc = Memcached::new(1);
    assert!(!mc.set("a", "aa".as_bytes(), None));
    assert_eq!(mc.get("a"), None);
    assert_eq!(mc.current_size(), 0);
    assert_eq!(mc.store_len(), 0);
}

/// Storing a fresh key and deleting it restores all three structures and
/// the size counter exactly.
#[test]
fn set_then_delete_round_trip() {
    let mut mc = Memcached::new(300);
    assert!(mc.set_at("k", "vv".as_bytes(), None, 5));
    assert_eq!(mc.current_size(), 2);
    assert_eq!(mc.delete("k"), Some("vv".into()));
    assert_eq!(mc.current_size(), 0);
    assert_eq!(mc.store_len(), 0);
    assert_eq!(mc.touch_index_len(), 0);
    assert_eq!(mc.ttl_index_len(), 0);
}

#[test]
fn delete_absent() {
    let mut mc = Memcached::new(300);
    assert_eq!(mc.delete("nope"), None);
}

#[test]
fn delete_keeps_other_keys() {
    let mut mc = Memcached::new(300);
    assert!(mc.set_at("a", "x".as_bytes(), Some(50), 1));
    assert!(mc.set_at("b", "yy".as_bytes(), None, 2));
    assert_eq!(mc.delete("a"), Some("x".into()));
    assert_eq!(mc.get_at("b", 3), Some("yy".into()));
    assert_eq!(mc.current_size(), 2);
    assert_eq!(mc.ttl_index_len(), 0);
    assert_eq!(mc.touch_index_len(), 1);
}

/// A second collection at the same instant, with no mutation in between,
/// changes nothing.
#[test]
fn gc_idempotent() {
    let mut mc = Memcached::new(300);
    assert!(mc.set_at("a", "a".as_bytes(), Some(10), 0));
    assert!(mc.set_at("b", "b".as_bytes(), Some(500), 0));
    mc.collect_garbage_at(100);
    assert_eq!(mc.store_len(), 1);
    assert_eq!(mc.current_size(), 1);
    mc.collect_garbage_at(100);
    assert_eq!(mc.store_len(), 1);
    assert_eq!(mc.current_size(), 1);
    assert_eq!(mc.get_at("b", 100), Some("b".into()));
}

/// Collection takes exactly the prefix of expiry instants strictly before
/// `now` and leaves the rest.
#[test]
fn gc_takes_strict_prefix() {
    let mut mc = Memcached::new(300);
    assert!(mc.set_at("a", "a".as_bytes(), Some(10), 0));
    assert!(mc.set_at("b", "b".as_bytes(), Some(20), 0));
    assert!(mc.set_at("c", "c".as_bytes(), Some(30), 0));
    mc.collect_garbage_at(20);
    assert_eq!(mc.get_at("a", 20), None);
    assert_eq!(mc.store_len(), 2);
    assert_eq!(mc.entry_expiry("b"), Some(20));
    assert_eq!(mc.entry_expiry("c"), Some(30));
}

/// An entry is still visible at its expiry instant and hidden one instant
/// later.
#[test]
fn expiry_boundary() {
    let mut mc = Memcached::new(300);
    assert!(mc.set_at("a", "a".as_bytes(), Some(100), 0));
    assert_eq!(mc.get_at("a", 100), Some("a".into()));
    assert_eq!(mc.get_at("a", 101), None);
}

/// Ties in the insertion instant are evicted in insertion order.
#[test]
fn eviction_order_on_ties() {
    let mut mc = Memcached::new(3);
    assert!(mc.set_at("a", "1".as_bytes(), None, 7));
    assert!(mc.set_at("b", "2".as_bytes(), None, 7));
    assert!(mc.set_at("c", "3".as_bytes(), None, 7));
    assert!(mc.set_at("d", "4".as_bytes(), None, 8));
    assert_eq!(mc.get_at("a", 9), None);
    assert_eq!(mc.get_at("b", 9), Some("2".into()));
    assert_eq!(mc.get_at("c", 9), Some("3".into()));
    assert_eq!(mc.get_at("d", 9), Some("4".into()));
}

/// Overwriting a key replaces the value and counts only the new length.
#[test]
fn overwrite_same_key() {
    let mut mc = Memcached::new(4);
    assert!(mc.set_at("a", "xx".as_bytes(), None, 1));
    assert!(mc.set_at("a", "yyy".as_bytes(), None, 2));
    assert_eq!(mc.get_at("a", 3), Some("yyy".into()));
    assert_eq!(mc.current_size(), 3);
    assert_eq!(mc.store_len(), 1);
    assert_eq!(mc.touch_index_len(), 1);
}

/// A store that cannot fit even after draining the cache rejects the value
/// and leaves the cache empty: the eviction attempt is not rolled back.
#[test]
fn rejection_after_draining() {
    let mut mc = Memcached::new(2);
    assert!(mc.set_at("a", "x".as_bytes(), None, 1));
    assert!(!mc.set_at("b", "yyy".as_bytes(), None, 2));
    assert_eq!(mc.get_at("a", 3), None);
    assert_eq!(mc.current_size(), 0);
    assert_eq!(mc.store_len(), 0);
}

/// A store with a time-to-live that would run past the end of the clock
/// saturates instead of wrapping around.
#[test]
fn ttl_saturates() {
    let mut mc = Memcached::new(300);
    assert!(mc.set_at("a", "a".as_bytes(), Some(u64::MAX), 10));
    assert_eq!(mc.entry_expiry("a"), Some(u64::MAX));
    assert_eq!(mc.get_at("a", u64::MAX), Some("a".into()));
}

/// Against the real clock: an entry far from its expiry survives a
/// collection and keeps answering reads.
#[test]
fn gc_leaves_live_entries() {
    let mut mc = Memcached::new(300);
    assert!(mc.set("a", "a".as_bytes(), Some(300_000)));
    mc.collect_garbage();
    assert_eq!(mc.get("a"), Some("a".into()));
    assert_eq!(mc.current_size(), 1);
    assert_eq!(mc.store_len(), 1);
    assert_eq!(mc.ttl_index_len(), 1);
}

/// A store into a full cache first collects expired entries before evicting
/// anything still live.
#[test]
fn gc_runs_before_eviction() {
    let mut mc = Memcached::new(2);
    assert!(mc.set_at("old", "x".as_bytes(), Some(5), 0));
    assert!(mc.set_at("live", "y".as_bytes(), None, 1));
    // The cache is full; "old" has expired by instant 10, so it is
    // collected and "live" survives.
    assert!(mc.set_at("new", "z".as_bytes(), None, 10));
    assert_eq!(mc.get_at("live", 11), Some("y".into()));
    assert_eq!(mc.get_at("new", 11), Some("z".into()));
    assert_eq!(mc.get_at("old", 11), None);
}
