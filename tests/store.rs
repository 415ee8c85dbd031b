use redis_server::store::RedisValueStore;

const MS: u64 = 1_000_000;

#[test]
fn get_of_missing_key_is_absent() {
    let mut s = RedisValueStore::new();
    assert_eq!(s.get_at(b"k", 0), None);
    assert_eq!(s.get(b"k"), None);
}

#[test]
fn set_then_get() {
    let mut s = RedisValueStore::new();
    s.set(b"k".to_vec(), b"v".to_vec());
    assert_eq!(s.get(b"k"), Some(b"v".to_vec()));
    s.set(b"k".to_vec(), b"w".to_vec());
    assert_eq!(s.get(b"k"), Some(b"w".to_vec()));
}

#[test]
fn keys_are_independent() {
    let mut s = RedisValueStore::new();
    s.set(b"a".to_vec(), b"1".to_vec());
    s.set(b"b".to_vec(), b"2".to_vec());
    assert_eq!(s.get_at(b"a", 5 * MS), Some(b"1".to_vec()));
    assert_eq!(s.get_at(b"b", 5 * MS), Some(b"2".to_vec()));
    assert_eq!(s.get_at(b"c", 5 * MS), None);
}

#[test]
fn ttl_boundary() {
    let mut s = RedisValueStore::new();
    s.set_with_expiry_at(b"k".to_vec(), b"v".to_vec(), 100, 1000 * MS);
    assert_eq!(s.get_at(b"k", 1000 * MS), Some(b"v".to_vec()));
    assert_eq!(s.get_at(b"k", 1050 * MS), Some(b"v".to_vec()));
    assert_eq!(s.get_at(b"k", 1100 * MS + 1), None);
    assert!(!s.contains_key(b"k"));
}

#[test]
fn read_at_exact_expiry_still_returns_value() {
    let mut s = RedisValueStore::new();
    s.set_with_expiry_at(b"k".to_vec(), b"v".to_vec(), 100, 1000 * MS);
    assert_eq!(s.get_at(b"k", 1100 * MS), Some(b"v".to_vec()));
    assert!(s.contains_key(b"k"));
    assert_eq!(s.get_at(b"k", 1100 * MS + 1), None);
}

#[test]
fn zero_ttl_lapses_after_the_write_instant() {
    let mut s = RedisValueStore::new();
    s.set_with_expiry_at(b"k".to_vec(), b"v".to_vec(), 0, 7 * MS);
    assert_eq!(s.get_at(b"k", 7 * MS), Some(b"v".to_vec()));
    assert_eq!(s.get_at(b"k", 7 * MS + 1), None);
}

#[test]
fn huge_ttl_never_lapses() {
    let mut s = RedisValueStore::new();
    s.set_with_expiry_at(b"k".to_vec(), b"v".to_vec(), u64::MAX, 10 * MS);
    assert_eq!(s.get_at(b"k", u64::MAX), Some(b"v".to_vec()));
}

#[test]
fn overwrite_clears_ttl() {
    let mut s = RedisValueStore::new();
    s.set_with_expiry_at(b"k".to_vec(), b"v1".to_vec(), 10, 0);
    s.set(b"k".to_vec(), b"v2".to_vec());
    assert_eq!(s.get_at(b"k", 1000 * MS), Some(b"v2".to_vec()));
}

#[test]
fn lapsed_key_is_removed_once() {
    let mut s = RedisValueStore::new();
    s.set_with_expiry_at(b"k".to_vec(), b"v".to_vec(), 10, 0);
    s.set(b"other".to_vec(), b"x".to_vec());
    assert!(s.contains_key(b"k"));
    assert_eq!(s.get_at(b"k", 11 * MS), None);
    assert!(!s.contains_key(b"k"));
    assert_eq!(s.get_at(b"k", 12 * MS), None);
    assert!(!s.contains_key(b"k"));
    assert_eq!(s.get_at(b"other", 12 * MS), Some(b"x".to_vec()));
}

#[test]
fn lapsed_key_stays_until_read() {
    let mut s = RedisValueStore::new();
    s.set_with_expiry_at(b"k".to_vec(), b"v".to_vec(), 10, 0);
    s.set_with_expiry_at(b"j".to_vec(), b"w".to_vec(), 10, 0);
    assert_eq!(s.get_at(b"j", 50 * MS), None);
    assert!(s.contains_key(b"k"));
}

#[test]
fn set_with_expiry_on_the_real_clock() {
    let mut s = RedisValueStore::new();
    s.set_with_expiry(b"k".to_vec(), b"v".to_vec(), 600_000);
    assert_eq!(s.get(b"k"), Some(b"v".to_vec()));
}

#[test]
fn zero_ttl_on_the_real_clock_is_gone_on_a_later_read() {
    let mut s = RedisValueStore::new();
    s.set_with_expiry(b"k".to_vec(), b"v".to_vec(), 0);
    let written_by = s.clock();
    while s.clock() <= written_by {}
    assert_eq!(s.get(b"k"), None);
    assert!(!s.contains_key(b"k"));
}
