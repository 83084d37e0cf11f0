use lrucacherust::{CacheError, LRUCache};

fn setup(capacity: usize) -> LRUCache {
    LRUCache::new(capacity).unwrap()
}

#[test]
fn lru_cache_integration_test() {
    let mut cache = setup(10);
    cache.set(String::from("nitish"), String::from("sharma"));
    let ans = cache.get("nitish").unwrap();
    assert_eq!(ans, String::from("sharma"));
}

#[test]
fn oldest_key_is_evicted() {
    let mut cache = setup(2);
    cache.set("a".to_string(), "1".to_string());
    cache.set("b".to_string(), "2".to_string());
    cache.set("c".to_string(), "3".to_string());
    assert_eq!(cache.get("a"), None);
    assert_eq!(cache.get("b"), Some("2".to_string()));
    assert_eq!(cache.get("c"), Some("3".to_string()));
    assert_eq!(cache.len(), 2);
}

#[test]
fn lookup_refreshes_recency() {
    let mut cache = setup(2);
    cache.set("a".to_string(), "1".to_string());
    cache.set("b".to_string(), "2".to_string());
    assert_eq!(cache.get("a"), Some("1".to_string()));
    cache.set("c".to_string(), "3".to_string());
    assert_eq!(cache.get("b"), None);
    assert_eq!(cache.get("a"), Some("1".to_string()));
    assert_eq!(cache.get("c"), Some("3".to_string()));
}

#[test]
fn zero_capacity_is_rejected() {
    assert_eq!(LRUCache::new(0).err(), Some(CacheError::ZeroCapacity));
}

#[test]
fn overwrite_keeps_size() {
    let mut cache = setup(2);
    cache.set("a".to_string(), "1".to_string());
    cache.set("a".to_string(), "2".to_string());
    assert_eq!(cache.len(), 1);
    assert_eq!(cache.get("a"), Some("2".to_string()));
}

#[test]
fn overwrite_refreshes_recency() {
    let mut cache = setup(2);
    cache.set("a".to_string(), "1".to_string());
    cache.set("b".to_string(), "2".to_string());
    cache.set("a".to_string(), "9".to_string());
    cache.set("c".to_string(), "3".to_string());
    assert_eq!(cache.get("b"), None);
    assert_eq!(cache.get("a"), Some("9".to_string()));
    assert_eq!(cache.len(), 2);
}

#[test]
fn miss_on_empty_cache() {
    let mut cache = setup(3);
    assert_eq!(cache.get("x"), None);
    assert_eq!(cache.len(), 0);
    assert_eq!(cache.capacity(), 3);
}

#[test]
fn empty_key_and_value_are_data() {
    let mut cache = setup(2);
    cache.set(String::new(), String::new());
    assert_eq!(cache.get(""), Some(String::new()));
    cache.set("k".to_string(), "v".to_string());
    cache.set("m".to_string(), "w".to_string());
    assert_eq!(cache.get(""), None);
    assert_eq!(cache.get("k"), Some("v".to_string()));
}

#[test]
fn capacity_one_keeps_latest() {
    let mut cache = setup(1);
    cache.set("a".to_string(), "1".to_string());
    cache.set("b".to_string(), "2".to_string());
    assert_eq!(cache.len(), 1);
    assert_eq!(cache.get("a"), None);
    assert_eq!(cache.get("b"), Some("2".to_string()));
}

#[test]
fn size_never_exceeds_capacity() {
    let mut cache = setup(3);
    let mut i: u32 = 0;
    while i < 20 {
        cache.set(format!("k{}", i), format!("v{}", i));
        assert!(cache.len() <= 3);
        i += 1;
    }
    assert_eq!(cache.get("k19"), Some("v19".to_string()));
    assert_eq!(cache.get("k17"), Some("v17".to_string()));
    assert_eq!(cache.get("k16"), None);
}

#[test]
fn eviction_removes_only_least_recent() {
    let mut cache = setup(3);
    cache.set("a".to_string(), "1".to_string());
    cache.set("b".to_string(), "2".to_string());
    cache.set("c".to_string(), "3".to_string());
    assert_eq!(cache.get("a"), Some("1".to_string()));
    cache.set("d".to_string(), "4".to_string());
    assert_eq!(cache.get("b"), None);
    assert_eq!(cache.get("a"), Some("1".to_string()));
    assert_eq!(cache.get("c"), Some("3".to_string()));
    assert_eq!(cache.get("d"), Some("4".to_string()));
}
