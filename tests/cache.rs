use lru_bytes_cache::{CacheError, LruCache, Person};

#[test]
fn it_works_for_strings() {
    let mut cache = LruCache::new(2);
    cache.set("key1", &"value1".to_string()).unwrap();
    cache.set("key2", &"value2".to_string()).unwrap();
    // getting key1 later should make it the most recent value
    assert_eq!(cache.get("key2"), Ok(Some("value2".to_string())));
    assert_eq!(cache.get("key1"), Ok(Some("value1".to_string())));

    // setting a new value should remove the oldest value
    cache.set("key3", &"value3".to_string()).unwrap();
    assert_eq!(cache.get("key1"), Ok(Some("value1".to_string())));
    assert_eq!(cache.get::<String>("key2"), Ok(None));
    assert_eq!(cache.get("key3"), Ok(Some("value3".to_string())));
}

#[test]
fn it_works_for_numbers() {
    let mut cache = LruCache::new(2);
    cache.set("key1", &1).unwrap();
    cache.set("key2", &2).unwrap();
    // getting key1 later should make it the most recent value
    assert_eq!(cache.get("key2"), Ok(Some(2)));
    assert_eq!(cache.get("key1"), Ok(Some(1)));
}

#[test]
fn it_works_for_structs() {
    let mut cache = LruCache::new(2);
    cache.set("key1", &Person { name: "John".to_string(), age: 20 }).unwrap();
    cache.set("key2", &Person { name: "Jane".to_string(), age: 21 }).unwrap();
    // getting key1 later should make it the most recent value
    assert_eq!(cache.get("key2"), Ok(Some(Person { name: "Jane".to_string(), age: 21 })));
    assert_eq!(cache.get("key1"), Ok(Some(Person { name: "John".to_string(), age: 20 })));
}

#[test]
fn never_more_keys_than_capacity() {
    let mut cache = LruCache::new(3);
    for i in 0..20 {
        let key = format!("key{}", i % 7);
        cache.set(&key, &i).unwrap();
        assert!(cache.len() <= cache.capacity());
    }
    assert_eq!(cache.len(), 3);
    assert_eq!(cache.capacity(), 3);
}

#[test]
fn first_key_evicted_by_the_store_past_capacity() {
    let mut cache = LruCache::new(3);
    cache.set("a", &1).unwrap();
    cache.set("b", &2).unwrap();
    cache.set("c", &3).unwrap();
    assert_eq!(cache.len(), 3);
    cache.set("d", &4).unwrap();
    assert_eq!(cache.get::<i32>("a"), Ok(None));
    assert_eq!(cache.get("b"), Ok(Some(2)));
    assert_eq!(cache.get("c"), Ok(Some(3)));
    assert_eq!(cache.get("d"), Ok(Some(4)));
}

#[test]
fn first_key_present_until_capacity_is_passed() {
    let mut probe = LruCache::new(2);
    probe.set("a", &1).unwrap();
    assert_eq!(probe.len(), 1);
    probe.set("b", &2).unwrap();
    assert_eq!(probe.len(), 2);
    assert_eq!(probe.get("a"), Ok(Some(1)));
}

#[test]
fn read_promotes_key() {
    let mut cache = LruCache::new(2);
    cache.set("k1", &"v1".to_string()).unwrap();
    cache.set("k2", &"v2".to_string()).unwrap();
    assert_eq!(cache.get("k1"), Ok(Some("v1".to_string())));
    cache.set("k3", &"v3".to_string()).unwrap();
    assert_eq!(cache.get::<String>("k2"), Ok(None));
    assert_eq!(cache.get("k1"), Ok(Some("v1".to_string())));
    assert_eq!(cache.get("k3"), Ok(Some("v3".to_string())));
}

#[test]
fn same_key_updates_in_place() {
    let mut cache = LruCache::new(2);
    cache.set("k", &"v1".to_string()).unwrap();
    assert_eq!(cache.len(), 1);
    cache.set("k", &"v2".to_string()).unwrap();
    assert_eq!(cache.len(), 1);
    assert_eq!(cache.get("k"), Ok(Some("v2".to_string())));
}

#[test]
fn update_promotes_key() {
    let mut cache = LruCache::new(2);
    cache.set("k1", &1).unwrap();
    cache.set("k2", &2).unwrap();
    cache.set("k1", &10).unwrap();
    cache.set("k3", &3).unwrap();
    assert_eq!(cache.get::<i32>("k2"), Ok(None));
    assert_eq!(cache.get("k1"), Ok(Some(10)));
}

#[test]
fn absent_key_is_none_not_error() {
    let mut cache = LruCache::new(1);
    assert_eq!(cache.get::<String>("missing"), Ok(None));
    cache.set("a", &"x".to_string()).unwrap();
    cache.set("b", &"y".to_string()).unwrap();
    assert_eq!(cache.get::<String>("a"), Ok(None));
    assert_eq!(cache.get::<String>("missing"), Ok(None));
}

#[test]
fn invalid_utf8_is_a_conversion_error() {
    let mut cache = LruCache::new(2);
    cache.set("raw", &vec![0xFFu8, 0xFE]).unwrap();
    let r = cache.get::<String>("raw");
    assert!(matches!(r, Err(CacheError::ConversionFailed(_))));
    assert_eq!(cache.get::<Vec<u8>>("raw"), Ok(Some(vec![0xFF, 0xFE])));
}

#[test]
fn failed_read_does_not_promote() {
    let mut cache = LruCache::new(2);
    cache.set("k1", &"abc".to_string()).unwrap();
    cache.set("k2", &"x".to_string()).unwrap();
    assert!(matches!(cache.get::<i32>("k1"), Err(CacheError::ConversionFailed(_))));
    cache.set("k3", &"y".to_string()).unwrap();
    assert_eq!(cache.get::<String>("k1"), Ok(None));
    assert_eq!(cache.get("k2"), Ok(Some("x".to_string())));
}

#[test]
fn zero_capacity_keeps_nothing() {
    let mut cache = LruCache::new(0);
    cache.set("k", &1).unwrap();
    assert_eq!(cache.len(), 0);
    assert_eq!(cache.get::<i32>("k"), Ok(None));
}

#[test]
fn capacity_one_replaces_the_only_key() {
    let mut cache = LruCache::new(1);
    cache.set("a", &1).unwrap();
    cache.set("b", &2).unwrap();
    assert_eq!(cache.len(), 1);
    assert_eq!(cache.get::<i32>("a"), Ok(None));
    assert_eq!(cache.get("b"), Ok(Some(2)));
}

#[test]
fn empty_key_and_empty_value() {
    let mut cache = LruCache::new(2);
    cache.set("", &String::new()).unwrap();
    assert_eq!(cache.get(""), Ok(Some(String::new())));
}
