use lru_store::cache::PersistentCache;
use lru_store::traits::Cache;

#[test]
// Insert one pair and read it back.
fn test_insert_and_get() {
    let mut cache: PersistentCache = Cache::new(2);
    cache.insert("key1".to_string(), "value1".to_string());
    assert_eq!(cache.get(&"key1".to_string()), Some("value1".to_string()));
}

#[test]
// Persist the full cache state and reload it into a fresh cache.
fn test_persist_and_load() {
    let mut cache: PersistentCache = Cache::new(2);
    cache.insert("key1".to_string(), "value1".to_string());
    let snapshot = cache.persist();

    let mut loaded_cache: PersistentCache = Cache::new(2);
    loaded_cache.load(&snapshot).unwrap();
    assert_eq!(loaded_cache.get(&"key1".to_string()), Some("value1".to_string()));
}

#[test]
// The least recently used entry is evicted when the capacity is exceeded.
fn test_eviction_lru() {
    let mut cache: PersistentCache = Cache::new(2);
    cache.insert("key1".to_string(), "value1".to_string());
    cache.insert("key2".to_string(), "value2".to_string());
    cache.insert("key3".to_string(), "value3".to_string()); // evicts "key1"
    assert_eq!(cache.get(&"key1".to_string()), None);
    assert_eq!(cache.get(&"key2".to_string()), Some("value2".to_string()));
    assert_eq!(cache.get(&"key3".to_string()), Some("value3".to_string()));
}

#[test]
// Inserting an existing key replaces its value.
fn test_update_value() {
    let mut cache: PersistentCache = Cache::new(2);
    cache.insert("key1".to_string(), "value1".to_string());
    cache.insert("key1".to_string(), "value1_updated".to_string());
    assert_eq!(cache.get(&"key1".to_string()), Some("value1_updated".to_string()));
}

#[test]
// The capacity bound holds and eviction follows insertion order.
fn test_capacity() {
    let mut cache: PersistentCache = Cache::new(2);
    cache.insert("key1".to_string(), "value1".to_string());
    cache.insert("key2".to_string(), "value2".to_string());
    cache.insert("key3".to_string(), "value3".to_string()); // evicts "key1"
    cache.insert("key4".to_string(), "value4".to_string()); // evicts "key2"
    assert_eq!(cache.get(&"key1".to_string()), None);
    assert_eq!(cache.get(&"key2".to_string()), None);
    // The two youngest keys are still present.
    assert_eq!(cache.get(&"key3".to_string()), Some("value3".to_string()));
    assert_eq!(cache.get(&"key4".to_string()), Some("value4".to_string()));
}
