use lru_store::cache::PersistentCache;
use lru_store::traits::Cache;

#[test]
// Reading a key promotes it, so the other key becomes the eviction victim:
// capacity 2; insert key1, key2; read key1; insert key3 evicts key2, not key1.
fn test_promotion_on_access() {
    let mut cache: PersistentCache = Cache::new(2);
    cache.insert("key1".to_string(), "value1".to_string());
    cache.insert("key2".to_string(), "value2".to_string());
    assert_eq!(cache.get(&"key1".to_string()), Some("value1".to_string()));
    cache.insert("key3".to_string(), "value3".to_string()); // evicts "key2"
    assert_eq!(cache.get(&"key2".to_string()), None);
    assert_eq!(cache.get(&"key1".to_string()), Some("value1".to_string()));
    assert_eq!(cache.get(&"key3".to_string()), Some("value3".to_string()));
}

#[test]
// An explicit move_to_head protects the entry from eviction just as a read
// does.
fn test_move_to_head_protects() {
    let mut cache: PersistentCache = Cache::new(2);
    cache.insert("old".to_string(), "o".to_string());
    cache.insert("young".to_string(), "y".to_string());
    cache.move_to_head(&"old".to_string());
    cache.insert("new".to_string(), "n".to_string()); // evicts "young"
    assert_eq!(cache.get(&"young".to_string()), None);
    assert_eq!(cache.get(&"old".to_string()), Some("o".to_string()));
}

#[test]
// A miss is a pure no-op: it returns nothing and leaves size, order and every
// value exactly as they were, which the snapshot text makes observable.
fn test_miss_changes_nothing() {
    let mut cache: PersistentCache = Cache::new(2);
    cache.insert("a".to_string(), "1".to_string());
    cache.insert("b".to_string(), "2".to_string());
    let before = cache.persist();
    assert_eq!(cache.get(&"missing".to_string()), None);
    let after = cache.persist();
    assert_eq!(before, after);
    assert_eq!(cache.get(&"a".to_string()), Some("1".to_string()));
    assert_eq!(cache.get(&"b".to_string()), Some("2".to_string()));
}

#[test]
// The snapshot text is exactly the documented format: capacity, count, then
// length-prefixed fields from most- to least-recently-used.
fn test_snapshot_format() {
    let mut cache: PersistentCache = Cache::new(2);
    cache.insert("k".to_string(), "v".to_string());
    assert_eq!(cache.persist(), "2;1;1:k1:v".to_string());
    cache.insert("key".to_string(), "value".to_string());
    assert_eq!(cache.persist(), "2;2;3:key5:value1:k1:v".to_string());
}

#[test]
// An empty cache persists and reloads, keeping its capacity.
fn test_snapshot_empty() {
    let cache: PersistentCache = Cache::new(17);
    assert_eq!(cache.persist(), "17;0;".to_string());
    let mut loaded: PersistentCache = Cache::new(1);
    loaded.load(&"17;0;".to_string()).unwrap();
    assert_eq!(loaded.get(&"a".to_string()), None);
    // The loaded capacity is 17: a 17th insert evicts nothing.
    for i in 0..17 {
        loaded.insert(format!("k{}", i), format!("v{}", i));
    }
    assert_eq!(loaded.get(&"k0".to_string()), Some("v0".to_string()));
}

#[test]
// Reloading a snapshot reproduces the recency order, so eviction behaves as
// in the original cache.
fn test_round_trip_keeps_order() {
    let mut cache: PersistentCache = Cache::new(3);
    cache.insert("a".to_string(), "1".to_string());
    cache.insert("b".to_string(), "2".to_string());
    cache.insert("c".to_string(), "3".to_string());
    // Promote "a": order is now a, c, b from youngest to oldest.
    assert_eq!(cache.get(&"a".to_string()), Some("1".to_string()));
    let snapshot = cache.persist();

    let mut loaded: PersistentCache = Cache::new(3);
    loaded.load(&snapshot).unwrap();
    // "b" is the least recently used entry, so the next insert evicts it.
    loaded.insert("d".to_string(), "4".to_string());
    assert_eq!(loaded.get(&"b".to_string()), None);
    assert_eq!(loaded.get(&"a".to_string()), Some("1".to_string()));
    assert_eq!(loaded.get(&"c".to_string()), Some("3".to_string()));
    assert_eq!(loaded.get(&"d".to_string()), Some("4".to_string()));
}

#[test]
// Keys and values may hold the format's separators and digits; the length
// prefixes keep them intact. Characters outside ASCII count as one each.
fn test_round_trip_awkward_text() {
    let mut cache: PersistentCache = Cache::new(4);
    cache.insert("a:b;c".to_string(), "1:2;3".to_string());
    cache.insert("7".to_string(), "".to_string());
    cache.insert("clé".to_string(), "valé".to_string());
    let snapshot = cache.persist();

    let mut loaded: PersistentCache = Cache::new(4);
    loaded.load(&snapshot).unwrap();
    assert_eq!(loaded.get(&"a:b;c".to_string()), Some("1:2;3".to_string()));
    assert_eq!(loaded.get(&"7".to_string()), Some("".to_string()));
    assert_eq!(loaded.get(&"clé".to_string()), Some("valé".to_string()));
}

#[test]
// Updating an existing key does not grow the cache: both old keys survive a
// later insert only if the update really replaced in place.
fn test_update_does_not_grow() {
    let mut cache: PersistentCache = Cache::new(2);
    cache.insert("a".to_string(), "1".to_string());
    cache.insert("b".to_string(), "2".to_string());
    cache.insert("a".to_string(), "1bis".to_string());
    // Still two live entries: both keys present.
    assert_eq!(cache.persist(), "2;2;1:a4:1bis1:b1:2".to_string());
    assert_eq!(cache.get(&"b".to_string()), Some("2".to_string()));
    assert_eq!(cache.get(&"a".to_string()), Some("1bis".to_string()));
}

#[test]
// A capacity-one cache holds exactly the last insert.
fn test_capacity_one() {
    let mut cache: PersistentCache = Cache::new(1);
    cache.insert("a".to_string(), "1".to_string());
    cache.insert("b".to_string(), "2".to_string());
    assert_eq!(cache.get(&"a".to_string()), None);
    assert_eq!(cache.get(&"b".to_string()), Some("2".to_string()));
}

#[test]
// Every malformed snapshot is rejected and the cache is left untouched.
fn test_load_rejects_malformed() {
    let bad = [
        "",              // no capacity
        "x",             // no digits
        "2",             // missing separators
        "2;",            // missing count
        "2;1",           // missing separator after the count
        "0;0;",          // zero capacity
        "2;3;1:a1:11:b1:21:c1:3", // more entries than the capacity
        "2;2;1:a1:1",    // fewer entries than announced
        "2;1;1:a1:1x",   // trailing text
        "2;1;5:a1:1",    // field length beyond the end
        "2;1;1:a2:1",    // value length beyond the end
        "2;2;1:a1:11:a1:2", // repeated key
        "99999999999999999999999999;0;", // capacity too large to represent
        "2;1;1;a1:1",    // wrong separator inside an entry
    ];
    for text in bad.iter() {
        let mut cache: PersistentCache = Cache::new(2);
        cache.insert("keep".to_string(), "kept".to_string());
        let before = cache.persist();
        assert!(cache.load(&text.to_string()).is_err());
        assert_eq!(cache.persist(), before);
        assert_eq!(cache.get(&"keep".to_string()), Some("kept".to_string()));
    }
}

#[test]
// Loading replaces the whole state: old entries are gone, not merged.
fn test_load_replaces_state() {
    let mut source: PersistentCache = Cache::new(2);
    source.insert("new1".to_string(), "n1".to_string());
    let snapshot = source.persist();

    let mut cache: PersistentCache = Cache::new(3);
    cache.insert("old1".to_string(), "o1".to_string());
    cache.insert("old2".to_string(), "o2".to_string());
    cache.load(&snapshot).unwrap();
    assert_eq!(cache.get(&"old1".to_string()), None);
    assert_eq!(cache.get(&"old2".to_string()), None);
    assert_eq!(cache.get(&"new1".to_string()), Some("n1".to_string()));
}
