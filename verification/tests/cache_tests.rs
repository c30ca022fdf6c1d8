//! Tests of the logical-clock LRU cache: lookups, eviction, statistics,
//! and deterministic iteration.

use kremis_core::{node_cache, traversal_cache, Artifact, LruCache, NodeCache, NodeId, TraversalCache, TraversalCacheKey};

#[test]
fn cache_insert_and_get() {
    let mut cache = LruCache::new(10);
    cache.insert(1u64, "value1");
    cache.insert(2u64, "value2");

    assert_eq!(cache.get(&1), Some("value1"));
    assert_eq!(cache.get(&2), Some("value2"));
    assert_eq!(cache.get(&3), None);
}

#[test]
fn cache_eviction() {
    let mut cache = LruCache::new(3).with_eviction_batch(1);

    cache.insert(1u64, "a");
    cache.insert(2u64, "b");
    cache.insert(3u64, "c");

    // Access 1 and 2 to make 3 the LRU
    let _ = cache.get(&1);
    let _ = cache.get(&2);

    // Insert 4, should evict 3 (LRU)
    cache.insert(4u64, "d");

    assert!(cache.contains(&1));
    assert!(cache.contains(&2));
    assert!(!cache.contains(&3)); // Evicted
    assert!(cache.contains(&4));
}

#[test]
fn cache_stats() {
    let mut cache = LruCache::<u64, &str>::new(10);

    cache.insert(1, "a");
    let _ = cache.get(&1); // Hit
    let _ = cache.get(&2); // Miss
    let _ = cache.get(&1); // Hit
    let _ = cache.get(&3); // Miss

    let stats = cache.stats();
    assert_eq!(stats.hits, 2);
    assert_eq!(stats.misses, 2);
    assert_eq!(stats.hit_rate_percent, 50);
}

#[test]
fn cache_peek_does_not_update() {
    let mut cache = LruCache::new(10);
    cache.insert(1u64, "value");

    let initial_stats = cache.stats();

    // Peek should not affect stats
    let _ = cache.peek(&1);
    let _ = cache.peek(&2);

    let after_stats = cache.stats();
    assert_eq!(initial_stats.hits, after_stats.hits);
    assert_eq!(initial_stats.misses, after_stats.misses);
}

#[test]
fn cache_remove() {
    let mut cache = LruCache::new(10);
    cache.insert(1u64, "value");

    assert!(cache.contains(&1));
    let removed = cache.remove(&1);
    assert_eq!(removed, Some("value"));
    assert!(!cache.contains(&1));
}

#[test]
fn cache_clear() {
    let mut cache = LruCache::new(10);
    cache.insert(1u64, "a");
    cache.insert(2u64, "b");

    cache.clear();
    assert!(cache.is_empty());
    assert_eq!(cache.len(), 0);
}

#[test]
fn node_cache_creation() {
    let mut cache: NodeCache<String> = node_cache();
    cache.insert(NodeId(1), "test".to_string());
    assert_eq!(cache.get(&NodeId(1)), Some("test".to_string()));
}

#[test]
fn traversal_cache_key_ordering() {
    let key1 = TraversalCacheKey::new(NodeId(1), 5);
    let key2 = TraversalCacheKey::new(NodeId(2), 5);
    let key3 = TraversalCacheKey::new(NodeId(1), 10);

    // Ordering is deterministic
    assert!(key1 < key2);
    assert!(key1 < key3);
}

#[test]
fn cache_update_existing() {
    let mut cache = LruCache::new(10);
    cache.insert(1u64, "old");
    cache.insert(1u64, "new");

    assert_eq!(cache.get(&1), Some("new"));
    assert_eq!(cache.len(), 1);
}

#[test]
fn deterministic_iteration() {
    let mut cache = LruCache::new(10);

    // Insert in arbitrary order
    cache.insert(5u64, "e");
    cache.insert(1u64, "a");
    cache.insert(3u64, "c");

    // Keys come back in sorted order
    let keys: Vec<u64> = cache.keys();
    assert_eq!(keys, vec![1, 3, 5]);
}

#[test]
fn eviction_batch_removes_oldest_first() {
    let mut cache = LruCache::new(4).with_eviction_batch(2);

    cache.insert(10u64, "a"); // clock 1
    cache.insert(20u64, "b"); // clock 2
    cache.insert(30u64, "c"); // clock 3
    cache.insert(40u64, "d"); // clock 4
    let _ = cache.get(&10); // clock 5: 10 is now freshest

    // Full cache + fresh key: evicts the two least recent (20, 30).
    cache.insert(50u64, "e");

    assert!(cache.contains(&10));
    assert!(!cache.contains(&20));
    assert!(!cache.contains(&30));
    assert!(cache.contains(&40));
    assert!(cache.contains(&50));
    assert_eq!(cache.len(), 3);
}

#[test]
fn eviction_ties_break_in_key_order() {
    // Capacity one, batch one; the single entry with the older timestamp
    // goes first, and among equal timestamps the least key would go.
    let mut cache = LruCache::new(2).with_eviction_batch(1);
    cache.insert(7u64, "x"); // clock 1
    cache.insert(3u64, "y"); // clock 2
    cache.insert(9u64, "z"); // evicts 7 (oldest access)

    assert!(!cache.contains(&7));
    assert!(cache.contains(&3));
    assert!(cache.contains(&9));
}

#[test]
fn hit_rate_zero_before_any_access() {
    let cache = LruCache::<u64, &str>::new(10);
    assert_eq!(cache.hit_rate_percent(), 0);
    assert_eq!(cache.stats().hit_rate_percent, 0);
}

#[test]
fn clear_keeps_statistics() {
    let mut cache = LruCache::new(10);
    cache.insert(1u64, "a");
    let _ = cache.get(&1);
    let _ = cache.get(&2);

    cache.clear();

    let stats = cache.stats();
    assert_eq!(stats.hits, 1);
    assert_eq!(stats.misses, 1);
    assert_eq!(stats.size, 0);
}

#[test]
fn capacity_clamps_to_one() {
    let mut cache = LruCache::new(0);
    cache.insert(1u64, "a");
    cache.insert(2u64, "b");
    assert_eq!(cache.len(), 1);
    assert!(cache.contains(&2));
}

#[test]
fn traversal_cache_stores_artifacts() {
    let mut cache: TraversalCache = traversal_cache();
    let key = TraversalCacheKey::with_filter(NodeId(1), 3, 5);
    let artifact = Artifact::with_path(vec![NodeId(1), NodeId(2)]);
    cache.insert(key.clone(), artifact.clone());
    assert_eq!(cache.get(&key), Some(artifact));
}
