use std::sync::Arc;

use rge_core::tess_cache::{CacheKey, TessellationCache};

fn key(byte: u8, tolerance: u64) -> CacheKey {
    CacheKey { structural_hash: [byte; 32], tolerance }
}

#[test]
fn empty_cache_returns_none() {
    let cache: TessellationCache<String> = TessellationCache::new();
    assert!(cache.get(&key(0, 1_000_000)).is_none());
    assert_eq!(cache.hits(), 0);
    assert_eq!(cache.misses(), 0);
    assert_eq!(cache.len(), 0);
}

#[test]
fn insert_and_get_round_trip() {
    let mut cache = TessellationCache::new();
    let arc_in = cache.insert(key(1, 1_000_000), "mesh-a".to_string());
    let arc_out = cache.get(&key(1, 1_000_000)).expect("inserted");
    assert!(Arc::ptr_eq(&arc_in, &arc_out));
    assert_eq!(*arc_out, "mesh-a");
    assert!(cache.get(&key(1, 2_000_000)).is_none());
    assert!(cache.get(&key(2, 1_000_000)).is_none());
}

#[test]
fn hit_miss_tracking_accurate() {
    let mut cache: TessellationCache<u32> = TessellationCache::new();
    cache.record_miss();
    cache.record_hit();
    cache.record_hit();
    assert_eq!(cache.hits(), 2);
    assert_eq!(cache.misses(), 1);
    assert_eq!(cache.lookups(), 3);
}

#[test]
fn lookups_do_not_overflow() {
    let mut cache: TessellationCache<u32> = TessellationCache::new();
    cache.record_hit();
    assert_eq!(cache.lookups(), 1);
    assert_eq!(TessellationCache::<u32>::new().lookups(), 0);
}

#[test]
fn insert_replaces_under_same_key() {
    let mut cache = TessellationCache::new();
    cache.insert(key(3, 5), 1u32);
    cache.insert(key(3, 5), 2u32);
    cache.insert(key(4, 5), 3u32);
    assert_eq!(cache.get(&key(3, 5)).map(|a| *a), Some(2));
    assert_eq!(cache.get(&key(4, 5)).map(|a| *a), Some(3));
    assert_eq!(cache.len(), 2);
}

#[test]
fn clear_drops_entries_and_counters() {
    let mut cache = TessellationCache::new();
    cache.insert(key(3, 5), 1u32);
    cache.record_hit();
    cache.record_miss();
    cache.clear();
    assert_eq!(cache.len(), 0);
    assert_eq!(cache.hits(), 0);
    assert_eq!(cache.misses(), 0);
    assert!(cache.get(&key(3, 5)).is_none());
}
