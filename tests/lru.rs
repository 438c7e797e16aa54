use lru_cache::cache::LruCache;
use lru_cache::key::{key_to_hash, CacheKey};
use std::collections::hash_map::DefaultHasher;
use std::hash::Hasher;

#[test]
fn lru_cache_starts_empty() {
    let mut cache: LruCache<u64, i32> = LruCache::new(4);
    assert_eq!(cache.len(), 0);
    assert_eq!(cache.capacity(), 4);
    assert_eq!(cache.pop(), None);
    assert!(cache.verify());
}

#[test]
fn lru_cache_get_touches_and_search_does_not() {
    let mut cache: LruCache<u64, i32> = LruCache::new(3);
    cache.put(1, -1);
    cache.put(2, -2);
    cache.put(3, -3);
    assert_eq!(cache.search(&1), Some(-1));
    assert_eq!(cache.get(&2), Some(-2));
    assert_eq!(cache.get(&9), None);
    cache.put(4, -4);
    assert_eq!(cache.search(&1), None);
    assert_eq!(cache.pop(), Some((3, -3)));
    assert_eq!(cache.pop(), Some((2, -2)));
    assert_eq!(cache.pop(), Some((4, -4)));
    assert_eq!(cache.pop(), None);
}

#[test]
fn lru_cache_large_keys() {
    let mut cache: LruCache<u64, u64> = LruCache::new(3);
    cache.put(u64::MAX, 1);
    cache.put(0, 2);
    cache.put(u64::MAX - 1, 3);
    assert_eq!(cache.get(&u64::MAX), Some(1));
    assert_eq!(cache.put(0, 4), Some(2));
    assert!(cache.verify());
    assert_eq!(cache.pop(), Some((u64::MAX - 1, 3)));
    assert_eq!(cache.pop(), Some((u64::MAX, 1)));
    assert_eq!(cache.pop(), Some((0, 4)));
}

#[test]
fn lru_cache_resize_shrinks_from_front() {
    let mut cache: LruCache<u32, u8> = LruCache::new(4);
    for k in 0..4u32 {
        cache.put(k, k as u8);
    }
    cache.resize(1);
    assert_eq!(cache.len(), 1);
    assert_eq!(cache.pop(), Some((3, 3)));
}

#[test]
fn key_hash_is_default_hasher_over_le_bytes() {
    let mut hasher = DefaultHasher::new();
    hasher.write(&7u64.to_le_bytes());
    assert_eq!(key_to_hash(&7u64), hasher.finish());

    let mut hasher = DefaultHasher::new();
    hasher.write(&7u32.to_le_bytes());
    assert_eq!(key_to_hash(&7u32), hasher.finish());
    assert_ne!(key_to_hash(&1u64), key_to_hash(&2u64));
}

#[test]
fn key_bytes_and_equality() {
    assert_eq!(0x0102_0304u32.key_bytes(), vec![4, 3, 2, 1]);
    assert_eq!(1u64.key_bytes(), vec![1, 0, 0, 0, 0, 0, 0, 0]);
    assert!(5u32.same_key(&5));
    assert!(!5u64.same_key(&6));
}
