use lru_cache::cache::Cache;
use std::collections::hash_map::DefaultHasher;
use std::hash::Hasher;

fn no_derive(_key: &u32) -> Option<u32> {
    None
}

fn drain(cache: &mut Cache<u32, u32, fn(&u32) -> Option<u32>>) -> Vec<(u32, u32)> {
    let mut out = Vec::new();
    while let Some(entry) = cache.pop() {
        out.push(entry);
    }
    out
}

fn plain(capacity: usize) -> Cache<u32, u32, fn(&u32) -> Option<u32>> {
    Cache::new(capacity, no_derive as fn(&u32) -> Option<u32>)
}

#[test]
fn test_push_cache_full() {
    let mut list = plain(3);

    list.put(10, 1);
    list.put(20, 2);
    list.put(30, 3);
    list.put(40, 4);

    assert_eq!(list.pop(), Some((20, 2)));
    assert_eq!(list.pop(), Some((30, 3)));
    assert_eq!(list.pop(), Some((40, 4)));
}

#[test]
fn test_hash_not_equal() {
    let mut hasher = DefaultHasher::new();
    hasher.write_u64(1);
    let hashed_key = hasher.finish();

    hasher.write_u64(2);
    let hashed_key2 = hasher.finish();

    assert_ne!(hashed_key, hashed_key2);
}

#[test]
fn test_search_not_equal_key() {
    let mut cache = plain(20);

    cache.put(10, 1);
    cache.put(20, 2);
    cache.put(30, 3);

    assert_ne!(cache.search(10), None);
}

#[test]
fn test_cut_first_elem() {
    let mut cache = plain(20);

    cache.put(10, 1);
    cache.put(20, 2);
    cache.put(30, 3);

    cache.cut(10);

    assert_eq!(cache.pop(), Some((20, 2)));
    assert_eq!(cache.pop(), Some((30, 3)));
    assert_eq!(cache.pop(), Some((10, 1)));
}

#[test]
fn test_cut_last_elem() {
    let mut cache = plain(20);

    cache.put(10, 1);
    cache.put(20, 2);
    cache.put(30, 3);

    cache.cut(30);

    assert_eq!(cache.pop(), Some((10, 1)));
    assert_eq!(cache.pop(), Some((20, 2)));
    assert_eq!(cache.pop(), Some((30, 3)));
}

#[test]
fn test_cut() {
    let mut cache = plain(20);

    cache.put(10, 1);
    cache.put(20, 2);
    cache.put(30, 3);

    cache.cut(20);

    assert_eq!(cache.pop(), Some((10, 1)));
    assert_eq!(cache.pop(), Some((30, 3)));
    assert_eq!(cache.pop(), Some((20, 2)));
}

#[test]
fn test_search_lru() {
    let mut cache = plain(20);

    cache.put(10, 1);
    cache.put(20, 2);
    cache.put(30, 3);

    cache.search_lru(20);

    assert_eq!(cache.pop(), Some((10, 1)));
    assert_eq!(cache.pop(), Some((30, 3)));
    assert_eq!(cache.pop(), Some((20, 2)));
}

#[test]
fn size_stays_within_capacity() {
    let mut cache = plain(3);
    for k in 0..10u32 {
        cache.put(k, k + 100);
        assert!(cache.len() <= 3);
        cache.search_lru(k / 2);
        assert!(cache.len() <= 3);
        assert!(cache.verify());
    }
}

#[test]
fn drain_follows_insertion_order() {
    let mut cache = plain(5);
    cache.put(7, 70);
    cache.put(3, 30);
    cache.put(9, 90);
    assert_eq!(drain(&mut cache), vec![(7, 70), (3, 30), (9, 90)]);
    assert_eq!(cache.len(), 0);
    assert_eq!(cache.pop(), None);
}

#[test]
fn hit_moves_entry_to_back() {
    let mut cache = plain(3);
    cache.put(10, 1);
    cache.put(20, 2);
    cache.put(30, 3);
    assert_eq!(cache.search_lru(10), Some(1));
    assert_eq!(drain(&mut cache), vec![(20, 2), (30, 3), (10, 1)]);
}

#[test]
fn overflow_evicts_oldest() {
    let mut cache = plain(3);
    cache.put(10, 1);
    cache.put(20, 2);
    cache.put(30, 3);
    cache.put(40, 4);
    assert_eq!(cache.search(10), None);
    assert_eq!(drain(&mut cache), vec![(20, 2), (30, 3), (40, 4)]);
}

#[test]
fn touching_most_recent_keeps_order() {
    let mut cache = plain(4);
    cache.put(1, 11);
    cache.put(2, 22);
    cache.put(3, 33);
    assert_eq!(cache.search_lru(3), Some(33));
    cache.cut(3);
    assert_eq!(drain(&mut cache), vec![(1, 11), (2, 22), (3, 33)]);
}

#[test]
fn miss_is_derived_then_cached() {
    let calls = std::cell::Cell::new(0u32);
    let mut cache = Cache::new(4, |k: &u32| {
        calls.set(calls.get() + 1);
        if *k % 2 == 0 { Some(*k * 10) } else { None }
    });
    assert_eq!(cache.search_lru(6), Some(60));
    assert_eq!(calls.get(), 1);
    assert_eq!(cache.search_lru(6), Some(60));
    assert_eq!(calls.get(), 1);
    assert_eq!(cache.len(), 1);
}

#[test]
fn absent_derivation_leaves_cache_unchanged() {
    let mut cache = Cache::new(4, |k: &u32| if *k > 100 { Some(*k) } else { None });
    cache.put(1, 5);
    assert_eq!(cache.search_lru(7), None);
    assert_eq!(cache.len(), 1);
    assert_eq!(cache.search(7), None);
    assert_eq!(cache.search_lru(200), Some(200));
    assert_eq!(cache.len(), 2);
}

#[test]
fn zero_capacity_always_derives() {
    let calls = std::cell::Cell::new(0u32);
    let mut cache = Cache::new(0, |k: &u32| {
        calls.set(calls.get() + 1);
        Some(*k + 1)
    });
    assert_eq!(cache.search_lru(4), Some(5));
    assert_eq!(cache.search_lru(4), Some(5));
    assert_eq!(calls.get(), 2);
    assert_eq!(cache.len(), 0);
    assert_eq!(cache.put(4, 9), None);
    assert_eq!(cache.len(), 0);
    assert!(cache.verify());
}

#[test]
fn resize_keeps_most_recent() {
    let mut cache = plain(5);
    for k in 1..=5u32 {
        cache.put(k, k * 2);
    }
    cache.resize(2);
    assert_eq!(cache.capacity(), 2);
    assert_eq!(cache.len(), 2);
    assert!(cache.verify());
    assert_eq!(drain(&mut cache), vec![(4, 8), (5, 10)]);
}

#[test]
fn resize_grow_and_to_zero() {
    let mut cache = plain(2);
    cache.put(1, 1);
    cache.put(2, 2);
    cache.resize(4);
    assert_eq!(cache.len(), 2);
    cache.put(3, 3);
    assert_eq!(cache.len(), 3);
    cache.resize(0);
    assert_eq!(cache.len(), 0);
    assert_eq!(cache.pop(), None);
    assert!(cache.verify());
}

#[test]
fn put_then_get_round_trip() {
    let mut cache = plain(2);
    cache.put(1, 100);
    assert_eq!(cache.put(8, 800), None);
    assert_eq!(cache.search_lru(8), Some(800));
}

#[test]
fn put_replaces_and_returns_old_value() {
    let mut cache = plain(3);
    cache.put(1, 10);
    cache.put(2, 20);
    assert_eq!(cache.put(1, 11), Some(10));
    assert_eq!(cache.len(), 2);
    assert_eq!(drain(&mut cache), vec![(2, 20), (1, 11)]);
}

#[test]
fn slots_are_reused_after_eviction() {
    let mut cache = plain(2);
    for k in 0..50u32 {
        cache.put(k, k);
        assert!(cache.verify());
    }
    for k in 0..48u32 {
        assert_eq!(cache.search(k), None);
    }
    assert_eq!(drain(&mut cache), vec![(48, 48), (49, 49)]);
}
