use floodnet::dedup::{DedupCache, MAX_CACHE_CAPACITY, SEEN_CACHE_CAPACITY};

#[test]
fn a_new_cache_holds_nothing() {
    let cache = DedupCache::new();
    assert!(!cache.contains(7));
}

#[test]
fn an_inserted_identifier_is_held() {
    let mut cache = DedupCache::new();
    cache.insert(7);
    assert!(cache.contains(7));
    assert!(!cache.contains(8));
}

#[test]
fn the_default_capacity_is_128() {
    assert_eq!(SEEN_CACHE_CAPACITY, 128);
    let mut cache = DedupCache::new();
    for id in 0..128u128 {
        cache.insert(id);
    }
    for id in 0..128u128 {
        assert!(cache.contains(id));
    }
    cache.insert(128);
    assert!(!cache.contains(0));
    for id in 1..=128u128 {
        assert!(cache.contains(id));
    }
}

#[test]
fn one_more_than_the_capacity_evicts_the_least_recently_used() {
    let mut cache = DedupCache::with_capacity(3).unwrap();
    cache.insert(10);
    cache.insert(20);
    cache.insert(30);
    assert!(cache.contains(10) && cache.contains(20) && cache.contains(30));
    cache.insert(40);
    assert!(!cache.contains(10));
    assert!(cache.contains(20));
    assert!(cache.contains(30));
    assert!(cache.contains(40));
}

#[test]
fn an_evicted_identifier_is_new_again() {
    let mut cache = DedupCache::with_capacity(2).unwrap();
    cache.insert(1);
    cache.insert(2);
    cache.insert(3);
    assert!(!cache.contains(1));
    cache.insert(1);
    assert!(cache.contains(1));
    assert!(!cache.contains(2));
    assert!(cache.contains(3));
}

#[test]
fn putting_a_known_identifier_again_makes_it_the_most_recent() {
    let mut cache = DedupCache::with_capacity(2).unwrap();
    cache.insert(1);
    cache.insert(2);
    cache.insert(1);
    cache.insert(3);
    assert!(cache.contains(1));
    assert!(!cache.contains(2));
    assert!(cache.contains(3));
}

#[test]
fn asking_does_not_count_as_a_use() {
    let mut cache = DedupCache::with_capacity(2).unwrap();
    cache.insert(1);
    cache.insert(2);
    assert!(cache.contains(1));
    cache.insert(3);
    assert!(!cache.contains(1));
    assert!(cache.contains(2));
}

#[test]
fn a_cache_of_one_holds_the_last_identifier() {
    let mut cache = DedupCache::with_capacity(1).unwrap();
    cache.insert(1);
    cache.insert(2);
    assert!(!cache.contains(1));
    assert!(cache.contains(2));
}

#[test]
fn a_capacity_of_zero_or_above_the_maximum_is_refused() {
    assert!(DedupCache::with_capacity(0).is_none());
    assert!(DedupCache::with_capacity(1).is_some());
    assert!(DedupCache::with_capacity(MAX_CACHE_CAPACITY).is_some());
    assert!(DedupCache::with_capacity(MAX_CACHE_CAPACITY + 1).is_none());
}
