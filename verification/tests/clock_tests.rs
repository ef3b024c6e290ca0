use libcachesim::{Cache, CacheResult, CacheStats, ClockCache, InsertResult, Request};

fn hit_ratio(stats: &CacheStats) -> f64 {
    if stats.n_req() == 0 {
        0.0
    } else {
        stats.n_hit() as f64 / stats.n_req() as f64
    }
}

#[test]
fn clock_test_clock_basic() {
    let mut cache = ClockCache::new(300);

    let req1 = Request::new(1, 100);
    let req2 = Request::new(2, 100);
    let req3 = Request::new(3, 100);

    // First access - miss
    assert_eq!(cache.get(&req1), CacheResult::Miss);
    assert_eq!(cache.len(), 1);

    // Second access - hit
    assert_eq!(cache.get(&req1), CacheResult::Hit { obj_size: 100 });
    assert_eq!(cache.len(), 1);

    // Add more objects
    assert_eq!(cache.get(&req2), CacheResult::Miss);
    assert_eq!(cache.get(&req3), CacheResult::Miss);
    assert_eq!(cache.len(), 3);
}

#[test]
fn clock_test_clock_eviction() {
    let mut cache = ClockCache::new(200);

    let req1 = Request::new(1, 100);
    let req2 = Request::new(2, 100);
    let req3 = Request::new(3, 100);

    // Fill cache
    cache.get(&req1);
    cache.get(&req2);
    assert_eq!(cache.len(), 2);
    assert_eq!(cache.size(), 200);

    // This should trigger eviction
    cache.get(&req3);

    // After adding req3, cache should still be within capacity
    assert!(cache.size() <= cache.capacity());
    assert!(cache.len() <= 2);

    // Verify statistics
    assert_eq!(cache.stats().n_req(), 3);
    assert_eq!(cache.stats().n_evict(), 1);
}

#[test]
fn test_clock_stats() {
    let mut cache = ClockCache::new(200);

    let req1 = Request::new(1, 100);
    let req2 = Request::new(2, 100);

    cache.get(&req1); // miss
    cache.get(&req1); // hit
    cache.get(&req2); // miss
    cache.get(&req2); // hit

    let stats = cache.stats();
    assert_eq!(stats.n_req(), 4);
    assert_eq!(stats.n_hit(), 2);
    assert_eq!(stats.n_miss(), 2);
    assert_eq!(hit_ratio(stats), 0.5);
}

#[test]
fn clock_second_chance_and_reject() {
    let mut cache = ClockCache::new(200);
    cache.get(&Request::new(1, 100));
    cache.get(&Request::new(2, 100));
    // both were inserted referenced: the sweep clears 1 and 2, then evicts 1
    assert_eq!(cache.insert(&Request::new(3, 100)), InsertResult::Evicted { evicted_id: 1 });
    assert_eq!(cache.get(&Request::new(2, 100)), CacheResult::Hit { obj_size: 100 });
    assert_eq!(cache.get(&Request::new(1, 100)), CacheResult::Miss);
    // an object larger than the cache empties it and is refused
    assert_eq!(cache.insert(&Request::new(9, 500)), InsertResult::Rejected);
    assert_eq!(cache.len(), 0);
    assert_eq!(cache.size(), 0);
    assert!(cache.is_empty());
}

#[test]
fn clock_remove_evict_clear() {
    let mut cache = ClockCache::new(1000);
    for i in 1..=4 {
        cache.insert(&Request::new(i, 10));
    }
    assert!(cache.remove(2));
    assert!(!cache.remove(2));
    assert_eq!(cache.size(), 30);
    assert_eq!(cache.evict(), Some(1));
    assert_eq!(cache.len(), 2);
    cache.clear();
    assert_eq!(cache.evict(), None);
    assert_eq!(cache.size(), 0);
    cache.reset_stats();
    assert_eq!(cache.stats().n_evict(), 0);
}
