use libcachesim::{Cache, CacheResult, CacheStats, InsertResult, MruCache, Request};

fn hit_ratio(stats: &CacheStats) -> f64 {
    if stats.n_req() == 0 {
        0.0
    } else {
        stats.n_hit() as f64 / stats.n_req() as f64
    }
}

#[test]
fn test_mru_basic() {
    let mut cache = MruCache::new(300);

    let req1 = Request::new(1, 100);
    let req2 = Request::new(2, 100);

    // First access - miss
    assert_eq!(cache.get(&req1), CacheResult::Miss);
    assert_eq!(cache.len(), 1);

    // Second access - hit
    assert_eq!(cache.get(&req1), CacheResult::Hit { obj_size: 100 });
    assert_eq!(cache.len(), 1);

    // Add another object
    assert_eq!(cache.get(&req2), CacheResult::Miss);
    assert_eq!(cache.len(), 2);
}

#[test]
fn test_mru_eviction() {
    let mut cache = MruCache::new(200);

    let req1 = Request::new(1, 100);
    let req2 = Request::new(2, 100);
    let req3 = Request::new(3, 100);

    // Fill cache
    cache.get(&req1);
    cache.get(&req2);
    assert_eq!(cache.len(), 2);

    // Access req1 to make it most recent
    cache.get(&req1);

    // This should evict object 1 (most recently used)
    cache.get(&req3);
    assert!(cache.len() <= 2);

    // Objects 2 and 3 should still be there
    assert_eq!(cache.get(&req2), CacheResult::Hit { obj_size: 100 });
    assert_eq!(cache.get(&req3), CacheResult::Hit { obj_size: 100 });
}

#[test]
fn test_mru_stats() {
    let mut cache = MruCache::new(200);

    let req1 = Request::new(1, 100);
    let req2 = Request::new(2, 100);

    cache.get(&req1); // miss
    cache.get(&req1); // hit
    cache.get(&req2); // miss
    cache.get(&req2); // hit

    let stats = cache.stats();
    assert_eq!(stats.n_req(), 4);
    assert_eq!(stats.n_hit(), 2);
    assert_eq!(stats.n_miss(), 2);
    assert_eq!(hit_ratio(stats), 0.5);
}

#[test]
fn mru_evicts_most_recent_and_reports_it() {
    let mut cache = MruCache::new(200);
    cache.insert(&Request::new(1, 100));
    cache.insert(&Request::new(2, 100));
    assert_eq!(cache.insert(&Request::new(3, 100)), InsertResult::Evicted { evicted_id: 2 });
    assert_eq!(cache.get(&Request::new(1, 100)), CacheResult::Hit { obj_size: 100 });
    assert_eq!(cache.evict(), Some(1));
    assert!(cache.remove(3));
    assert!(cache.is_empty());
    assert_eq!(cache.insert(&Request::new(4, 300)), InsertResult::Rejected);
    assert_eq!(cache.size(), 0);
}
