use libcachesim::{Cache, CacheResult, CacheStats, InsertResult, RandomCache, Request};

fn hit_ratio(stats: &CacheStats) -> f64 {
    if stats.n_req() == 0 {
        0.0
    } else {
        stats.n_hit() as f64 / stats.n_req() as f64
    }
}

#[test]
fn test_random_basic() {
    let mut cache = RandomCache::new(300);

    let req1 = Request::new(1, 100);
    let req2 = Request::new(2, 100);

    // First access - miss
    assert_eq!(cache.get(&req1), CacheResult::Miss);
    assert_eq!(cache.len(), 1);

    // Second access - hit
    assert_eq!(cache.get(&req1), CacheResult::Hit { obj_size: 100 });
    assert_eq!(cache.len(), 1);

    // Add another object
    assert_eq!(cache.get(&req2), CacheResult::Miss);
    assert_eq!(cache.len(), 2);
}

#[test]
fn test_random_eviction() {
    let mut cache = RandomCache::new(200);

    let req1 = Request::new(1, 100);
    let req2 = Request::new(2, 100);
    let req3 = Request::new(3, 100);

    // Fill cache
    cache.get(&req1);
    cache.get(&req2);
    assert_eq!(cache.len(), 2);

    // This should evict a random object
    cache.get(&req3);
    assert!(cache.len() <= 2);
    assert!(cache.size() <= cache.capacity());

    // Verify stats
    assert_eq!(cache.stats().n_evict(), 1);
}

#[test]
fn test_random_stats() {
    let mut cache = RandomCache::new(200);

    let req1 = Request::new(1, 100);
    let req2 = Request::new(2, 100);

    cache.get(&req1); // miss
    cache.get(&req1); // hit
    cache.get(&req2); // miss
    cache.get(&req2); // hit

    let stats = cache.stats();
    assert_eq!(stats.n_req(), 4);
    assert_eq!(stats.n_hit(), 2);
    assert_eq!(stats.n_miss(), 2);
    assert_eq!(hit_ratio(stats), 0.5);
}

#[test]
fn random_evicts_one_of_the_held_objects() {
    let mut cache = RandomCache::new(200);
    cache.insert(&Request::new(1, 100));
    cache.insert(&Request::new(2, 100));
    match cache.insert(&Request::new(3, 100)) {
        InsertResult::Evicted { evicted_id } => {
            assert!(evicted_id == 1 || evicted_id == 2);
            assert_eq!(cache.get(&Request::new(3, 100)), CacheResult::Hit { obj_size: 100 });
            assert_eq!(cache.evict_key(3), Some(3));
            assert_eq!(cache.get(&Request::new(evicted_id, 100)), CacheResult::Miss);
        }
        other => panic!("expected an eviction, got {:?}", other),
    }
    assert!(cache.size() <= 200);
}
