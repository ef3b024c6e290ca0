use libcachesim::{CacheError, CacheResult, CarCache, InsertResult, Request};

#[test]
fn test_car_basic() {
    let mut cache = CarCache::new(300);

    let req1 = Request::new(1, 100);
    let req2 = Request::new(2, 100);
    let req3 = Request::new(3, 100);

    assert!(cache.insert(&req1).is_ok());
    assert!(cache.insert(&req2).is_ok());
    assert!(cache.insert(&req3).is_ok());

    assert_eq!(cache.len(), 3);
}

#[test]
fn test_car_clock_eviction() {
    let mut cache = CarCache::new(200);

    let req1 = Request::new(1, 100);
    let req2 = Request::new(2, 100);
    let req3 = Request::new(3, 100);

    cache.insert(&req1).unwrap();
    cache.insert(&req2).unwrap();

    // Access req1 to set reference bit
    cache.get(&req1).unwrap();

    // Insert req3 should evict req2 (no reference bit)
    cache.insert(&req3).unwrap();

    assert_eq!(cache.len(), 2);
    assert_eq!(cache.stats().n_evict(), 1);
}

#[test]
fn car_rejects_object_larger_than_capacity() {
    let mut cache = CarCache::new(100);
    let r = cache.insert(&Request::new(7, 101));
    assert_eq!(r, Err(CacheError::ObjectTooLarge { size: 101, capacity: 100 }));
    assert_eq!(cache.len(), 0);
    assert_eq!(cache.size(), 0);
}

#[test]
fn car_hit_reports_size_and_counts() {
    let mut cache = CarCache::new(300);
    assert_eq!(cache.get(&Request::new(5, 40)), Ok(CacheResult::Miss));
    assert_eq!(cache.insert(&Request::new(5, 40)), Ok(InsertResult::Inserted));
    assert_eq!(cache.get(&Request::new(5, 40)), Ok(CacheResult::Hit { obj_size: 40 }));
    assert_eq!(cache.stats().n_req(), 2);
    assert_eq!(cache.stats().n_hit(), 1);
    assert_eq!(cache.stats().n_miss(), 1);
    assert_eq!(cache.size(), 40);
}

#[test]
fn car_evicted_object_misses_and_survivor_hits() {
    let mut cache = CarCache::new(200);
    cache.insert(&Request::new(1, 100)).unwrap();
    cache.insert(&Request::new(2, 100)).unwrap();
    cache.get(&Request::new(1, 100)).unwrap();
    cache.insert(&Request::new(3, 100)).unwrap();
    assert_eq!(cache.get(&Request::new(2, 100)), Ok(CacheResult::Miss));
    assert_eq!(cache.get(&Request::new(1, 100)), Ok(CacheResult::Hit { obj_size: 100 }));
    assert_eq!(cache.get(&Request::new(3, 100)), Ok(CacheResult::Hit { obj_size: 100 }));
    assert_eq!(cache.size(), 200);
}

#[test]
fn car_ghost_reinsert_and_remove() {
    let mut cache = CarCache::new(200);
    cache.insert(&Request::new(1, 100)).unwrap();
    cache.insert(&Request::new(2, 100)).unwrap();
    cache.get(&Request::new(1, 100)).unwrap();
    // 2 is evicted into the ghost list B1
    cache.insert(&Request::new(3, 100)).unwrap();
    // a miss on the ghost adapts p; re-inserting it evicts once more
    assert_eq!(cache.get(&Request::new(2, 100)), Ok(CacheResult::Miss));
    cache.insert(&Request::new(2, 100)).unwrap();
    assert_eq!(cache.len(), 2);
    assert_eq!(cache.stats().n_evict(), 2);
    assert_eq!(cache.get(&Request::new(2, 100)), Ok(CacheResult::Hit { obj_size: 100 }));
    assert_eq!(cache.remove(2), Ok(true));
    assert_eq!(cache.remove(2), Ok(false));
    assert_eq!(cache.len(), 1);
    assert_eq!(cache.size(), 100);
    cache.clear();
    assert!(cache.is_empty());
    assert_eq!(cache.stats().n_req(), 0);
}

#[test]
fn car_reinsert_and_full_cache_return() {
    let mut cache = CarCache::new(200);
    cache.insert(&Request::new(1, 100)).unwrap();
    assert_eq!(cache.insert(&Request::new(1, 100)), Ok(InsertResult::Inserted));
    assert_eq!(cache.len(), 1);
    assert_eq!(cache.size(), 100);
    // Keep inserting past the capacity: every insert returns and the bytes fit.
    for i in 2..=20u64 {
        cache.insert(&Request::new(i, 100)).unwrap();
        assert!(cache.size() <= 200);
    }
}
