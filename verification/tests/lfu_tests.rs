use libcachesim::{Cache, CacheResult, CacheStats, InsertResult, LfuCache, LfudaCache, Request};

fn hit_ratio(stats: &CacheStats) -> f64 {
    if stats.n_req() == 0 {
        0.0
    } else {
        stats.n_hit() as f64 / stats.n_req() as f64
    }
}

#[test]
fn test_lfu_basic() {
    let mut cache = LfuCache::new(300);

    let req1 = Request::new(1, 100);
    let req2 = Request::new(2, 100);

    // First access - miss
    assert_eq!(cache.get(&req1), CacheResult::Miss);
    assert_eq!(cache.len(), 1);
    assert_eq!(cache.frequency(1).unwrap(), 1);

    // Second access - hit, frequency increases
    assert_eq!(cache.get(&req1), CacheResult::Hit { obj_size: 100 });
    assert_eq!(cache.frequency(1).unwrap(), 2);

    // Add another object
    assert_eq!(cache.get(&req2), CacheResult::Miss);
    assert_eq!(cache.len(), 2);
}

#[test]
fn test_lfu_eviction_by_frequency() {
    let mut cache = LfuCache::new(200);

    let req1 = Request::new(1, 100);
    let req2 = Request::new(2, 100);
    let req3 = Request::new(3, 100);

    // Insert req1 and access it multiple times (high frequency)
    cache.get(&req1); // freq=1
    cache.get(&req1); // freq=2
    cache.get(&req1); // freq=3

    // Insert req2 (low frequency)
    cache.get(&req2); // freq=1

    assert_eq!(cache.len(), 2);

    // Insert req3 - should evict req2 (lowest frequency)
    cache.get(&req3);
    assert!(cache.len() <= 2);

    // req1 should still be there (high frequency)
    assert_eq!(cache.get(&req1), CacheResult::Hit { obj_size: 100 });
}

#[test]
fn test_lfu_stats() {
    let mut cache = LfuCache::new(200);

    let req1 = Request::new(1, 100);
    let req2 = Request::new(2, 100);

    cache.get(&req1); // miss
    cache.get(&req1); // hit
    cache.get(&req2); // miss
    cache.get(&req2); // hit

    let stats = cache.stats();
    assert_eq!(stats.n_req(), 4);
    assert_eq!(stats.n_hit(), 2);
    assert_eq!(stats.n_miss(), 2);
    assert_eq!(hit_ratio(stats), 0.5);
}

#[test]
fn lfu_ties_go_to_the_older_access() {
    let mut cache = LfuCache::new(200);
    cache.insert(&Request::new(1, 100));
    cache.insert(&Request::new(2, 100));
    // both were accessed once; 1 was accessed earlier
    assert_eq!(cache.insert(&Request::new(3, 100)), InsertResult::Evicted { evicted_id: 1 });
    assert_eq!(cache.frequency(1), None);
    assert_eq!(cache.frequency(2), Some(1));
    assert_eq!(cache.insert(&Request::new(4, 300)), InsertResult::Rejected);
    assert!(cache.remove(2));
    assert_eq!(cache.size(), 100);
}

#[test]
fn test_lfuda_basic() {
    let mut cache = LfudaCache::new(300);

    let req1 = Request::new(1, 100);
    let req2 = Request::new(2, 100);

    // First access - miss
    assert_eq!(cache.get(&req1), CacheResult::Miss);
    assert_eq!(cache.len(), 1);

    // Check initial frequency includes age
    assert!(cache.frequency(1).unwrap() >= 1);

    // Second access - hit, frequency increases
    let initial_freq = cache.frequency(1).unwrap();
    assert_eq!(cache.get(&req1), CacheResult::Hit { obj_size: 100 });
    assert_eq!(cache.frequency(1).unwrap(), initial_freq + 1);

    // Add another object
    assert_eq!(cache.get(&req2), CacheResult::Miss);
    assert_eq!(cache.len(), 2);
}

#[test]
fn test_lfuda_aging() {
    let mut cache = LfudaCache::new(200);

    let req1 = Request::new(1, 100);
    let req2 = Request::new(2, 100);
    let req3 = Request::new(3, 100);

    // Insert req1 and access it multiple times
    cache.get(&req1);
    cache.get(&req1);
    cache.get(&req1);

    // Insert req2
    cache.get(&req2);

    let initial_age = cache.age();

    // Insert req3 - will cause eviction
    cache.get(&req3);

    // Age should have increased after eviction
    assert!(cache.age() >= initial_age);
}

#[test]
fn test_lfuda_eviction() {
    let mut cache = LfudaCache::new(200);

    let req1 = Request::new(1, 100);
    let req2 = Request::new(2, 100);
    let req3 = Request::new(3, 100);

    // Insert and access req1 multiple times (higher frequency)
    cache.get(&req1);
    cache.get(&req1);
    cache.get(&req1);

    // Insert req2 (lower frequency)
    cache.get(&req2);

    assert_eq!(cache.len(), 2);

    // Insert req3 - should trigger eviction
    cache.get(&req3);
    assert!(cache.len() <= 2);

    // Verify statistics
    assert!(cache.stats().n_evict() > 0);
}

#[test]
fn test_lfuda_stats() {
    let mut cache = LfudaCache::new(200);

    let req1 = Request::new(1, 100);
    let req2 = Request::new(2, 100);

    cache.get(&req1); // miss
    cache.get(&req1); // hit
    cache.get(&req2); // miss
    cache.get(&req2); // hit

    let stats = cache.stats();
    assert_eq!(stats.n_req(), 4);
    assert_eq!(stats.n_hit(), 2);
    assert_eq!(stats.n_miss(), 2);
    assert_eq!(hit_ratio(stats), 0.5);
}

#[test]
fn lfuda_age_rises_to_the_evicted_key() {
    let mut cache = LfudaCache::new(200);
    cache.get(&Request::new(1, 100)); // key 1
    cache.get(&Request::new(1, 100)); // key 2
    cache.get(&Request::new(1, 100)); // key 3
    cache.get(&Request::new(2, 100)); // key 1
    cache.get(&Request::new(3, 100)); // evicts 2 (key 1): age 1, 3 starts at key 2
    assert_eq!(cache.age(), 1);
    assert_eq!(cache.frequency(2), None);
    assert_eq!(cache.frequency(3), Some(2));
    assert_eq!(cache.frequency(1), Some(3));
    cache.clear();
    assert_eq!(cache.age(), 0);
    assert_eq!(cache.len(), 0);
}

#[test]
fn lfuda_evicts_only_until_the_object_fits() {
    let mut cache = LfudaCache::new(300);
    for id in 1..=3u64 {
        cache.insert(&Request::new(id, 100));
    }
    match cache.insert(&Request::new(4, 100)) {
        InsertResult::Evicted { .. } => {}
        other => panic!("expected one eviction, got {:?}", other),
    }
    assert_eq!(cache.len(), 3);
    assert_eq!(cache.stats().n_evict(), 1);
}
