use libcachesim::eviction::slru::Segment;
use libcachesim::{Cache, CacheResult, CacheStats, InsertResult, Request, SlruCache};

fn hit_ratio(stats: &CacheStats) -> f64 {
    if stats.n_req() == 0 {
        0.0
    } else {
        stats.n_hit() as f64 / stats.n_req() as f64
    }
}

/// An SLRU cache whose probation segment is a fraction of the capacity.
fn slru(capacity: u64, probation_ratio: f64) -> SlruCache {
    let probation_ratio = probation_ratio.clamp(0.0, 1.0);
    let probation_capacity = (capacity as f64 * probation_ratio) as u64;
    SlruCache::new(capacity, probation_capacity)
}

#[test]
fn test_slru_basic() {
    let mut cache = slru(300, 0.33); // ~100 probation, ~200 protected

    let req1 = Request::new(1, 100);
    let req2 = Request::new(2, 100);

    // First access - miss, goes to probation
    assert_eq!(cache.get(&req1), CacheResult::Miss);
    assert_eq!(cache.len(), 1);
    assert_eq!(cache.entry(1), Some((100, Segment::Probation)));

    // Second access - hit, promotes to protected
    assert_eq!(cache.get(&req1), CacheResult::Hit { obj_size: 100 });
    assert_eq!(cache.entry(1), Some((100, Segment::Protected)));

    // Add another object
    assert_eq!(cache.get(&req2), CacheResult::Miss);
    assert_eq!(cache.len(), 2);
}

#[test]
fn test_slru_promotion() {
    let mut cache = slru(300, 0.33);

    let req1 = Request::new(1, 100);

    // Insert and check it's in probation
    cache.get(&req1);
    assert_eq!(cache.entry(1), Some((100, Segment::Probation)));
    assert_eq!(cache.probation_used(), 100);
    assert_eq!(cache.protected_used(), 0);

    // Access again - should promote to protected
    cache.get(&req1);
    assert_eq!(cache.entry(1), Some((100, Segment::Protected)));
    assert_eq!(cache.probation_used(), 0);
    assert_eq!(cache.protected_used(), 100);
}

#[test]
fn test_slru_eviction() {
    let mut cache = slru(250, 0.4); // ~100 probation, ~150 protected

    let req1 = Request::new(1, 100);
    let req2 = Request::new(2, 100);
    let req3 = Request::new(3, 100);

    // Fill probation
    cache.get(&req1);
    assert_eq!(cache.len(), 1);

    // Promote req1 to protected
    cache.get(&req1);

    // Add req2 (goes to probation)
    cache.get(&req2);
    assert_eq!(cache.len(), 2);

    // Add req3 - should evict req2 from probation
    cache.get(&req3);
    assert!(cache.len() <= 2);

    // req1 should still be there (in protected)
    assert_eq!(cache.get(&req1), CacheResult::Hit { obj_size: 100 });
}

#[test]
fn test_slru_stats() {
    let mut cache = slru(200, 0.5);

    let req1 = Request::new(1, 100);
    let req2 = Request::new(2, 100);

    cache.get(&req1); // miss
    cache.get(&req1); // hit (promotion)
    cache.get(&req2); // miss
    cache.get(&req2); // hit (promotion)

    let stats = cache.stats();
    assert_eq!(stats.n_req(), 4);
    assert_eq!(stats.n_hit(), 2);
    assert_eq!(stats.n_miss(), 2);
    assert_eq!(hit_ratio(stats), 0.5);
}

#[test]
fn slru_demotes_protected_when_probation_is_empty() {
    let mut cache = SlruCache::new(200, 100);
    cache.get(&Request::new(1, 100));
    cache.get(&Request::new(1, 100)); // 1 protected
    cache.get(&Request::new(2, 100));
    cache.get(&Request::new(2, 100)); // 2 protected
    // probation is empty: the oldest protected (1) is demoted and evicted
    assert_eq!(cache.insert(&Request::new(3, 100)), InsertResult::Evicted { evicted_id: 1 });
    assert_eq!(cache.entry(3), Some((100, Segment::Probation)));
    assert_eq!(cache.entry(1), None);
    assert_eq!(cache.size(), 200);
    assert!(cache.remove(2));
    assert_eq!(cache.protected_used(), 0);
    assert_eq!(cache.insert(&Request::new(4, 500)), InsertResult::Rejected);
    cache.clear();
    assert!(cache.is_empty());
}
