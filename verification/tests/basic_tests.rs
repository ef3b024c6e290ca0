use libcachesim::basic::{simulate_cache, Cache, CacheStats, ClockCache, FifoCache, LruCache, Request};

/// Fraction of requests that missed (0 when there were none).
fn miss_ratio(stats: &CacheStats) -> f64 {
    if stats.n_req == 0 {
        0.0
    } else {
        stats.n_miss as f64 / stats.n_req as f64
    }
}

/// Fraction of requests that hit.
fn hit_ratio(stats: &CacheStats) -> f64 {
    1.0 - miss_ratio(stats)
}

#[test]
fn test_fifo_basic() {
    let mut cache = FifoCache::new(100);

    let req1 = Request::new(1, 10);
    let req2 = Request::new(2, 20);
    let req3 = Request::new(3, 30);

    // First access - cache miss
    assert_eq!(cache.get(&req1), false);
    assert_eq!(cache.get_n_obj(), 1);
    assert_eq!(cache.get_occupied_byte(), 10);

    // Second access - cache miss
    assert_eq!(cache.get(&req2), false);
    assert_eq!(cache.get_n_obj(), 2);
    assert_eq!(cache.get_occupied_byte(), 30);

    // Access req1 again - cache hit
    assert_eq!(cache.get(&req1), true);
    assert_eq!(cache.get_n_obj(), 2);

    // Third access - cache miss
    assert_eq!(cache.get(&req3), false);
    assert_eq!(cache.get_n_obj(), 3);
    assert_eq!(cache.get_occupied_byte(), 60);
}

#[test]
fn test_fifo_eviction() {
    let mut cache = FifoCache::new(50);

    let req1 = Request::new(1, 20);
    let req2 = Request::new(2, 20);
    let req3 = Request::new(3, 20);

    cache.get(&req1); // 20 bytes
    cache.get(&req2); // 40 bytes

    // This should evict req1 (first in, first out)
    cache.get(&req3); // Need 20 more bytes, evict req1

    assert_eq!(cache.get_n_obj(), 2);
    // Check that req2 and req3 are in cache, req1 is not
    assert!(cache.contains(2));
    assert!(cache.contains(3));
    assert!(!cache.contains(1)); // req1 was evicted
}

#[test]
fn test_lru_basic() {
    let mut cache = LruCache::new(100);

    let req1 = Request::new(1, 10);
    let req2 = Request::new(2, 20);

    // First access - cache miss
    assert_eq!(cache.get(&req1), false);
    assert_eq!(cache.get_n_obj(), 1);

    // Second access - cache miss
    assert_eq!(cache.get(&req2), false);
    assert_eq!(cache.get_n_obj(), 2);

    // Access req1 again - cache hit
    assert_eq!(cache.get(&req1), true);
    assert_eq!(cache.get_n_obj(), 2);
}

#[test]
fn test_lru_eviction() {
    let mut cache = LruCache::new(50);

    let req1 = Request::new(1, 20);
    let req2 = Request::new(2, 20);
    let req3 = Request::new(3, 20);

    cache.get(&req1); // 20 bytes
    cache.get(&req2); // 40 bytes
    cache.get(&req1); // Access req1 again (make it most recently used)

    // This should evict req2 (least recently used)
    cache.get(&req3); // Need 20 more bytes, evict req2

    assert_eq!(cache.get_n_obj(), 2);
    // Check that req1 and req3 are in cache, req2 is not
    assert!(cache.contains(1)); // req1 still in cache (was accessed recently)
    assert!(!cache.contains(2)); // req2 was evicted
    assert!(cache.contains(3)); // req3 still in cache
}

#[test]
fn test_remove() {
    let mut cache = FifoCache::new(100);

    let req1 = Request::new(1, 10);
    let req2 = Request::new(2, 20);

    cache.get(&req1);
    cache.get(&req2);

    assert_eq!(cache.get_n_obj(), 2);
    assert!(cache.remove(1));
    assert_eq!(cache.get_n_obj(), 1);
    assert_eq!(cache.get_occupied_byte(), 20);

    // Try to remove non-existent object
    assert!(!cache.remove(999));
}

#[test]
fn test_cache_stats() {
    let mut cache = FifoCache::new(100);

    let req1 = Request::new(1, 10);
    let req2 = Request::new(2, 20);

    cache.get(&req1); // miss
    cache.get(&req1); // hit
    cache.get(&req2); // miss
    cache.get(&req1); // hit

    let stats = cache.get_stats();
    assert_eq!(stats.n_req, 4);
    assert_eq!(stats.n_hit, 2);
    assert_eq!(stats.n_miss, 2);
    assert_eq!(miss_ratio(stats), 0.5);
    assert_eq!(hit_ratio(stats), 0.5);
}

#[test]
fn lib_test_clock_basic() {
    let mut cache = ClockCache::new(100);

    let req1 = Request::new(1, 10);
    let req2 = Request::new(2, 20);

    // First access - cache miss
    assert_eq!(cache.get(&req1), false);
    assert_eq!(cache.get_n_obj(), 1);

    // Second access - cache miss
    assert_eq!(cache.get(&req2), false);
    assert_eq!(cache.get_n_obj(), 2);

    // Access req1 again - cache hit (sets reference bit)
    assert_eq!(cache.get(&req1), true);
    assert_eq!(cache.get_n_obj(), 2);
}

#[test]
fn lib_test_clock_eviction() {
    let mut cache = ClockCache::new(50);

    let req1 = Request::new(1, 20);
    let req2 = Request::new(2, 20);
    let req3 = Request::new(3, 20);

    cache.get(&req1); // 20 bytes, ref bit = 0
    cache.get(&req2); // 40 bytes, ref bit = 0
    cache.get(&req1); // Access req1 again, ref bit = 1

    // This should skip req1 (ref bit = 1), clear it, then evict req2 (ref bit = 0)
    cache.get(&req3); // Need 20 more bytes

    assert_eq!(cache.get_n_obj(), 2);
    assert!(cache.contains(1)); // req1 still in cache
    assert!(!cache.contains(2)); // req2 was evicted
    assert!(cache.contains(3)); // req3 in cache
}

#[test]
fn test_simulate_workload() {
    let mut cache = LruCache::new(100);

    let requests = vec![
        Request::new(1, 10),
        Request::new(2, 20),
        Request::new(1, 10), // hit
        Request::new(3, 30),
        Request::new(2, 20), // hit
        Request::new(1, 10), // hit
    ];

    let stats = simulate_cache(&mut cache, &requests);
    assert_eq!(stats.n_req, 6);
    assert_eq!(stats.n_hit, 3);
    assert_eq!(stats.n_miss, 3);
    assert_eq!(miss_ratio(&stats), 0.5);
}

#[test]
fn fifo_workload_counts() {
    let mut cache = FifoCache::new(300);
    let ids = [1u64, 2, 3, 1, 2, 4, 5, 1, 2, 3];
    let requests: Vec<Request> = ids.iter().map(|&id| Request::new(id, 100)).collect();
    let stats = simulate_cache(&mut cache, &requests);
    assert_eq!(stats.n_hit, 2);
    assert_eq!(stats.n_miss, 8);
    assert_eq!(stats.n_evict, 5);
}
