use libcachesim::{CacheResult, InsertResult, Request, S3FifoCache};

#[test]
fn test_s3fifo_basic() {
    let mut cache = S3FifoCache::new(300);
    let req1 = Request::builder().obj_id(1).obj_size(100).build();

    assert!(matches!(cache.get(&req1), CacheResult::Miss));
    cache.insert(&req1);
    assert!(matches!(cache.get(&req1), CacheResult::Hit { .. }));
}

#[test]
fn test_s3fifo_frequency() {
    let mut cache = S3FifoCache::new(300);
    let req1 = Request::builder().obj_id(1).obj_size(100).build();

    cache.insert(&req1);

    // Multiple accesses increase frequency
    for _ in 0..5 {
        cache.get(&req1);
    }

    assert!(matches!(cache.get(&req1), CacheResult::Hit { .. }));
}

#[test]
fn test_s3fifo_eviction() {
    let mut cache = S3FifoCache::new(300);

    // Fill cache
    for i in 1..=10 {
        let req = Request::builder().obj_id(i).obj_size(50).build();
        cache.insert(&req);
    }

    assert!(cache.stats().evictions() > 0);
}

#[test]
fn s3fifo_scan_evicts_oldest_unaccessed_first() {
    let mut cache = S3FifoCache::new(300);
    for i in 1..=6 {
        assert_eq!(cache.insert(&Request::new(i, 50)), InsertResult::Inserted);
    }
    assert_eq!(cache.current_size(), 300);
    assert_eq!(cache.stats().evictions(), 0);
    // 7 overflows the cache: the small queue is over its share, so its
    // unaccessed front (1) is evicted into the ghost queue
    cache.insert(&Request::new(7, 50));
    assert_eq!(cache.stats().evictions(), 1);
    assert_eq!(cache.current_size(), 300);
    assert_eq!(cache.get(&Request::new(1, 50)), CacheResult::Miss);
    assert_eq!(cache.get(&Request::new(2, 50)), CacheResult::Hit { obj_size: 50 });
    assert_eq!(cache.len(), 6);
}

#[test]
fn s3fifo_accessed_object_is_promoted_not_evicted() {
    let mut cache = S3FifoCache::new(300);
    for i in 1..=6 {
        cache.insert(&Request::new(i, 50));
    }
    cache.get(&Request::new(1, 50));
    cache.insert(&Request::new(7, 50));
    // 1 moved to the main queue; 2 was evicted instead
    assert_eq!(cache.get(&Request::new(1, 50)), CacheResult::Hit { obj_size: 50 });
    assert_eq!(cache.get(&Request::new(2, 50)), CacheResult::Miss);
    assert_eq!(cache.stats().evictions(), 1);
}

#[test]
fn s3fifo_ghost_hit_enters_main_and_remove() {
    let mut cache = S3FifoCache::new(300);
    for i in 1..=7 {
        cache.insert(&Request::new(i, 50));
    }
    // 1 is a ghost now; inserting it again puts it in the main queue with one
    // access, where the cache being over capacity spends that access and then
    // evicts it once more
    cache.insert(&Request::new(1, 50));
    assert_eq!(cache.stats().evictions(), 2);
    assert_eq!(cache.get(&Request::new(1, 50)), CacheResult::Miss);
    assert_eq!(cache.current_size(), 300);
    assert!(cache.remove(2));
    assert!(!cache.remove(2));
    assert_eq!(cache.current_size(), 250);
    cache.clear();
    assert_eq!(cache.len(), 0);
    assert_eq!(cache.current_size(), 0);
    assert_eq!(cache.capacity(), 300);
}
