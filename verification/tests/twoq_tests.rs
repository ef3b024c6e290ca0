use libcachesim::{CacheResult, InsertResult, Request, TwoQCache};

#[test]
fn test_2q_basic() {
    let mut cache = TwoQCache::new(300);
    let req1 = Request::builder().obj_id(1).obj_size(100).build();
    let req2 = Request::builder().obj_id(2).obj_size(100).build();

    // First access - goes to A1in
    assert!(matches!(cache.get(&req1), CacheResult::Miss));
    cache.insert(&req1);

    // Second access - stays in A1in but gets hit
    assert!(matches!(cache.get(&req1), CacheResult::Hit { .. }));

    // Different object
    assert!(matches!(cache.get(&req2), CacheResult::Miss));
}

#[test]
fn test_2q_promotion() {
    let mut cache = TwoQCache::new(300);
    let req1 = Request::builder().obj_id(1).obj_size(100).build();

    // First access
    cache.insert(&req1);

    // Second access promotes to Am
    cache.get(&req1);

    // Third access should still hit in Am
    assert!(matches!(cache.get(&req1), CacheResult::Hit { .. }));
}

#[test]
fn test_2q_eviction() {
    let mut cache = TwoQCache::new(300);

    // Fill A1in beyond capacity
    for i in 1..=10 {
        let req = Request::builder().obj_id(i).obj_size(50).build();
        cache.insert(&req);
    }

    // Should have evicted some from A1in
    assert!(cache.stats().evictions() > 0);
}

#[test]
fn twoq_fifo_eviction_counts() {
    let mut cache = TwoQCache::new(300);
    for i in 1..=10 {
        assert_eq!(cache.insert(&Request::new(i, 50)), InsertResult::Inserted);
    }
    assert_eq!(cache.stats().evictions(), 4);
    assert_eq!(cache.current_size(), 300);
    assert_eq!(cache.len(), 6);
    assert_eq!(cache.get(&Request::new(4, 50)), CacheResult::Miss);
    assert_eq!(cache.get(&Request::new(5, 50)), CacheResult::Hit { obj_size: 50 });
}

#[test]
fn twoq_ghost_reentry_goes_to_am() {
    let mut cache = TwoQCache::new(300);
    for i in 1..=6 {
        cache.insert(&Request::new(i, 50));
    }
    // 2 moves to Am
    assert_eq!(cache.get(&Request::new(2, 50)), CacheResult::Hit { obj_size: 50 });
    // 1 leaves A1in for A1out
    cache.insert(&Request::new(7, 50));
    assert_eq!(cache.stats().evictions(), 1);
    // 1 comes back into Am, pushing out the oldest of Am (2)
    cache.insert(&Request::new(1, 50));
    assert_eq!(cache.stats().evictions(), 2);
    assert_eq!(cache.get(&Request::new(1, 50)), CacheResult::Hit { obj_size: 50 });
    assert_eq!(cache.get(&Request::new(2, 50)), CacheResult::Miss);
    assert_eq!(cache.current_size(), 300);
}

#[test]
fn twoq_remove_and_clear() {
    let mut cache = TwoQCache::new(300);
    cache.insert(&Request::new(1, 100));
    cache.insert(&Request::new(2, 100));
    cache.get(&Request::new(2, 100));
    assert!(cache.remove(1));
    assert!(cache.remove(2));
    assert!(!cache.remove(2));
    assert_eq!(cache.current_size(), 0);
    cache.insert(&Request::new(3, 100));
    cache.clear();
    assert_eq!(cache.len(), 0);
    assert_eq!(cache.capacity(), 300);
}
