use libcachesim::{ArcCache, Cache, CacheResult, InsertResult, Request};

#[test]
fn test_arc_basic() {
    let mut cache = ArcCache::new(300);

    let req1 = Request::new(1, 100);
    assert_eq!(cache.get(&req1), CacheResult::Miss);
    cache.insert(&req1);
    assert_eq!(cache.get(&req1), CacheResult::Hit { obj_size: 100 });

    assert_eq!(cache.len(), 1);
    assert_eq!(cache.size(), 100);
}

#[test]
fn test_arc_adaptation() {
    let mut cache = ArcCache::new(300);

    // Insert 3 objects
    for i in 1..=3 {
        let req = Request::new(i, 100);
        cache.insert(&req);
    }

    // Access first two twice (should be in T2)
    for i in 1..=2 {
        let req = Request::new(i, 100);
        cache.get(&req);
    }

    // Insert 4th object (should evict 3 from T1)
    let req4 = Request::new(4, 100);
    cache.insert(&req4);

    assert_eq!(cache.len(), 3);
}

#[test]
fn test_arc_stats() {
    let mut cache = ArcCache::new(200);

    let req1 = Request::new(1, 100);
    let req2 = Request::new(2, 100);

    cache.insert(&req1);
    cache.get(&req1); // hit
    cache.get(&req2); // miss

    assert_eq!(cache.stats().n_hit(), 1);
    assert_eq!(cache.stats().n_miss(), 1); // Only req2 miss
    assert_eq!(cache.stats().n_req(), 2); // Two gets
}

#[test]
fn arc_ghost_hit_returns_to_t2() {
    let mut cache = ArcCache::new(200);
    cache.insert(&Request::new(1, 100));
    cache.insert(&Request::new(2, 100));
    // Inserting 3 demotes 1 from T1 to the ghost list B1.
    assert_eq!(cache.insert(&Request::new(3, 100)), InsertResult::Evicted { evicted_id: 1 });
    assert_eq!(cache.stats().n_evict(), 1);
    assert_eq!(cache.get(&Request::new(1, 100)), CacheResult::Miss);
    assert_eq!(cache.len(), 2);
    // A re-insert of a ghost comes back into the cache.
    cache.insert(&Request::new(1, 100));
    assert_eq!(cache.get(&Request::new(1, 100)), CacheResult::Hit { obj_size: 100 });
    assert_eq!(cache.size(), 200);
}

#[test]
fn arc_rejects_oversized_and_evicts_in_order() {
    let mut cache = ArcCache::new(100);
    assert_eq!(cache.insert(&Request::new(9, 101)), InsertResult::Rejected);
    assert_eq!(cache.evict(), None);
    cache.insert(&Request::new(1, 40));
    cache.insert(&Request::new(2, 40));
    assert_eq!(cache.evict(), Some(1));
    assert_eq!(cache.stats().n_evict(), 1);
    assert!(cache.remove(2));
    assert!(!cache.remove(2));
    assert!(cache.is_empty());
}

#[test]
fn arc_reinsert_of_cached_object_keeps_it_once() {
    let mut cache = ArcCache::new(300);
    cache.insert(&Request::new(1, 100));
    assert_eq!(cache.insert(&Request::new(1, 100)), InsertResult::Inserted);
    assert_eq!(cache.len(), 1);
    assert_eq!(cache.size(), 100);
    assert!(cache.remove(1));
    assert!(cache.is_empty());
    assert_eq!(cache.size(), 0);
}

#[test]
fn arc_remove_of_ghost_is_refused() {
    let mut cache = ArcCache::new(200);
    for i in 1..=3 {
        cache.insert(&Request::new(i, 100));
    }
    // 1 is now only a ghost in B1
    assert!(!cache.remove(1));
    assert_eq!(cache.size(), 200);
    assert_eq!(cache.len(), 2);
}

#[test]
fn arc_ghost_hit_then_new_insert() {
    let mut cache = ArcCache::new(200);
    for i in 1..=3 {
        cache.insert(&Request::new(i, 100));
    }
    cache.insert(&Request::new(1, 100));
    let r = cache.insert(&Request::new(4, 100));
    assert_ne!(r, InsertResult::Rejected);
    let r = cache.insert(&Request::new(5, 100));
    assert_ne!(r, InsertResult::Rejected);
    assert_eq!(cache.len(), 2);
    assert_eq!(cache.size(), 200);
}

#[test]
fn arc_reinsert_counts_an_insert() {
    let mut cache = ArcCache::new(300);
    cache.insert(&Request::new(1, 100));
    let before = cache.stats().n_insert();
    assert_eq!(cache.insert(&Request::new(1, 100)), InsertResult::Inserted);
    assert_eq!(cache.stats().n_insert(), before + 1);
    assert_eq!(cache.size(), 100);
}
