use libcachesim::{CacheError, CacheResult, InsertResult, Request, SieveCache};

#[test]
fn test_sieve_basic() {
    let mut cache = SieveCache::new(300);

    let req1 = Request::new(1, 100);
    let req2 = Request::new(2, 100);
    let req3 = Request::new(3, 100);

    cache.insert(&req1).unwrap();
    cache.insert(&req2).unwrap();
    cache.insert(&req3).unwrap();

    assert_eq!(cache.len(), 3);
}

#[test]
fn test_sieve_visited_bit() {
    let mut cache = SieveCache::new(200);

    let req1 = Request::new(1, 100);
    let req2 = Request::new(2, 100);

    cache.insert(&req1).unwrap();
    cache.insert(&req2).unwrap();

    // Access req1 to set visited bit
    cache.get(&req1).unwrap();

    // Insert req3, should prefer evicting req2
    let req3 = Request::new(3, 100);
    cache.insert(&req3).unwrap();

    assert_eq!(cache.len(), 2);
    assert_eq!(cache.stats().n_evict(), 1);
}

#[test]
fn sieve_visited_entry_survives() {
    let mut cache = SieveCache::new(200);
    cache.insert(&Request::new(1, 100)).unwrap();
    cache.insert(&Request::new(2, 100)).unwrap();
    cache.get(&Request::new(1, 100)).unwrap();
    assert_eq!(cache.insert(&Request::new(3, 100)), Ok(InsertResult::Inserted));
    assert_eq!(cache.get(&Request::new(2, 100)), Ok(CacheResult::Miss));
    assert_eq!(cache.get(&Request::new(1, 100)), Ok(CacheResult::Hit { obj_size: 100 }));
    assert_eq!(cache.get(&Request::new(3, 100)), Ok(CacheResult::Hit { obj_size: 100 }));
}

#[test]
fn sieve_all_visited_round_then_evicts_first() {
    let mut cache = SieveCache::new(200);
    cache.insert(&Request::new(1, 100)).unwrap();
    cache.insert(&Request::new(2, 100)).unwrap();
    cache.get(&Request::new(1, 100)).unwrap();
    cache.get(&Request::new(2, 100)).unwrap();
    cache.insert(&Request::new(3, 100)).unwrap();
    assert_eq!(cache.stats().n_evict(), 1);
    assert_eq!(cache.get(&Request::new(1, 100)), Ok(CacheResult::Miss));
    assert_eq!(cache.get(&Request::new(2, 100)), Ok(CacheResult::Hit { obj_size: 100 }));
    assert_eq!(cache.size(), 200);
}

#[test]
fn sieve_too_large_remove_clear() {
    let mut cache = SieveCache::new(100);
    assert_eq!(
        cache.insert(&Request::new(9, 200)),
        Err(CacheError::ObjectTooLarge { size: 200, capacity: 100 })
    );
    cache.insert(&Request::new(1, 60)).unwrap();
    assert_eq!(cache.remove(1), Ok(true));
    assert_eq!(cache.remove(1), Ok(false));
    assert!(cache.is_empty());
    cache.insert(&Request::new(2, 60)).unwrap();
    cache.get(&Request::new(2, 60)).unwrap();
    cache.clear();
    assert_eq!(cache.len(), 0);
    assert_eq!(cache.size(), 0);
    assert_eq!(cache.stats().n_req(), 0);
    assert_eq!(cache.capacity(), 100);
}

#[test]
fn sieve_reinsert_of_cached_object_keeps_it_once() {
    let mut cache = SieveCache::new(300);
    cache.insert(&Request::new(1, 100)).unwrap();
    assert_eq!(cache.insert(&Request::new(1, 100)), Ok(InsertResult::Inserted));
    assert_eq!(cache.len(), 1);
    assert_eq!(cache.size(), 100);
}
