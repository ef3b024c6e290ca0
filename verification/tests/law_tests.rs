//! Concrete checks of the laws every cache keeps.
use libcachesim::{ArcCache, Cache, CacheResult, ClockCache, FifoCache, InsertResult, LfuCache, LruCache, MruCache, Request};

#[test]
fn lookup_after_insert_keeps_first_size() {
    let mut cache = LruCache::new(1000);
    assert_eq!(cache.insert(&Request::new(7, 100)), InsertResult::Inserted);
    assert_eq!(cache.get(&Request::new(7, 100)), CacheResult::Hit { obj_size: 100 });
    // A second insert of a held object keeps the size it was first inserted with.
    assert_eq!(cache.insert(&Request::new(7, 300)), InsertResult::Inserted);
    assert_eq!(cache.get(&Request::new(7, 300)), CacheResult::Hit { obj_size: 100 });
}

#[test]
fn oversized_object_is_refused() {
    let mut fifo = FifoCache::new(100);
    assert_eq!(fifo.insert(&Request::new(1, 200)), InsertResult::Rejected);
    assert_eq!(fifo.get(&Request::new(1, 200)), CacheResult::Miss);
    let mut arc = ArcCache::new(100);
    assert_eq!(arc.insert(&Request::new(1, 101)), InsertResult::Rejected);
    assert_eq!(arc.get(&Request::new(1, 101)), CacheResult::Miss);
    assert_eq!(arc.size(), 0);
}

#[test]
fn lookup_after_remove() {
    let mut cache = ClockCache::new(1000);
    cache.insert(&Request::new(1, 100));
    cache.insert(&Request::new(2, 100));
    assert!(cache.remove(1));
    assert!(!cache.remove(1));
    assert_eq!(cache.get(&Request::new(1, 100)), CacheResult::Miss);
    assert_eq!(cache.get(&Request::new(2, 100)), CacheResult::Hit { obj_size: 100 });
}

#[test]
fn lookup_after_evict() {
    let mut cache = MruCache::new(1000);
    assert_eq!(cache.evict(), None);
    cache.insert(&Request::new(1, 100));
    cache.insert(&Request::new(2, 100));
    let victim = cache.evict().expect("a non-empty cache evicts");
    assert!(victim == 1 || victim == 2);
    assert_eq!(cache.len(), 1);
    assert_eq!(cache.get(&Request::new(victim, 100)), CacheResult::Miss);
}

#[test]
fn lookup_after_clear() {
    let mut cache = LfuCache::new(1000);
    cache.insert(&Request::new(1, 100));
    cache.insert(&Request::new(2, 200));
    cache.clear();
    assert_eq!(cache.size(), 0);
    assert!(cache.is_empty());
    assert_eq!(cache.get(&Request::new(1, 100)), CacheResult::Miss);
    assert_eq!(cache.get(&Request::new(2, 200)), CacheResult::Miss);
}

#[test]
fn requests_are_hits_plus_misses() {
    let mut cache = LruCache::new(300);
    for id in [1u64, 2, 1, 3, 4, 1, 2, 2, 5, 1] {
        let req = Request::new(id, 100);
        if cache.get(&req) == CacheResult::Miss {
            cache.insert(&req);
        }
        let stats = cache.stats();
        assert_eq!(stats.n_req(), stats.n_hit() + stats.n_miss());
    }
    assert_eq!(cache.stats().n_req(), 10);
}
