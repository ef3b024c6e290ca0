//! A compact cache simulator: byte-sized requests, plain counters, and FIFO,
//! LRU and Clock caches behind one `Cache` trait.
use vstd::prelude::*;

pub mod clock;
pub mod fifo;
pub mod lru;

pub use clock::ClockCache;
pub use fifo::FifoCache;
pub use lru::LruCache;

verus! {

/// Object ID type
pub type ObjId = u64;

/// Object size type
pub type ObjSize = u64;

/// Request structure representing a cache access
#[derive(Debug, Clone)]
pub struct Request {
    pub obj_id: ObjId,
    pub obj_size: ObjSize,
    pub timestamp: u64,
}

impl Request {
    pub fn new(obj_id: ObjId, obj_size: ObjSize) -> (r: Self)
        ensures
            r.obj_id == obj_id,
            r.obj_size == obj_size,
            r.timestamp == 0,
    {
        Request { obj_id, obj_size, timestamp: 0 }
    }

    pub fn with_timestamp(obj_id: ObjId, obj_size: ObjSize, timestamp: u64) -> (r: Self)
        ensures
            r.obj_id == obj_id,
            r.obj_size == obj_size,
            r.timestamp == timestamp,
    {
        Request { obj_id, obj_size, timestamp }
    }
}

/// Cache statistics
#[derive(Debug, Clone, Copy)]
pub struct CacheStats {
    pub n_req: u64,
    pub n_hit: u64,
    pub n_miss: u64,
    pub n_evict: u64,
}

/// All four counters at zero.
pub open spec fn zero_stats() -> CacheStats {
    CacheStats { n_req: 0, n_hit: 0, n_miss: 0, n_evict: 0 }
}

impl Default for CacheStats {
    fn default() -> (s: Self)
        ensures
            s == zero_stats(),
    {
        CacheStats { n_req: 0, n_hit: 0, n_miss: 0, n_evict: 0 }
    }
}

/// The counters after one request: one more request, and one more hit or one more miss.
pub open spec fn counted(s: CacheStats, hit: bool) -> CacheStats {
    CacheStats {
        n_req: (s.n_req + 1) as u64,
        n_hit: if hit {
            (s.n_hit + 1) as u64
        } else {
            s.n_hit
        },
        n_miss: if hit {
            s.n_miss
        } else {
            (s.n_miss + 1) as u64
        },
        n_evict: s.n_evict,
    }
}

/// The counters with `k` more evictions.
pub open spec fn with_evictions(s: CacheStats, k: nat) -> CacheStats {
    CacheStats { n_evict: (s.n_evict + k) as u64, ..s }
}

/// Weight of a byte size.
pub open spec fn bytes() -> spec_fn(u64) -> nat {
    |s: u64| s as nat
}

/// Cache trait defining the interface for all cache eviction algorithms
pub trait Cache: Sized {
    /// Internal consistency of the cache's bookkeeping.
    spec fn inv(&self) -> bool;

    /// Bytes held.
    spec fn spec_occupied(&self) -> nat;

    /// Capacity in bytes.
    spec fn spec_capacity(&self) -> nat;

    /// Number of objects held.
    spec fn spec_n_obj(&self) -> nat;

    /// Whether the object with this id is held.
    spec fn spec_holds(&self, id: ObjId) -> bool;

    /// The counters.
    spec fn spec_stats(&self) -> CacheStats;

    /// `after` is what a `get(req)` that answered `hit` leaves of `self`.
    spec fn get_step(&self, after: Self, req: Request, hit: bool) -> bool;

    /// `after` is `self` with its counters reset.
    spec fn reset_step(&self, after: Self) -> bool;

    /// Check if an object exists in the cache (get operation)
    /// Returns true if the object was found (cache hit), false otherwise (cache miss)
    fn get(&mut self, req: &Request) -> (hit: bool)
        requires
            old(self).inv(),
            old(self).spec_stats().n_req < u64::MAX,
            old(self).spec_stats().n_hit < u64::MAX,
            old(self).spec_stats().n_miss < u64::MAX,
            !old(self).spec_holds(req.obj_id) ==> {
                &&& req.obj_size <= old(self).spec_capacity()
                &&& old(self).spec_occupied() + req.obj_size <= u64::MAX
                &&& old(self).spec_stats().n_evict + old(self).spec_n_obj() < u64::MAX
            },
        ensures
            final(self).inv(),
            old(self).get_step(*final(self), *req, hit),
            hit == old(self).spec_holds(req.obj_id),
            final(self).spec_holds(req.obj_id),
            final(self).spec_capacity() == old(self).spec_capacity(),
            final(self).spec_stats().n_req == old(self).spec_stats().n_req + 1,
            final(self).spec_stats().n_hit == old(self).spec_stats().n_hit + if hit {
                1int
            } else {
                0int
            },
            final(self).spec_stats().n_miss == old(self).spec_stats().n_miss + if hit {
                0int
            } else {
                1int
            },
            final(self).spec_stats().n_evict + final(self).spec_n_obj() <= old(self).spec_stats().n_evict + old(self).spec_n_obj() + 1,
            old(self).spec_occupied() <= old(self).spec_capacity() ==> final(self).spec_occupied()
                <= final(self).spec_capacity(),
    ;

    /// Insert an object into the cache
    fn insert(&mut self, req: &Request)
        requires
            old(self).inv(),
            !old(self).spec_holds(req.obj_id) ==> old(self).spec_occupied() + req.obj_size
                <= u64::MAX,
        ensures
            final(self).inv(),
            final(self).spec_holds(req.obj_id),
    ;

    /// Evict an object from the cache
    fn evict(&mut self) -> (r: Option<ObjId>)
        requires
            old(self).inv(),
            old(self).spec_stats().n_evict < u64::MAX,
        ensures
            final(self).inv(),
    ;

    /// Remove a specific object from the cache
    fn remove(&mut self, obj_id: ObjId) -> (removed: bool)
        requires
            old(self).inv(),
        ensures
            final(self).inv(),
            removed == old(self).spec_holds(obj_id),
            !final(self).spec_holds(obj_id),
    ;

    /// Get the current size of the cache in bytes
    fn get_occupied_byte(&self) -> (r: u64)
        requires
            self.inv(),
        ensures
            r == self.spec_occupied(),
    ;

    /// Get the number of objects in the cache
    fn get_n_obj(&self) -> (r: usize)
        requires
            self.inv(),
        ensures
            r == self.spec_n_obj(),
    ;

    /// Check if an object can be inserted
    fn can_insert(&self, obj_size: ObjSize) -> (r: bool)
        requires
            self.inv(),
            self.spec_occupied() + obj_size <= u64::MAX,
        ensures
            r == (self.spec_occupied() + obj_size <= self.spec_capacity()),
    ;

    /// Get cache statistics
    fn get_stats(&self) -> (r: &CacheStats)
        ensures
            *r == self.spec_stats(),
    ;

    /// Reset cache statistics
    fn reset_stats(&mut self)
        requires
            old(self).inv(),
        ensures
            final(self).inv(),
            old(self).reset_step(*final(self)),
            final(self).spec_stats() == zero_stats(),
            final(self).spec_occupied() == old(self).spec_occupied(),
            final(self).spec_capacity() == old(self).spec_capacity(),
            final(self).spec_n_obj() == old(self).spec_n_obj(),
    ;
}

/// `states` and `hits` record a replay of `reqs` in order: each state is what a
/// `get` of the next request leaves of the state before it, answering the recorded
/// hit.
pub open spec fn replayed<C: Cache>(states: Seq<C>, hits: Seq<bool>, reqs: Seq<Request>) -> bool {
    &&& states.len() == reqs.len() + 1
    &&& hits.len() == reqs.len()
    &&& forall|i: int| 0 <= i < reqs.len() ==> states[i].get_step(states[i + 1], reqs[i], #[trigger] hits[i])
}

/// Simulate a workload and return cache statistics
pub fn simulate_cache<C: Cache>(cache: &mut C, requests: &[Request]) -> (stats: CacheStats)
    requires
        old(cache).inv(),
        old(cache).spec_occupied() <= old(cache).spec_capacity(),
        old(cache).spec_n_obj() + requests@.len() < u64::MAX,
        forall|i: int|
            0 <= i < requests@.len() ==> #[trigger] requests@[i].obj_size <= old(cache).spec_capacity() && old(cache).spec_capacity() + requests@[i].obj_size <= u64::MAX,
    ensures
        final(cache).inv(),
        stats == final(cache).spec_stats(),
        stats.n_req == requests@.len(),
        stats.n_hit + stats.n_miss == requests@.len(),
        exists|states: Seq<C>, hits: Seq<bool>| {
            &&& replayed(states, hits, requests@)
            &&& old(cache).reset_step(states[0])
            &&& states.last() == *final(cache)
        },
{
    cache.reset_stats();
    let ghost start = *cache;
    let ghost mut states: Seq<C> = seq![start];
    let ghost mut hits: Seq<bool> = Seq::empty();
    let n = requests.len();
    let ghost cap = cache.spec_capacity();
    let mut i: usize = 0;
    while i < n
        invariant
            n == requests@.len(),
            i <= n,
            cache.inv(),
            cache.spec_capacity() == cap,
            cache.spec_occupied() <= cap,
            cache.spec_stats().n_req == i,
            cache.spec_stats().n_hit + cache.spec_stats().n_miss == i,
            cache.spec_stats().n_evict + cache.spec_n_obj() <= old(cache).spec_n_obj() + i,
            old(cache).spec_n_obj() + n < u64::MAX,
            forall|j: int|
                0 <= j < requests@.len() ==> #[trigger] requests@[j].obj_size <= cap && cap
                    + requests@[j].obj_size <= u64::MAX,
            replayed(states, hits, requests@.subrange(0, i as int)),
            old(cache).reset_step(start),
            states[0] == start,
            states.last() == *cache,
        decreases n - i,
    {
        let req = &requests[i];
        assert(requests@[i as int].obj_size <= cap);
        let ghost before = *cache;
        let hit = cache.get(req);
        proof {
            let prev = requests@.subrange(0, i as int);
            let next = requests@.subrange(0, i + 1);
            let st2 = states.push(*cache);
            let h2 = hits.push(hit);
            assert forall|j: int| 0 <= j < next.len() implies st2[j].get_step(st2[j + 1], next[j], #[trigger] h2[j]) by {
                if j < i {
                    assert(next[j] == prev[j]);
                    assert(h2[j] == hits[j]);
                    assert(states[j].get_step(states[j + 1], prev[j], hits[j]));
                } else {
                    assert(st2[j] == before);
                    assert(next[j] == *req);
                }
            }
            states = st2;
            hits = h2;
        }
        i = i + 1;
    }
    proof {
        assert(requests@.subrange(0, n as int) =~= requests@);
    }
    *cache.get_stats()
}

} // verus!
