//! The interface every eviction policy offers, and the results of its operations.
use vstd::prelude::*;

use crate::request::Request;
use crate::stats::{counted_lookup, CacheStats};
use crate::ObjectId;

verus! {

/// Result of a cache get operation
#[derive(Debug, Clone, Copy, PartialEq, Eq, Structural)]
pub enum CacheResult {
    /// Object was found in cache
    Hit { obj_size: u32 },
    /// Object was not found in cache
    Miss,
}

/// Result of a cache insert operation
#[derive(Debug, Clone, Copy, PartialEq, Eq, Structural)]
pub enum InsertResult {
    /// Object was inserted successfully
    Inserted,
    /// Object was inserted and another object was evicted
    Evicted { evicted_id: ObjectId },
    /// Object was rejected (e.g., too large)
    Rejected,
}

/// The abstract state of a cache that the contracts of `Cache` speak of.
pub trait CacheModel: Sized {
    /// Internal consistency of the cache's bookkeeping.
    spec fn inv(&self) -> bool;

    /// `get(req)` can run without an arithmetic overflow.
    spec fn get_admits(&self, req: Request) -> bool;

    /// `insert(req)` can run without an arithmetic overflow.
    spec fn insert_admits(&self, req: Request) -> bool;

    /// `remove(obj_id)` keeps the cache's accounting.
    spec fn remove_admits(&self, obj_id: ObjectId) -> bool;

    /// Bytes held.
    spec fn spec_size(&self) -> nat;

    /// Capacity in bytes.
    spec fn spec_capacity(&self) -> nat;

    /// Number of objects held.
    spec fn spec_len(&self) -> nat;

    /// The counters.
    spec fn spec_stats(&self) -> CacheStats;

    /// Whether the object is held.
    spec fn spec_holds(&self, id: ObjectId) -> bool;

    /// The size a held object was inserted with.
    spec fn spec_size_of(&self, id: ObjectId) -> u32;
}

/// Cache trait defining the interface for all cache eviction algorithms
pub trait Cache: CacheModel {
    /// Check if an object exists in the cache (get operation)
    /// Returns CacheResult::Hit if found, CacheResult::Miss otherwise
    fn get(&mut self, req: &Request) -> (r: CacheResult)
        requires
            old(self).inv(),
            old(self).get_admits(*req),
        ensures
            final(self).inv(),
            r == looked_up(*old(self), req.obj_id),
            counted_lookup(old(self).spec_stats(), final(self).spec_stats(), r is Hit),
            final(self).spec_capacity() == old(self).spec_capacity(),
    ;

    /// Insert an object into the cache
    /// Returns InsertResult indicating what happened
    fn insert(&mut self, req: &Request) -> (r: InsertResult)
        requires
            old(self).inv(),
            old(self).insert_admits(*req),
        ensures
            final(self).inv(),
            insert_effect(*old(self), *final(self), *req, r),
    ;

    /// Evict an object from the cache
    /// Returns the ID of the evicted object, or None if cache is empty
    fn evict(&mut self) -> (r: Option<ObjectId>)
        requires
            old(self).inv(),
        ensures
            final(self).inv(),
            evict_effect(*old(self), *final(self), r),
    ;

    /// Remove a specific object from the cache
    /// Returns true if the object was removed, false if it wasn't in cache
    fn remove(&mut self, obj_id: ObjectId) -> (r: bool)
        requires
            old(self).inv(),
            old(self).remove_admits(obj_id),
        ensures
            final(self).inv(),
            remove_effect(*old(self), *final(self), obj_id, r),
    ;

    /// Clear all objects from the cache
    fn clear(&mut self)
        requires
            old(self).inv(),
        ensures
            final(self).inv(),
            clear_effect(*old(self), *final(self)),
    ;

    /// Get the current size of the cache in bytes
    fn size(&self) -> (r: u64)
        requires
            self.inv(),
        ensures
            r == self.spec_size(),
    ;

    /// Get the cache capacity in bytes
    fn capacity(&self) -> (r: u64)
        ensures
            r == self.spec_capacity(),
    ;

    /// Get the number of objects in the cache
    fn len(&self) -> (r: usize)
        requires
            self.inv(),
        ensures
            r == self.spec_len(),
    ;

    /// Check if the cache is empty
    fn is_empty(&self) -> (r: bool)
        requires
            self.inv(),
        ensures
            r == (self.spec_len() == 0),
    {
        self.len() == 0
    }

    /// Check if an object of the given size can be inserted
    fn can_insert(&self, obj_size: u32) -> (r: bool)
        ensures
            r == (obj_size <= self.spec_capacity()),
    {
        obj_size as u64 <= self.capacity()
    }

    /// Get cache statistics
    fn stats(&self) -> (r: &CacheStats)
        ensures
            *r == self.spec_stats(),
    ;

    /// Reset cache statistics
    fn reset_stats(&mut self)
        requires
            old(self).inv(),
        ensures
            final(self).inv(),
            final(self).spec_stats().is_zero(),
            final(self).spec_size() == old(self).spec_size(),
            final(self).spec_len() == old(self).spec_len(),
            final(self).spec_capacity() == old(self).spec_capacity(),
    ;
}

/// What a lookup of `obj_id` finds in the cache `c`: the object with the size it
/// was inserted with, or nothing.
pub open spec fn looked_up<C: CacheModel>(c: C, obj_id: ObjectId) -> CacheResult {
    if c.spec_holds(obj_id) {
        CacheResult::Hit { obj_size: c.spec_size_of(obj_id) }
    } else {
        CacheResult::Miss
    }
}

/// How `insert(req)` turns `before` into `after`, answering `r`: an object already
/// held stays with its size; a new one that fits is held with the request's size;
/// a new one larger than the capacity is rejected and not held.
pub open spec fn insert_effect<C: CacheModel>(before: C, after: C, req: Request, r: InsertResult) -> bool {
    let id = req.obj_id;
    &&& after.spec_capacity() == before.spec_capacity()
    &&& before.spec_holds(id) ==> after.spec_holds(id) && after.spec_size_of(id) == before.spec_size_of(id)
    &&& before.spec_holds(id) && req.obj_size <= before.spec_capacity() ==> r == InsertResult::Inserted
    &&& !before.spec_holds(id) && req.obj_size > before.spec_capacity() ==> r == InsertResult::Rejected
        && !after.spec_holds(id)
    &&& !before.spec_holds(id) && req.obj_size <= before.spec_capacity() ==> after.spec_holds(id)
        && after.spec_size_of(id) == req.obj_size && r != InsertResult::Rejected
}

/// How `evict()` turns `before` into `after`: it names nothing exactly when the
/// cache was empty, and what it names was held and no longer is.
pub open spec fn evict_effect<C: CacheModel>(before: C, after: C, r: Option<ObjectId>) -> bool {
    &&& after.spec_capacity() == before.spec_capacity()
    &&& r is None <==> before.spec_len() == 0
    &&& r matches Some(v) ==> before.spec_holds(v) && !after.spec_holds(v)
}

/// How `remove(obj_id)` turns `before` into `after`: the object is gone, the answer
/// says whether it was there, and whether any other object is held is unchanged.
pub open spec fn remove_effect<C: CacheModel>(before: C, after: C, obj_id: ObjectId, r: bool) -> bool {
    &&& after.spec_capacity() == before.spec_capacity()
    &&& r == before.spec_holds(obj_id)
    &&& !after.spec_holds(obj_id)
    &&& forall|x: ObjectId| x != obj_id ==> #[trigger] after.spec_holds(x) == before.spec_holds(x)
}

/// How `clear()` turns `before` into `after`: nothing is held any more.
pub open spec fn clear_effect<C: CacheModel>(before: C, after: C) -> bool {
    &&& after.spec_len() == 0
    &&& after.spec_size() == 0
    &&& after.spec_capacity() == before.spec_capacity()
    &&& forall|x: ObjectId| !#[trigger] after.spec_holds(x)
}

/// A lookup after an insert finds the object, with the size it was first inserted
/// with, whenever the insert was not refused for size.
pub proof fn law_lookup_after_insert<C: CacheModel>(before: C, after: C, req: Request, r: InsertResult)
    requires
        insert_effect(before, after, req, r),
        before.spec_holds(req.obj_id) || req.obj_size <= before.spec_capacity(),
    ensures
        r != InsertResult::Rejected || before.spec_holds(req.obj_id),
        looked_up(after, req.obj_id) == (CacheResult::Hit {
            obj_size: if before.spec_holds(req.obj_id) { before.spec_size_of(req.obj_id) } else { req.obj_size },
        }),
{
}

/// An object larger than the whole cache, not held before, is refused and a lookup
/// afterwards misses.
pub proof fn law_oversized_refused<C: CacheModel>(before: C, after: C, req: Request, r: InsertResult)
    requires
        insert_effect(before, after, req, r),
        !before.spec_holds(req.obj_id),
        req.obj_size > before.spec_capacity(),
    ensures
        r == InsertResult::Rejected,
        looked_up(after, req.obj_id) == CacheResult::Miss,
{
}

/// After a removal a lookup of the object misses, and a lookup of any other object
/// hits exactly when it hit before.
pub proof fn law_lookup_after_remove<C: CacheModel>(before: C, after: C, obj_id: ObjectId, r: bool)
    requires
        remove_effect(before, after, obj_id, r),
    ensures
        r == (looked_up(before, obj_id) is Hit),
        looked_up(after, obj_id) == CacheResult::Miss,
        forall|x: ObjectId| x != obj_id ==> (#[trigger] looked_up(after, x) is Hit) == (looked_up(before, x) is Hit),
{
    assert forall|x: ObjectId| x != obj_id implies (#[trigger] looked_up(after, x) is Hit) == (looked_up(before, x) is Hit) by {
        assert(after.spec_holds(x) == before.spec_holds(x));
    }
}

/// The object an eviction names was found before it and is missed after it; an
/// eviction names nothing only on an empty cache.
pub proof fn law_lookup_after_evict<C: CacheModel>(before: C, after: C, r: Option<ObjectId>)
    requires
        evict_effect(before, after, r),
    ensures
        r is None <==> before.spec_len() == 0,
        r matches Some(v) ==> looked_up(before, v) is Hit && looked_up(after, v) == CacheResult::Miss,
{
}

/// After clearing, every lookup misses and the cache holds no bytes.
pub proof fn law_lookup_after_clear<C: CacheModel>(before: C, after: C)
    requires
        clear_effect(before, after),
    ensures
        after.spec_size() == 0,
        forall|x: ObjectId| #[trigger] looked_up(after, x) == CacheResult::Miss,
{
    assert forall|x: ObjectId| #[trigger] looked_up(after, x) == CacheResult::Miss by {
        assert(!after.spec_holds(x));
    }
}

} // verus!
