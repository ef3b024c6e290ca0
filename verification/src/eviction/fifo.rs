//! FIFO (First-In-First-Out) cache over the crate-wide `Cache` interface.
use std::collections::HashMap;
use std::collections::VecDeque;
use vstd::prelude::*;

use super::{admit_at_back, insert_outcome, obj_bytes};
use crate::cache::{Cache, CacheModel, CacheResult, InsertResult};
use crate::ordered::{
    evictions_to_fit, lemma_evictions_bound, lemma_index_of_unique, lemma_lists_index,
    lemma_lists_len, lemma_pop_front_is_remove, lemma_restrict_self, lemma_sum_same_weights,
    lemma_table_push, lemma_table_remove, lists_exactly, position_of, sum_over, table_weight,
};
use crate::request::Request;
use crate::stats::{lemma_advanced_refl, lemma_advanced_trans, CacheStats};
use crate::{ObjectId, ObjectSize};

verus! {

broadcast use vstd::std_specs::hash::group_hash_axioms;

/// FIFO (First-In-First-Out) cache
///
/// Objects leave in the order they came in; hits do not change the order.
pub struct FifoCache {
    capacity: u64,
    used: u64,
    objects: HashMap<ObjectId, ObjectSize>,
    queue: VecDeque<ObjectId>,
    stats: CacheStats,
}

impl FifoCache {
    /// Ids held, oldest first.
    pub closed spec fn order(&self) -> Seq<ObjectId> {
        self.queue@
    }

    /// Size of each held object.
    pub closed spec fn sizes(&self) -> Map<ObjectId, ObjectSize> {
        self.objects@
    }

    pub closed spec fn cap(&self) -> nat {
        self.capacity as nat
    }

    pub closed spec fn used(&self) -> nat {
        self.used as nat
    }

    pub closed spec fn counters(&self) -> CacheStats {
        self.stats
    }

    pub open spec fn well_formed(&self) -> bool {
        &&& lists_exactly(self.order(), self.sizes().dom())
        &&& self.used() == sum_over(self.order(), table_weight(self.sizes(), obj_bytes()))
        &&& self.used() <= self.cap()
    }

    /// Create a new FIFO cache with the given capacity in bytes
    pub fn new(capacity: u64) -> (c: Self)
        ensures
            c.well_formed(),
            c.order() == Seq::<ObjectId>::empty(),
            c.cap() == capacity,
            c.counters().is_zero(),
    {
        let c = FifoCache {
            capacity,
            used: 0,
            objects: HashMap::new(),
            queue: VecDeque::new(),
            stats: CacheStats::new(),
        };
        proof {
            assert(c.objects@.dom() =~= Set::<u64>::empty());
        }
        c
    }
}

impl CacheModel for FifoCache {
    open spec fn inv(&self) -> bool {
        self.well_formed()
    }

    open spec fn get_admits(&self, req: Request) -> bool {
        self.insert_admits(req)
    }

    open spec fn insert_admits(&self, req: Request) -> bool {
        self.sizes().contains_key(req.obj_id) || req.obj_size > self.cap() || self.used()
            + req.obj_size <= u64::MAX
    }

    open spec fn remove_admits(&self, obj_id: ObjectId) -> bool {
        true
    }

    open spec fn spec_size(&self) -> nat {
        self.used()
    }

    open spec fn spec_capacity(&self) -> nat {
        self.cap()
    }

    open spec fn spec_len(&self) -> nat {
        self.order().len()
    }

    open spec fn spec_stats(&self) -> CacheStats {
        self.counters()
    }

    open spec fn spec_holds(&self, id: ObjectId) -> bool {
        self.sizes().contains_key(id)
    }

    open spec fn spec_size_of(&self, id: ObjectId) -> u32 {
        self.sizes()[id]
    }
}

impl Cache for FifoCache {
    fn get(&mut self, req: &Request) -> (r: CacheResult)
        ensures
            old(self).sizes().contains_key(req.obj_id) ==> {
                &&& r == CacheResult::Hit { obj_size: old(self).sizes()[req.obj_id] }
                &&& final(self).order() == old(self).order()
                &&& final(self).sizes() == old(self).sizes()
                &&& old(self).counters().advanced(final(self).counters(), 1, 1, 0, 0, 0)
            },
            !old(self).sizes().contains_key(req.obj_id) && req.obj_size > old(self).cap() ==> r
                == CacheResult::Miss && old(self).counters().advanced(final(self).counters(), 1, 0, 1, 0, 0)
                && final(self).order() == old(self).order() && final(self).sizes() == old(self).sizes(),
            !old(self).sizes().contains_key(req.obj_id) && req.obj_size <= old(self).cap() ==> ({
                let (order, sizes, k) = admit_at_back(
                    old(self).order(),
                    old(self).sizes(),
                    old(self).cap(),
                    req.obj_id,
                    req.obj_size,
                );
                &&& r == CacheResult::Miss
                &&& final(self).order() == order
                &&& final(self).sizes() == sizes
                &&& old(self).counters().advanced(final(self).counters(), 1, 0, 1, k, 1)
            }),
    {
        self.stats.inc_req();
        if let Some(obj_size) = self.objects.get(&req.obj_id) {
            let s = *obj_size;
            let ghost s1 = self.stats;
            self.stats.inc_hit();
            proof {
                lemma_advanced_trans(old(self).stats, s1, self.stats, 1, 0, 0, 0, 0, 0, 1, 0, 0, 0);
            }
            CacheResult::Hit { obj_size: s }
        } else {
            let ghost s1 = self.stats;
            self.stats.inc_miss();
            let ghost s2 = self.stats;
            self.insert(req);
            proof {
                lemma_advanced_trans(old(self).stats, s1, s2, 1, 0, 0, 0, 0, 0, 0, 1, 0, 0);
                let k = admit_at_back(old(self).order(), old(self).sizes(), old(self).cap(), req.obj_id, req.obj_size).2;
                if req.obj_size <= old(self).cap() {
                    lemma_advanced_trans(old(self).stats, s2, self.stats, 1, 0, 1, 0, 0, 0, 0, 0, k, 1);
                } else {
                    lemma_advanced_trans(old(self).stats, s2, self.stats, 1, 0, 1, 0, 0, 0, 0, 0, 0, 0);
                }
            }
            CacheResult::Miss
        }
    }

    fn insert(&mut self, req: &Request) -> (r: InsertResult)
        ensures
            !old(self).spec_holds(req.obj_id) && req.obj_size <= old(self).spec_capacity() ==> final(self).spec_size() <= final(self).spec_capacity(),
            final(self).cap() == old(self).cap(),
            old(self).sizes().contains_key(req.obj_id) ==> r == InsertResult::Inserted && final(self).order()
                == old(self).order() && final(self).sizes() == old(self).sizes() && final(self).counters()
                == old(self).counters(),
            !old(self).sizes().contains_key(req.obj_id) && req.obj_size > old(self).cap() ==> r
                == InsertResult::Rejected && final(self).order() == old(self).order() && final(self).sizes()
                == old(self).sizes() && final(self).counters() == old(self).counters(),
            !old(self).sizes().contains_key(req.obj_id) && req.obj_size <= old(self).cap() ==> ({
                let (order, sizes, k) = admit_at_back(
                    old(self).order(),
                    old(self).sizes(),
                    old(self).cap(),
                    req.obj_id,
                    req.obj_size,
                );
                &&& r == insert_outcome(old(self).order(), k)
                &&& final(self).order() == order
                &&& final(self).sizes() == sizes
                &&& old(self).counters().advanced(final(self).counters(), 0, 0, 0, k, 1)
            }),
    {
        // Check if object already exists
        if self.objects.contains_key(&req.obj_id) {
            return InsertResult::Inserted;
        }
        // Check if object can fit
        if req.obj_size as u64 > self.capacity {
            return InsertResult::Rejected;
        }
        let ghost q0 = self.queue@;
        let ghost t0 = self.objects@;
        let ghost s0 = self.stats;
        let ghost w0 = table_weight(t0, obj_bytes());
        let ghost room = self.capacity - req.obj_size;
        let ghost mut j: nat = 0;
        proof {
            lemma_restrict_self(q0, t0);
            lemma_evictions_bound(q0, w0, room);
            assert(q0.subrange(0, q0.len() as int) =~= q0);
            lemma_advanced_refl(s0);
        }
        // Evict until there's space
        let mut evicted_id: Option<ObjectId> = None;
        while self.used + req.obj_size as u64 > self.capacity && self.queue.len() > 0
            invariant
                self.well_formed(),
                self.capacity == old(self).capacity,
                req.obj_size <= self.capacity,
                self.used + req.obj_size <= u64::MAX,
                !t0.contains_key(req.obj_id),
                j <= q0.len(),
                self.queue@ == q0.subrange(j as int, q0.len() as int),
                self.objects@ == t0.restrict(self.queue@.to_set()),
                evictions_to_fit(q0, w0, room) == j + evictions_to_fit(self.queue@, w0, room),
                s0.advanced(self.stats, 0, 0, 0, j, 0),
                w0 == table_weight(t0, obj_bytes()),
                room == self.capacity - req.obj_size,
                j == 0 ==> evicted_id is None,
                j > 0 ==> evicted_id == Some(q0[j - 1]),
            decreases self.queue@.len(),
        {
            let ghost q = self.queue@;
            let ghost s1 = self.stats;
            proof {
                assert forall|x: int| 0 <= x < q.len() implies table_weight(
                    self.objects@,
                    obj_bytes(),
                )(#[trigger] q[x]) == w0(q[x]) by {
                    assert(q.to_set().contains(q[x]));
                }
                lemma_sum_same_weights(q, table_weight(self.objects@, obj_bytes()), w0);
                assert(q.subrange(1, q.len() as int) =~= q0.subrange((j + 1) as int, q0.len() as int));
            }
            if let Some(id) = self.evict() {
                evicted_id = Some(id);
            }
            proof {
                lemma_advanced_trans(s0, s1, self.stats, 0, 0, 0, j, 0, 0, 0, 0, 1, 0);
                j = j + 1;
            }
        }
        proof {
            let q = self.queue@;
            assert forall|x: int| 0 <= x < q.len() implies table_weight(self.objects@, obj_bytes())(
                #[trigger] q[x],
            ) == w0(q[x]) by {
                assert(q.to_set().contains(q[x]));
            }
            lemma_sum_same_weights(q, table_weight(self.objects@, obj_bytes()), w0);
            assert(!self.objects@.contains_key(req.obj_id));
            lemma_table_push(q, self.objects@, obj_bytes(), req.obj_id, req.obj_size);
        }
        // Insert the object
        self.objects.insert(req.obj_id, req.obj_size);
        self.queue.push_back(req.obj_id);
        self.used += req.obj_size as u64;
        let ghost s2 = self.stats;
        self.stats.inc_insert();
        proof {
            lemma_advanced_trans(s0, s2, self.stats, 0, 0, 0, j, 0, 0, 0, 0, 0, 1);
        }
        if let Some(evicted) = evicted_id {
            InsertResult::Evicted { evicted_id: evicted }
        } else {
            InsertResult::Inserted
        }
    }

    fn evict(&mut self) -> (r: Option<ObjectId>)
        ensures
            final(self).cap() == old(self).cap(),
            old(self).order().len() == 0 ==> r is None && final(self).order() == old(self).order()
                && final(self).sizes() == old(self).sizes() && final(self).counters() == old(self).counters(),
            old(self).order().len() > 0 ==> r == Some(old(self).order()[0]) && final(self).order()
                == old(self).order().remove(0) && final(self).sizes() == old(self).sizes().remove(
                old(self).order()[0],
            ) && old(self).counters().advanced(final(self).counters(), 0, 0, 0, 1, 0)
                && final(self).used() == old(self).used() - old(self).sizes()[old(self).order()[0]],
    {
        let ghost q = self.queue@;
        let ghost t = self.objects@;
        if let Some(obj_id) = self.queue.pop_front() {
            proof {
                lemma_pop_front_is_remove(q);
                lemma_table_remove(q, t, obj_bytes(), 0);
            }
            if let Some(obj_size) = self.objects.remove(&obj_id) {
                self.used -= obj_size as u64;
                self.stats.inc_evict();
                return Some(obj_id);
            }
        }
        None
    }

    fn remove(&mut self, obj_id: ObjectId) -> (r: bool)
        ensures
            final(self).cap() == old(self).cap(),
            final(self).counters() == old(self).counters(),
            r == old(self).sizes().contains_key(obj_id),
            r ==> final(self).order() == old(self).order().remove(old(self).order().index_of(obj_id))
                && final(self).sizes() == old(self).sizes().remove(obj_id),
            !r ==> final(self).order() == old(self).order() && final(self).sizes() == old(self).sizes(),
    {
        let ghost q = self.queue@;
        let ghost t = self.objects@;
        if let Some(obj_size) = self.objects.remove(&obj_id) {
            let ghost i = lemma_lists_index(q, t.dom(), obj_id);
            proof {
                lemma_table_remove(q, t, obj_bytes(), i);
                lemma_index_of_unique(q, i);
            }
            self.used -= obj_size as u64;
            if let Some(pos) = position_of(&self.queue, obj_id) {
                proof {
                    assert(q[pos as int] == q[i]);
                }
                self.queue.remove(pos);
            } else {
                proof {
                    assert(q[i] == obj_id);
                }
            }
            true
        } else {
            assert(self.objects@ =~= t);
            false
        }
    }

    fn clear(&mut self)
        ensures
            final(self).order() == Seq::<ObjectId>::empty(),
            final(self).counters() == old(self).counters(),
    {
        self.objects.clear();
        self.queue.clear();
        self.used = 0;
        proof {
            assert(self.objects@.dom() =~= Set::<u64>::empty());
        }
    }

    fn size(&self) -> (r: u64) {
        self.used
    }

    fn capacity(&self) -> (r: u64) {
        self.capacity
    }

    fn len(&self) -> (r: usize) {
        proof {
            lemma_lists_len(self.queue@, self.objects@.dom());
        }
        self.objects.len()
    }

    fn stats(&self) -> (r: &CacheStats) {
        &self.stats
    }

    fn reset_stats(&mut self)
        ensures
            final(self).order() == old(self).order(),
            final(self).sizes() == old(self).sizes(),
    {
        self.stats.reset();
    }
}

} // verus!
