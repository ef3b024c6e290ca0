//! FIFO (First-In-First-Out) cache.
use std::collections::HashMap;
use std::collections::VecDeque;
use vstd::prelude::*;

use super::{bytes, counted, with_evictions, zero_stats, Cache, CacheStats, ObjId, ObjSize, Request};
use crate::ordered::{
    evictions_to_fit, lemma_evictions_bound, lemma_index_of_unique, lemma_lists_index, lemma_lists_len,
    lemma_pop_front_is_remove, lemma_restrict_self, lemma_sum_same_weights, lemma_table_push,
    lemma_table_remove, lists_exactly, position_of, sum_over, table_weight,
};

verus! {

broadcast use vstd::std_specs::hash::group_hash_axioms;

/// FIFO (First-In-First-Out) cache implementation
pub struct FifoCache {
    cache_size: u64,
    occupied_size: u64,
    objects: HashMap<ObjId, ObjSize>,
    queue: VecDeque<ObjId>,
    stats: CacheStats,
}

impl FifoCache {
    /// Ids held, oldest first.
    pub closed spec fn order(&self) -> Seq<ObjId> {
        self.queue@
    }

    /// Size of each held object.
    pub closed spec fn sizes(&self) -> Map<ObjId, ObjSize> {
        self.objects@
    }

    pub closed spec fn capacity(&self) -> nat {
        self.cache_size as nat
    }

    pub closed spec fn stats(&self) -> CacheStats {
        self.stats
    }

    /// The queue lists exactly the held objects, and the occupied bytes are their sizes summed.
    pub open spec fn well_formed(&self) -> bool {
        &&& lists_exactly(self.order(), self.sizes().dom())
        &&& self.occupied() == sum_over(self.order(), table_weight(self.sizes(), bytes()))
    }

    pub closed spec fn occupied(&self) -> nat {
        self.occupied_size as nat
    }

    pub fn new(cache_size: u64) -> (c: Self)
        ensures
            c.well_formed(),
            c.order() == Seq::<ObjId>::empty(),
            c.capacity() == cache_size,
            c.stats() == zero_stats(),
    {
        let c = FifoCache {
            cache_size,
            occupied_size: 0,
            objects: HashMap::new(),
            queue: VecDeque::new(),
            stats: CacheStats::default(),
        };
        proof {
            assert(c.objects@.dom() =~= Set::<u64>::empty());
        }
        c
    }

    /// Whether the object with this id is held (`objects.contains_key` in tests).
    pub fn contains(&self, obj_id: ObjId) -> (r: bool)
        ensures
            r == self.sizes().contains_key(obj_id),
    {
        self.objects.contains_key(&obj_id)
    }
}

impl Cache for FifoCache {
    open spec fn inv(&self) -> bool {
        self.well_formed()
    }

    open spec fn spec_occupied(&self) -> nat {
        self.occupied()
    }

    open spec fn spec_capacity(&self) -> nat {
        self.capacity()
    }

    open spec fn spec_n_obj(&self) -> nat {
        self.order().len()
    }

    open spec fn spec_holds(&self, id: ObjId) -> bool {
        self.sizes().contains_key(id)
    }

    open spec fn spec_stats(&self) -> CacheStats {
        self.stats()
    }

    open spec fn get_step(&self, after: Self, req: Request, hit: bool) -> bool {
        &&& after.capacity() == self.capacity()
        &&& hit == self.sizes().contains_key(req.obj_id)
        &&& hit ==> after.order() == self.order() && after.sizes() == self.sizes()
            && after.stats() == counted(self.stats(), true)
        &&& !hit ==> ({
            let k = evictions_to_fit(self.order(), table_weight(self.sizes(), bytes()), self.capacity() - req.obj_size);
            let kept = self.order().subrange(k as int, self.order().len() as int);
            &&& after.order() == kept.push(req.obj_id)
            &&& after.sizes() == self.sizes().restrict(kept.to_set()).insert(req.obj_id, req.obj_size)
            &&& after.stats() == with_evictions(counted(self.stats(), false), k)
        })
    }

    open spec fn reset_step(&self, after: Self) -> bool {
        &&& after.order() == self.order()
        &&& after.sizes() == self.sizes()
        &&& after.capacity() == self.capacity()
        &&& after.stats() == zero_stats()
    }

    fn get(&mut self, req: &Request) -> (hit: bool)
        ensures
            final(self).capacity() == old(self).capacity(),
            hit ==> final(self).order() == old(self).order() && final(self).sizes() == old(self).sizes() && final(self).stats() == counted(old(self).stats(), true),
            !hit ==> ({
                let k = evictions_to_fit(
                    old(self).order(),
                    table_weight(old(self).sizes(), bytes()),
                    old(self).capacity() - req.obj_size,
                );
                let kept = old(self).order().subrange(k as int, old(self).order().len() as int);
                &&& final(self).order() == kept.push(req.obj_id)
                &&& final(self).sizes() == old(self).sizes().restrict(kept.to_set()).insert(
                    req.obj_id,
                    req.obj_size,
                )
                &&& final(self).stats() == with_evictions(counted(old(self).stats(), false), k)
            }),
    {
        self.stats.n_req += 1;
        if self.objects.contains_key(&req.obj_id) {
            self.stats.n_hit += 1;
            true
        } else {
            self.stats.n_miss += 1;
            let ghost q0 = self.queue@;
            let ghost t0 = self.objects@;
            let ghost s0 = self.stats;
            let ghost w0 = table_weight(t0, bytes());
            let ghost room = self.cache_size - req.obj_size;
            let ghost mut j: nat = 0;
            proof {
                lemma_restrict_self(q0, t0);
                lemma_evictions_bound(q0, w0, room);
                assert(q0.subrange(0, q0.len() as int) =~= q0);
            }
            while !self.can_insert(req.obj_size)
                invariant
                    self.well_formed(),
                    self.cache_size == old(self).cache_size,
                    req.obj_size <= self.cache_size,
                    self.occupied_size + req.obj_size <= u64::MAX,
                    !t0.contains_key(req.obj_id),
                    j <= q0.len(),
                    self.queue@ == q0.subrange(j as int, q0.len() as int),
                    self.objects@ == t0.restrict(self.queue@.to_set()),
                    evictions_to_fit(q0, w0, room) == j + evictions_to_fit(self.queue@, w0, room),
                    self.stats == with_evictions(s0, j),
                    s0.n_evict + q0.len() < u64::MAX,
                    w0 == table_weight(t0, bytes()),
                    room == self.cache_size - req.obj_size,
                decreases self.queue@.len(),
            {
                let ghost q = self.queue@;
                proof {
                    assert forall|x: int| 0 <= x < q.len() implies table_weight(
                        self.objects@,
                        bytes(),
                    )(#[trigger] q[x]) == w0(q[x]) by {
                        assert(q.to_set().contains(q[x]));
                    }
                    lemma_sum_same_weights(q, table_weight(self.objects@, bytes()), w0);
                    if q.len() == 0 {
                        assert(false);
                    }
                    assert(q.subrange(1, q.len() as int) =~= q0.subrange(
                        (j + 1) as int,
                        q0.len() as int,
                    ));
                }
                self.evict();
                proof {
                    j = j + 1;
                }
            }
            proof {
                let q = self.queue@;
                assert forall|x: int| 0 <= x < q.len() implies table_weight(self.objects@, bytes())(
                    #[trigger] q[x],
                ) == w0(q[x]) by {
                    assert(q.to_set().contains(q[x]));
                }
                lemma_sum_same_weights(q, table_weight(self.objects@, bytes()), w0);
                assert(!self.objects@.contains_key(req.obj_id));
            }
            self.insert(req);
            false
        }
    }

    fn insert(&mut self, req: &Request)
        ensures
            final(self).capacity() == old(self).capacity(),
            final(self).stats() == old(self).stats(),
            old(self).sizes().contains_key(req.obj_id) ==> final(self).order() == old(self).order()
                && final(self).sizes() == old(self).sizes() && final(self).occupied() == old(self).occupied(),
            !old(self).sizes().contains_key(req.obj_id) ==> final(self).occupied() == old(self).occupied() + req.obj_size,
            !old(self).sizes().contains_key(req.obj_id) ==> final(self).order() == old(self).order().push(req.obj_id) && final(self).sizes() == old(self).sizes().insert(
                req.obj_id,
                req.obj_size,
            ),
    {
        if !self.objects.contains_key(&req.obj_id) {
            proof {
                lemma_table_push(
                    self.queue@,
                    self.objects@,
                    bytes(),
                    req.obj_id,
                    req.obj_size,
                );
            }
            self.objects.insert(req.obj_id, req.obj_size);
            self.queue.push_back(req.obj_id);
            self.occupied_size += req.obj_size;
        }
    }

    fn evict(&mut self) -> (r: Option<ObjId>)
        ensures
            final(self).capacity() == old(self).capacity(),
            old(self).order().len() == 0 ==> r is None && final(self).order() == old(self).order()
                && final(self).sizes() == old(self).sizes() && final(self).stats() == old(self).stats(),
            old(self).order().len() > 0 ==> r == Some(old(self).order()[0]) && final(self).order()
                == old(self).order().remove(0) && final(self).sizes() == old(self).sizes().remove(
                old(self).order()[0],
            ) && final(self).stats() == with_evictions(old(self).stats(), 1) && final(self).occupied() == old(self).occupied() - old(self).sizes()[old(self).order()[0]],
    {
        let ghost q = self.queue@;
        let ghost t = self.objects@;
        if let Some(obj_id) = self.queue.pop_front() {
            proof {
                lemma_pop_front_is_remove(q);
                lemma_table_remove(q, t, bytes(), 0);
            }
            if let Some(obj_size) = self.objects.remove(&obj_id) {
                self.occupied_size -= obj_size;
                self.stats.n_evict += 1;
                return Some(obj_id);
            }
        }
        None
    }

    fn remove(&mut self, obj_id: ObjId) -> (removed: bool)
        ensures
            final(self).capacity() == old(self).capacity(),
            final(self).stats() == old(self).stats(),
            removed ==> final(self).order() == old(self).order().remove(
                old(self).order().index_of(obj_id),
            ) && final(self).sizes() == old(self).sizes().remove(obj_id),
            !removed ==> final(self).order() == old(self).order() && final(self).sizes() == old(self).sizes(),
    {
        let ghost q = self.queue@;
        let ghost t = self.objects@;
        if let Some(obj_size) = self.objects.remove(&obj_id) {
            let ghost i = lemma_lists_index(q, t.dom(), obj_id);
            proof {
                lemma_table_remove(q, t, bytes(), i);
                lemma_index_of_unique(q, i);
            }
            self.occupied_size -= obj_size;
            // Remove from queue
            if let Some(pos) = position_of(&self.queue, obj_id) {
                proof {
                    assert(q[pos as int] == q[i]);
                }
                self.queue.remove(pos);
            } else {
                proof {
                    assert(q[i] == obj_id);
                }
            }
            true
        } else {
            assert(self.objects@ =~= t);
            false
        }
    }

    fn get_occupied_byte(&self) -> (r: u64) {
        self.occupied_size
    }

    fn get_n_obj(&self) -> (r: usize) {
        proof {
            lemma_lists_len(self.queue@, self.objects@.dom());
        }
        self.objects.len()
    }

    fn can_insert(&self, obj_size: ObjSize) -> (r: bool) {
        self.occupied_size + obj_size <= self.cache_size
    }

    fn get_stats(&self) -> (r: &CacheStats) {
        &self.stats
    }

    fn reset_stats(&mut self)
        ensures
            final(self).order() == old(self).order(),
            final(self).sizes() == old(self).sizes(),
    {
        self.stats = CacheStats::default();
    }
}

} // verus!
