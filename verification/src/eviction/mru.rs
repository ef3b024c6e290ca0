//! MRU (Most Recently Used) cache implementation
//!
//! MRU evicts the most recently used object, which suits scans and loops.
use std::collections::VecDeque;
use vstd::prelude::*;

use super::clock::{slot_bytes, ClockSlot};
use super::table::{clear_table, table_contents, ObjectTable};
use crate::cache::{Cache, CacheModel, CacheResult, InsertResult};
use crate::ordered::{
    lemma_index_of_unique, lemma_lists_index, lemma_lists_len, lemma_move_to_back,
    lemma_pop_back_is_remove, lemma_table_push, lemma_table_remove, lists_exactly, position_of,
    sum_over, table_weight,
};
use crate::request::Request;
use crate::stats::{lemma_advanced_refl, lemma_advanced_trans, CacheStats};
use crate::ObjectId;

verus! {

/// Evictions from the back of the stack (the most recent) until the sizes left sum
/// to at most `room` or nothing is left: the stack and table left, the number of
/// evictions, and the last evicted id.
pub open spec fn mru_make_room(stack: Seq<ObjectId>, table: Map<ObjectId, ClockSlot>, room: int) -> (Seq<ObjectId>, Map<ObjectId, ClockSlot>, nat, Option<ObjectId>)
    decreases stack.len(),
{
    if stack.len() == 0 || sum_over(stack, table_weight(table, slot_bytes())) <= room {
        (stack, table, 0, None)
    } else {
        let (s, t, k, last) = mru_make_room(stack.drop_last(), table.remove(stack.last()), room);
        (s, t, k + 1, if k == 0 { Some(stack.last()) } else { last })
    }
}

/// `id` moved to the back of the stack (where a held id is taken out first).
pub open spec fn touched(stack: Seq<ObjectId>, id: ObjectId) -> Seq<ObjectId> {
    if stack.contains(id) {
        stack.remove(stack.index_of(id)).push(id)
    } else {
        stack.push(id)
    }
}

pub proof fn lemma_mru_make_room(stack: Seq<ObjectId>, table: Map<ObjectId, ClockSlot>, room: int)
    requires
        lists_exactly(stack, table.dom()),
    ensures
        ({
            let (s, t, k, last) = mru_make_room(stack, table, room);
            &&& lists_exactly(s, t.dom())
            &&& s.len() == 0 || sum_over(s, table_weight(t, slot_bytes())) <= room
            &&& forall|x: ObjectId| #[trigger] t.contains_key(x) ==> table.contains_key(x)
            &&& (k == 0) == (last is None)
        }),
    decreases stack.len(),
{
    if stack.len() == 0 || sum_over(stack, table_weight(table, slot_bytes())) <= room {
    } else {
        lemma_table_remove(stack, table, slot_bytes(), stack.len() - 1);
        lemma_pop_back_is_remove(stack);
        assert(stack.drop_last() =~= stack.remove(stack.len() - 1));
        lemma_mru_make_room(stack.drop_last(), table.remove(stack.last()), room);
    }
}

/// MRU (Most Recently Used) cache implementation
pub struct MruCache {
    capacity: u64,
    used: u64,
    objects: ObjectTable,
    stack: VecDeque<ObjectId>,  // Most recent at back
    stats: CacheStats,
}

impl MruCache {
    /// Ids from least to most recently used.
    pub closed spec fn order(&self) -> Seq<ObjectId> {
        self.stack@
    }

    /// What each held object's slot is (its size first).
    pub closed spec fn slots(&self) -> Map<ObjectId, ClockSlot> {
        table_contents(self.objects)
    }

    pub closed spec fn cap(&self) -> nat {
        self.capacity as nat
    }

    pub closed spec fn occupied(&self) -> nat {
        self.used as nat
    }

    pub closed spec fn counters(&self) -> CacheStats {
        self.stats
    }

    pub open spec fn well_formed(&self) -> bool {
        &&& lists_exactly(self.order(), self.slots().dom())
        &&& self.occupied() == sum_over(self.order(), table_weight(self.slots(), slot_bytes()))
    }

    /// Create a new MRU cache with the given capacity in bytes
    pub fn new(capacity: u64) -> (c: Self)
        ensures
            c.well_formed(),
            c.order().len() == 0,
            c.cap() == capacity,
            c.counters().is_zero(),
    {
        let c = MruCache {
            capacity,
            used: 0,
            objects: ObjectTable::new(),
            stack: VecDeque::new(),
            stats: CacheStats::new(),
        };
        proof {
            assert(c.slots().dom() =~= Set::<u64>::empty());
        }
        c
    }

    /// Move an object to the back (most recently used position)
    fn touch(&mut self, obj_id: ObjectId)
        requires
            old(self).well_formed(),
            old(self).slots().contains_key(obj_id),
        ensures
            final(self).well_formed(),
            final(self).order() == touched(old(self).order(), obj_id),
            final(self).slots() == old(self).slots(),
            final(self).cap() == old(self).cap(),
            final(self).occupied() == old(self).occupied(),
            final(self).counters() == old(self).counters(),
    {
        let ghost q = self.stack@;
        let ghost i = lemma_lists_index(q, self.slots().dom(), obj_id);
        proof {
            lemma_index_of_unique(q, i);
            lemma_move_to_back(q, self.slots(), slot_bytes(), i);
        }
        // Remove from current position
        if let Some(pos) = position_of(&self.stack, obj_id) {
            self.stack.remove(pos);
        }
        // Add to back (most recent)
        self.stack.push_back(obj_id);
    }
}

impl CacheModel for MruCache {
    open spec fn inv(&self) -> bool {
        self.well_formed()
    }

    open spec fn get_admits(&self, req: Request) -> bool {
        self.insert_admits(req)
    }

    open spec fn insert_admits(&self, req: Request) -> bool {
        self.slots().contains_key(req.obj_id) || self.occupied() + req.obj_size <= u64::MAX
    }

    open spec fn remove_admits(&self, obj_id: ObjectId) -> bool {
        true
    }

    open spec fn spec_size(&self) -> nat {
        self.occupied()
    }

    open spec fn spec_capacity(&self) -> nat {
        self.cap()
    }

    open spec fn spec_len(&self) -> nat {
        self.order().len()
    }

    open spec fn spec_stats(&self) -> CacheStats {
        self.counters()
    }

    open spec fn spec_holds(&self, id: ObjectId) -> bool {
        self.slots().contains_key(id)
    }

    open spec fn spec_size_of(&self, id: ObjectId) -> u32 {
        self.slots()[id].0
    }
}

impl Cache for MruCache {
    fn get(&mut self, req: &Request) -> (r: CacheResult)
        ensures
            final(self).cap() == old(self).cap(),
            old(self).slots().contains_key(req.obj_id) ==> {
                &&& r == CacheResult::Hit { obj_size: old(self).slots()[req.obj_id].0 }
                &&& final(self).order() == touched(old(self).order(), req.obj_id)
                &&& final(self).slots() == old(self).slots()
                &&& old(self).counters().advanced(final(self).counters(), 1, 1, 0, 0, 0)
            },
            !old(self).slots().contains_key(req.obj_id) ==> {
                let (s, t, k, _) = mru_make_room(old(self).order(), old(self).slots(), old(self).cap() - req.obj_size);
                &&& r == CacheResult::Miss
                &&& req.obj_size > old(self).cap() ==> final(self).order() == s && final(self).slots() == t
                    && old(self).counters().advanced(final(self).counters(), 1, 0, 1, k, 0)
                &&& req.obj_size <= old(self).cap() ==> final(self).order() == s.push(req.obj_id)
                    && final(self).slots() == t.insert(req.obj_id, (req.obj_size, 0u64, 0u64))
                    && old(self).counters().advanced(final(self).counters(), 1, 0, 1, k, 1)
            },
    {
        let ghost s0 = self.stats;
        self.stats.inc_req();
        let ghost s1 = self.stats;
        if let Some(slot) = self.objects.get(req.obj_id) {
            self.stats.inc_hit();
            self.touch(req.obj_id);
            proof {
                lemma_advanced_trans(s0, s1, self.stats, 1, 0, 0, 0, 0, 0, 1, 0, 0, 0);
            }
            CacheResult::Hit { obj_size: slot.0 }
        } else {
            self.stats.inc_miss();
            let ghost s2 = self.stats;
            self.insert(req);
            proof {
                lemma_advanced_trans(s0, s1, s2, 1, 0, 0, 0, 0, 0, 0, 1, 0, 0);
                let k = mru_make_room(old(self).order(), old(self).slots(), old(self).cap() - req.obj_size).2;
                if req.obj_size <= old(self).cap() {
                    lemma_advanced_trans(s0, s2, self.stats, 1, 0, 1, 0, 0, 0, 0, 0, k, 1);
                } else {
                    lemma_advanced_trans(s0, s2, self.stats, 1, 0, 1, 0, 0, 0, 0, 0, k, 0);
                }
            }
            CacheResult::Miss
        }
    }

    fn insert(&mut self, req: &Request) -> (r: InsertResult)
        ensures
            !old(self).spec_holds(req.obj_id) && req.obj_size <= old(self).spec_capacity() ==> final(self).spec_size() <= final(self).spec_capacity(),
            final(self).cap() == old(self).cap(),
            old(self).slots().contains_key(req.obj_id) ==> {
                &&& r == InsertResult::Inserted
                &&& final(self).order() == touched(old(self).order(), req.obj_id)
                &&& final(self).slots() == old(self).slots()
                &&& final(self).counters() == old(self).counters()
            },
            !old(self).slots().contains_key(req.obj_id) ==> {
                let (s, t, k, last) = mru_make_room(old(self).order(), old(self).slots(), old(self).cap() - req.obj_size);
                &&& req.obj_size > old(self).cap() ==> r == InsertResult::Rejected && final(self).order() == s
                    && final(self).slots() == t && old(self).counters().advanced(final(self).counters(), 0, 0, 0, k, 0)
                &&& req.obj_size <= old(self).cap() ==> final(self).order() == s.push(req.obj_id)
                    && final(self).slots() == t.insert(req.obj_id, (req.obj_size, 0u64, 0u64))
                    && old(self).counters().advanced(final(self).counters(), 0, 0, 0, k, 1)
                    && r == match last {
                        Some(v) => InsertResult::Evicted { evicted_id: v },
                        None => InsertResult::Inserted,
                    }
            },
    {
        // Check if object already exists
        if self.objects.contains_key(req.obj_id) {
            self.touch(req.obj_id);
            return InsertResult::Inserted;
        }
        let ghost room = self.capacity - req.obj_size;
        let ghost target = mru_make_room(self.order(), self.slots(), room);
        let ghost s0 = self.stats;
        let ghost mut j: nat = 0;
        proof {
            lemma_mru_make_room(self.order(), self.slots(), room);
            lemma_advanced_refl(s0);
        }
        // Evict objects if necessary to make room
        let mut evicted_id: Option<ObjectId> = None;
        while self.used + req.obj_size as u64 > self.capacity && self.stack.len() > 0
            invariant
                self.well_formed(),
                self.capacity == old(self).capacity,
                self.used + req.obj_size <= u64::MAX,
                !self.slots().contains_key(req.obj_id),
                room == self.capacity - req.obj_size,
                mru_make_room(self.order(), self.slots(), room).0 == target.0,
                mru_make_room(self.order(), self.slots(), room).1 == target.1,
                mru_make_room(self.order(), self.slots(), room).2 + j == target.2,
                j == 0 ==> evicted_id is None,
                target.3 == (if mru_make_room(self.order(), self.slots(), room).2 > 0 {
                    mru_make_room(self.order(), self.slots(), room).3
                } else {
                    evicted_id
                }),
                (mru_make_room(self.order(), self.slots(), room).2 == 0) == (mru_make_room(self.order(), self.slots(), room).3 is None),
                s0.advanced(self.stats, 0, 0, 0, j, 0),
            decreases self.stack@.len(),
        {
            let ghost q = self.order();
            let ghost t = self.slots();
            let ghost s1 = self.stats;
            proof {
                lemma_table_remove(q, t, slot_bytes(), q.len() - 1);
                lemma_pop_back_is_remove(q);
                assert(q.drop_last() =~= q.remove(q.len() - 1));
                lemma_mru_make_room(q.drop_last(), t.remove(q.last()), room);
            }
            if let Some(evict_id) = self.evict() {
                evicted_id = Some(evict_id);
            }
            proof {
                lemma_advanced_trans(s0, s1, self.stats, 0, 0, 0, j, 0, 0, 0, 0, 1, 0);
                j = j + 1;
            }
        }
        // Check if object can fit
        if req.obj_size as u64 > self.capacity {
            return InsertResult::Rejected;
        }
        proof {
            lemma_table_push(self.order(), self.slots(), slot_bytes(), req.obj_id, (req.obj_size, 0u64, 0u64));
        }
        // Insert the object
        self.objects.insert(req.obj_id, (req.obj_size, 0, 0));
        self.stack.push_back(req.obj_id);
        self.used += req.obj_size as u64;
        let ghost s2 = self.stats;
        self.stats.inc_insert();
        proof {
            lemma_advanced_trans(s0, s2, self.stats, 0, 0, 0, j, 0, 0, 0, 0, 0, 1);
        }
        if let Some(evicted) = evicted_id {
            InsertResult::Evicted { evicted_id: evicted }
        } else {
            InsertResult::Inserted
        }
    }

    fn evict(&mut self) -> (r: Option<ObjectId>)
        ensures
            final(self).cap() == old(self).cap(),
            old(self).order().len() == 0 ==> r is None && final(self).order() == old(self).order()
                && final(self).slots() == old(self).slots() && final(self).counters() == old(self).counters(),
            old(self).order().len() > 0 ==> {
                &&& r == Some(old(self).order().last())
                &&& final(self).order() == old(self).order().drop_last()
                &&& final(self).slots() == old(self).slots().remove(old(self).order().last())
                &&& old(self).counters().advanced(final(self).counters(), 0, 0, 0, 1, 0)
            },
    {
        let ghost q = self.stack@;
        let ghost t = self.slots();
        // Evict from back (most recently used)
        if let Some(obj_id) = self.stack.pop_back() {
            proof {
                lemma_pop_back_is_remove(q);
                lemma_table_remove(q, t, slot_bytes(), q.len() - 1);
                assert(q.drop_last() =~= q.remove(q.len() - 1));
            }
            if let Some(slot) = self.objects.remove(obj_id) {
                self.used -= slot.0 as u64;
                self.stats.inc_evict();
                return Some(obj_id);
            }
        }
        None
    }

    fn remove(&mut self, obj_id: ObjectId) -> (r: bool)
        ensures
            final(self).cap() == old(self).cap(),
            final(self).counters() == old(self).counters(),
            r == old(self).slots().contains_key(obj_id),
            r ==> final(self).order() == old(self).order().remove(old(self).order().index_of(obj_id))
                && final(self).slots() == old(self).slots().remove(obj_id),
            !r ==> final(self).order() == old(self).order() && final(self).slots() == old(self).slots(),
    {
        let ghost q = self.stack@;
        let ghost t = self.slots();
        if let Some(slot) = self.objects.remove(obj_id) {
            let ghost i = lemma_lists_index(q, t.dom(), obj_id);
            proof {
                lemma_table_remove(q, t, slot_bytes(), i);
                lemma_index_of_unique(q, i);
            }
            self.used -= slot.0 as u64;
            // Remove from stack
            if let Some(pos) = position_of(&self.stack, obj_id) {
                self.stack.remove(pos);
            }
            true
        } else {
            proof {
                assert(self.slots() =~= t);
            }
            false
        }
    }

    fn clear(&mut self)
        ensures
            final(self).order().len() == 0,
            final(self).counters() == old(self).counters(),
    {
        clear_table(&mut self.objects);
        self.stack.clear();
        self.used = 0;
        proof {
            assert(self.slots() =~= Map::<ObjectId, ClockSlot>::empty());
        }
    }

    fn size(&self) -> (r: u64) {
        self.used
    }

    fn capacity(&self) -> (r: u64) {
        self.capacity
    }

    fn len(&self) -> (r: usize) {
        proof {
            lemma_lists_len(self.stack@, self.slots().dom());
        }
        self.objects.len()
    }

    fn stats(&self) -> (r: &CacheStats) {
        &self.stats
    }

    fn reset_stats(&mut self)
        ensures
            final(self).order() == old(self).order(),
            final(self).slots() == old(self).slots(),
    {
        self.stats.reset();
    }
}

} // verus!
