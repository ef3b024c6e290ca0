//! Random cache implementation
//!
//! Random evicts an object chosen uniformly at random when the cache is full.
use rand::seq::SliceRandom;
use vstd::prelude::*;

use super::clock::{slot_bytes, ClockSlot};
use super::table::{clear_table, table_contents, ObjectTable};
use crate::cache::{Cache, CacheModel, CacheResult, InsertResult};
use crate::ordered::{
    lemma_index_of_unique, lemma_lists_index, lemma_lists_len, lemma_table_push,
    lemma_table_remove, lists_exactly, position_in_vec, sum_over, table_weight,
};
use crate::request::Request;
use crate::stats::{lemma_advanced_refl, lemma_advanced_trans, CacheStats};
use crate::ObjectId;

verus! {

/// Calls rand's `SliceRandom::choose` on `keys` with the thread-local generator of
/// `rand::thread_rng`: `None` for no keys, else one of them (which one is chance).
#[verifier::external_body]
fn choose_key(keys: &Vec<ObjectId>) -> (r: Option<ObjectId>)
    ensures
        match r {
            Some(v) => keys@.contains(v),
            None => keys@.len() == 0,
        },
{
    keys.choose(&mut rand::thread_rng()).copied()
}

/// `kept` is what eviction can leave of `keys` when it stops as soon as the sizes
/// sum to at most `room` or nothing is left: entries of `table`, each once, summing
/// to at most `room` (unless none is left), and, if anything was evicted, not
/// summing to at most `room` before the last eviction.
pub open spec fn room_made(
    kept: Seq<ObjectId>,
    kept_table: Map<ObjectId, ClockSlot>,
    table: Map<ObjectId, ClockSlot>,
    room: int,
) -> bool {
    &&& lists_exactly(kept, kept_table.dom())
    &&& forall|k: ObjectId| #[trigger] kept_table.contains_key(k) ==> table.contains_key(k) && kept_table[k] == table[k]
    &&& kept.len() == 0 || sum_over(kept, table_weight(kept_table, slot_bytes())) <= room
    // eviction stopped as soon as the sizes fitted: the last evicted did not fit
    &&& (exists|e: ObjectId| #[trigger] table.contains_key(e) && !kept_table.contains_key(e))
        ==> exists|v: ObjectId| #[trigger] table.contains_key(v) && !kept_table.contains_key(v)
            && sum_over(kept, table_weight(kept_table, slot_bytes())) + table[v].0 > room
}

/// Random cache implementation
pub struct RandomCache {
    capacity: u64,
    used: u64,
    objects: ObjectTable,
    keys: Vec<ObjectId>,
    stats: CacheStats,
}

impl RandomCache {
    /// The held ids, in the order they came in.
    pub closed spec fn order(&self) -> Seq<ObjectId> {
        self.keys@
    }

    /// Each held object's slot (its size first).
    pub closed spec fn slots(&self) -> Map<ObjectId, ClockSlot> {
        table_contents(self.objects)
    }

    pub closed spec fn cap(&self) -> nat {
        self.capacity as nat
    }

    pub closed spec fn occupied(&self) -> nat {
        self.used as nat
    }

    pub closed spec fn counters(&self) -> CacheStats {
        self.stats
    }

    pub open spec fn well_formed(&self) -> bool {
        &&& lists_exactly(self.order(), self.slots().dom())
        &&& self.occupied() == sum_over(self.order(), table_weight(self.slots(), slot_bytes()))
    }

    /// Create a new Random cache with the given capacity in bytes
    pub fn new(capacity: u64) -> (c: Self)
        ensures
            c.well_formed(),
            c.order().len() == 0,
            c.cap() == capacity,
            c.counters().is_zero(),
    {
        let c = RandomCache {
            capacity,
            used: 0,
            objects: ObjectTable::new(),
            keys: Vec::new(),
            stats: CacheStats::new(),
        };
        proof {
            assert(c.slots().dom() =~= Set::<u64>::empty());
        }
        c
    }

    /// Evict the held object `victim`.
    pub fn evict_key(&mut self, victim: ObjectId) -> (r: Option<ObjectId>)
        requires
            old(self).well_formed(),
            old(self).slots().contains_key(victim),
        ensures
            final(self).well_formed(),
            r == Some(victim),
            final(self).order() == old(self).order().remove(old(self).order().index_of(victim)),
            final(self).slots() == old(self).slots().remove(victim),
            final(self).cap() == old(self).cap(),
            final(self).occupied() + old(self).slots()[victim].0 == old(self).occupied(),
            old(self).counters().advanced(final(self).counters(), 0, 0, 0, 1, 0),
    {
        let ghost q = self.keys@;
        let ghost t = self.slots();
        let ghost i = lemma_lists_index(q, t.dom(), victim);
        proof {
            lemma_table_remove(q, t, slot_bytes(), i);
            lemma_index_of_unique(q, i);
        }
        // Find and remove the key
        if let Some(pos) = position_in_vec(&self.keys, victim) {
            let obj_id = self.keys.remove(pos);
            if let Some(slot) = self.objects.remove(obj_id) {
                self.used -= slot.0 as u64;
                self.stats.inc_evict();
                return Some(obj_id);
            }
        }
        proof {
            assert(q[i] == victim);
        }
        None
    }
}

impl CacheModel for RandomCache {
    open spec fn inv(&self) -> bool {
        self.well_formed()
    }

    open spec fn get_admits(&self, req: Request) -> bool {
        self.insert_admits(req)
    }

    open spec fn insert_admits(&self, req: Request) -> bool {
        self.slots().contains_key(req.obj_id) || self.occupied() + req.obj_size <= u64::MAX
    }

    open spec fn remove_admits(&self, obj_id: ObjectId) -> bool {
        true
    }

    open spec fn spec_size(&self) -> nat {
        self.occupied()
    }

    open spec fn spec_capacity(&self) -> nat {
        self.cap()
    }

    open spec fn spec_len(&self) -> nat {
        self.order().len()
    }

    open spec fn spec_stats(&self) -> CacheStats {
        self.counters()
    }

    open spec fn spec_holds(&self, id: ObjectId) -> bool {
        self.slots().contains_key(id)
    }

    open spec fn spec_size_of(&self, id: ObjectId) -> u32 {
        self.slots()[id].0
    }
}

impl Cache for RandomCache {
    fn get(&mut self, req: &Request) -> (r: CacheResult)
        ensures
            final(self).cap() == old(self).cap(),
            old(self).slots().contains_key(req.obj_id) ==> {
                &&& r == CacheResult::Hit { obj_size: old(self).slots()[req.obj_id].0 }
                &&& final(self).order() == old(self).order()
                &&& final(self).slots() == old(self).slots()
                &&& old(self).counters().advanced(final(self).counters(), 1, 1, 0, 0, 0)
            },
            !old(self).slots().contains_key(req.obj_id) ==> {
                let k = (old(self).order().len() - (final(self).order().len() - if req.obj_size <= old(self).cap() { 1int } else { 0int })) as nat;
                &&& r == CacheResult::Miss
                &&& req.obj_size > old(self).cap() ==> final(self).order().len() == 0
                    && final(self).slots().dom().is_empty()
                    && old(self).counters().advanced(final(self).counters(), 1, 0, 1, k, 0)
                &&& req.obj_size <= old(self).cap() ==> {
                    &&& final(self).order().last() == req.obj_id
                    &&& final(self).slots().contains_key(req.obj_id)
                    &&& final(self).slots()[req.obj_id] == (req.obj_size, 0u64, 0u64)
                    &&& room_made(final(self).order().drop_last(), final(self).slots().remove(req.obj_id), old(self).slots(), old(self).cap() - req.obj_size)
                    &&& old(self).counters().advanced(final(self).counters(), 1, 0, 1, k, 1)
                }
            },
    {
        let ghost s0 = self.stats;
        self.stats.inc_req();
        let ghost s1 = self.stats;
        if let Some(slot) = self.objects.get(req.obj_id) {
            self.stats.inc_hit();
            proof {
                lemma_advanced_trans(s0, s1, self.stats, 1, 0, 0, 0, 0, 0, 1, 0, 0, 0);
            }
            CacheResult::Hit { obj_size: slot.0 }
        } else {
            self.stats.inc_miss();
            let ghost s2 = self.stats;
            self.insert(req);
            proof {
                lemma_advanced_trans(s0, s1, s2, 1, 0, 0, 0, 0, 0, 0, 1, 0, 0);
                let k = (old(self).order().len() - (self.order().len() - if req.obj_size <= old(self).cap() { 1int } else { 0int })) as nat;
                if req.obj_size <= old(self).cap() {
                    lemma_advanced_trans(s0, s2, self.stats, 1, 0, 1, 0, 0, 0, 0, 0, k, 1);
                } else {
                    lemma_advanced_trans(s0, s2, self.stats, 1, 0, 1, 0, 0, 0, 0, 0, k, 0);
                }
            }
            CacheResult::Miss
        }
    }

    /// Evictions pick their victims at random, so the contract says what holds of
    /// every choice: what is kept fits, and each eviction counts once.
    fn insert(&mut self, req: &Request) -> (r: InsertResult)
        ensures
            !old(self).spec_holds(req.obj_id) && req.obj_size <= old(self).spec_capacity() ==> final(self).spec_size() <= final(self).spec_capacity(),
            final(self).cap() == old(self).cap(),
            old(self).slots().contains_key(req.obj_id) ==> {
                &&& r == InsertResult::Inserted
                &&& final(self).order() == old(self).order()
                &&& final(self).slots() == old(self).slots()
                &&& final(self).counters() == old(self).counters()
            },
            !old(self).slots().contains_key(req.obj_id) ==> {
                let k = (old(self).order().len() - (final(self).order().len() - if req.obj_size <= old(self).cap() { 1int } else { 0int })) as nat;
                &&& req.obj_size > old(self).cap() ==> r == InsertResult::Rejected && final(self).order().len() == 0
                    && final(self).slots().dom().is_empty()
                    && old(self).counters().advanced(final(self).counters(), 0, 0, 0, k, 0)
                &&& req.obj_size <= old(self).cap() ==> {
                    &&& final(self).order().last() == req.obj_id
                    &&& final(self).slots().contains_key(req.obj_id)
                    &&& final(self).slots()[req.obj_id] == (req.obj_size, 0u64, 0u64)
                    &&& room_made(final(self).order().drop_last(), final(self).slots().remove(req.obj_id), old(self).slots(), old(self).cap() - req.obj_size)
                    &&& old(self).counters().advanced(final(self).counters(), 0, 0, 0, k, 1)
                    &&& match r {
                        InsertResult::Evicted { evicted_id } => {
                            &&& old(self).slots().contains_key(evicted_id)
                            &&& !final(self).slots().contains_key(evicted_id)
                            &&& k > 0
                            // eviction stopped as soon as the object fitted, after this one
                            &&& final(self).occupied() + old(self).slots()[evicted_id].0 > old(self).cap()
                        },
                        InsertResult::Inserted => k == 0,
                        InsertResult::Rejected => false,
                    }
                }
            },
    {
        // Check if object already exists
        if self.objects.contains_key(req.obj_id) {
            return InsertResult::Inserted;
        }
        let ghost room = self.capacity - req.obj_size;
        let ghost t0 = self.slots();
        let ghost n0 = self.order().len();
        let ghost s0 = self.stats;
        proof {
            lemma_advanced_refl(s0);
            lemma_lists_len(self.order(), t0.dom());
        }
        // Evict objects if necessary to make room
        let mut evicted_id: Option<ObjectId> = None;
        while self.used + req.obj_size as u64 > self.capacity && self.keys.len() > 0
            invariant
                self.well_formed(),
                self.capacity == old(self).capacity,
                self.used + req.obj_size <= u64::MAX,
                !self.slots().contains_key(req.obj_id),
                room == self.capacity - req.obj_size,
                t0 == old(self).slots(),
                n0 == old(self).order().len(),
                self.order().len() <= n0,
                forall|k: ObjectId| #[trigger] self.slots().contains_key(k) ==> t0.contains_key(k) && self.slots()[k] == t0[k],
                self.order().len() == n0 <==> evicted_id is None,
                evicted_id matches Some(v) ==> t0.contains_key(v) && !self.slots().contains_key(v),
                evicted_id matches Some(v) ==> self.used + t0[v].0 + req.obj_size > self.capacity,
                evicted_id is None ==> self.slots() == t0,
                s0.advanced(self.stats, 0, 0, 0, (n0 - self.order().len()) as nat, 0),
            decreases self.keys@.len(),
        {
            let ghost s1 = self.stats;
            let ghost before = self.order().len();
            if let Some(evict_id) = self.evict() {
                evicted_id = Some(evict_id);
            }
            proof {
                lemma_advanced_trans(s0, s1, self.stats, 0, 0, 0, (n0 - before) as nat, 0, 0, 0, 0, 1, 0);
            }
        }
        // Check if object can fit
        if req.obj_size as u64 > self.capacity {
            proof {
                lemma_lists_len(self.order(), self.slots().dom());
                assert(self.slots().dom() =~= Set::<u64>::empty());
            }
            return InsertResult::Rejected;
        }
        let ghost kept = self.order();
        let ghost kept_table = self.slots();
        proof {
            lemma_table_push(self.order(), self.slots(), slot_bytes(), req.obj_id, (req.obj_size, 0u64, 0u64));
        }
        // Insert the object
        self.objects.insert(req.obj_id, (req.obj_size, 0, 0));
        self.keys.push(req.obj_id);
        self.used += req.obj_size as u64;
        let ghost s2 = self.stats;
        self.stats.inc_insert();
        proof {
            lemma_advanced_trans(s0, s2, self.stats, 0, 0, 0, (n0 - kept.len()) as nat, 0, 0, 0, 0, 0, 1);
            assert(self.order().drop_last() =~= kept);
            assert(self.slots().remove(req.obj_id) =~= kept_table);
            if let Some(v) = evicted_id {
                assert(t0.contains_key(v) && !kept_table.contains_key(v));
            }
        }
        if let Some(evicted) = evicted_id {
            InsertResult::Evicted { evicted_id: evicted }
        } else {
            InsertResult::Inserted
        }
    }

    /// Evict an object chosen at random.
    fn evict(&mut self) -> (r: Option<ObjectId>)
        ensures
            final(self).cap() == old(self).cap(),
            old(self).order().len() == 0 ==> r is None && final(self).order() == old(self).order()
                && final(self).slots() == old(self).slots() && final(self).counters() == old(self).counters(),
            old(self).order().len() > 0 ==> (r matches Some(v) && {
                &&& old(self).slots().contains_key(v)
                &&& final(self).order() == old(self).order().remove(old(self).order().index_of(v))
                &&& final(self).slots() == old(self).slots().remove(v)
                &&& final(self).occupied() + old(self).slots()[v].0 == old(self).occupied()
                &&& old(self).counters().advanced(final(self).counters(), 0, 0, 0, 1, 0)
            }),
    {
        if self.keys.len() == 0 {
            return None;
        }
        // Select a random key
        match choose_key(&self.keys) {
            Some(index) => {
                proof {
                    let i = choose|i: int| 0 <= i < self.keys@.len() && self.keys@[i] == index;
                    assert(self.slots().contains_key(self.keys@[i]));
                }
                self.evict_key(index)
            },
            None => {
                proof {
                    assert(false);
                }
                None
            },
        }
    }

    fn remove(&mut self, obj_id: ObjectId) -> (r: bool)
        ensures
            final(self).cap() == old(self).cap(),
            final(self).counters() == old(self).counters(),
            r == old(self).slots().contains_key(obj_id),
            r ==> final(self).order() == old(self).order().remove(old(self).order().index_of(obj_id))
                && final(self).slots() == old(self).slots().remove(obj_id),
            !r ==> final(self).order() == old(self).order() && final(self).slots() == old(self).slots(),
    {
        let ghost q = self.keys@;
        let ghost t = self.slots();
        if let Some(slot) = self.objects.remove(obj_id) {
            let ghost i = lemma_lists_index(q, t.dom(), obj_id);
            proof {
                lemma_table_remove(q, t, slot_bytes(), i);
                lemma_index_of_unique(q, i);
            }
            self.used -= slot.0 as u64;
            // Remove from keys
            if let Some(pos) = position_in_vec(&self.keys, obj_id) {
                self.keys.remove(pos);
            }
            true
        } else {
            proof {
                assert(self.slots() =~= t);
            }
            false
        }
    }

    fn clear(&mut self)
        ensures
            final(self).order().len() == 0,
            final(self).counters() == old(self).counters(),
    {
        clear_table(&mut self.objects);
        self.keys.clear();
        self.used = 0;
        proof {
            assert(self.slots() =~= Map::<ObjectId, ClockSlot>::empty());
        }
    }

    fn size(&self) -> (r: u64) {
        self.used
    }

    fn capacity(&self) -> (r: u64) {
        self.capacity
    }

    fn len(&self) -> (r: usize) {
        proof {
            lemma_lists_len(self.keys@, self.slots().dom());
        }
        self.objects.len()
    }

    fn stats(&self) -> (r: &CacheStats) {
        &self.stats
    }

    fn reset_stats(&mut self)
        ensures
            final(self).order() == old(self).order(),
            final(self).slots() == old(self).slots(),
    {
        self.stats.reset();
    }
}

} // verus!
