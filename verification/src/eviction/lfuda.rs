//! LFUDA (LFU with Dynamic Aging) cache implementation
//!
//! LFUDA adds a cache age to LFU: a new object starts at the age plus one, and
//! each eviction raises the age to the evicted object's key.
use vstd::prelude::*;

use super::clock::{slot_bytes, ClockSlot};
use super::table::{clear_table, lists_entries, table_contents, ObjectTable};
use crate::cache::{Cache, CacheModel, CacheResult, InsertResult};
use crate::ordered::{lemma_lists_len, lemma_table_push, lemma_table_remove, lemma_table_update, lists_exactly, lemma_lists_index, sum_over, table_weight};
use crate::request::Request;
use crate::stats::{lemma_advanced_refl, lemma_advanced_trans, CacheStats};
use crate::ObjectId;

verus! {

/// Index of the first entry with the least key (the second number of the slot).
pub fn first_min_key(entries: &Vec<(ObjectId, ClockSlot)>) -> (r: usize)
    requires
        entries@.len() > 0,
    ensures
        r < entries@.len(),
        forall|i: int| 0 <= i < entries@.len() ==> entries@[r as int].1.1 <= #[trigger] entries@[i].1.1,
        forall|i: int| 0 <= i < r ==> entries@[r as int].1.1 < #[trigger] entries@[i].1.1,
{
    let mut best: usize = 0;
    let mut i: usize = 1;
    while i < entries.len()
        invariant
            0 <= best < i <= entries@.len(),
            forall|j: int| 0 <= j < i ==> entries@[best as int].1.1 <= #[trigger] entries@[j].1.1,
            forall|j: int| 0 <= j < best ==> entries@[best as int].1.1 < #[trigger] entries@[j].1.1,
        decreases entries@.len() - i,
    {
        if entries[i].1.1 < entries[best].1.1 {
            best = i;
        }
        i = i + 1;
    }
    best
}

/// `kept` is left of `table` by evictions of least keys: a part of it, and no
/// evicted entry has a larger key than a kept one.
pub open spec fn evicted_least(kept: Map<ObjectId, ClockSlot>, table: Map<ObjectId, ClockSlot>) -> bool {
    &&& forall|k: ObjectId| #[trigger] kept.contains_key(k) ==> table.contains_key(k) && kept[k] == table[k]
    &&& forall|e: ObjectId, x: ObjectId| #[trigger] table.contains_key(e) && !kept.contains_key(e) && #[trigger] kept.contains_key(x) ==> table[e].1 <= table[x].1
}

/// LFUDA cache implementation
pub struct LfudaCache {
    capacity: u64,
    used: u64,
    objects: ObjectTable,
    age: u64,  // Current cache age
    stats: CacheStats,
    /// The held ids, in the order they came in.
    keys: Ghost<Seq<ObjectId>>,
}

impl LfudaCache {
    /// Each held object's slot: its size and its key (frequency plus age).
    pub closed spec fn slots(&self) -> Map<ObjectId, ClockSlot> {
        table_contents(self.objects)
    }

    pub closed spec fn spec_age(&self) -> u64 {
        self.age
    }

    pub closed spec fn cap(&self) -> nat {
        self.capacity as nat
    }

    pub closed spec fn occupied(&self) -> nat {
        self.used as nat
    }

    pub closed spec fn counters(&self) -> CacheStats {
        self.stats
    }

    /// The held ids, in the order they came in.
    pub closed spec fn order(&self) -> Seq<ObjectId> {
        self.keys@
    }

    pub open spec fn well_formed(&self) -> bool {
        &&& lists_exactly(self.order(), self.slots().dom())
        &&& self.occupied() == sum_over(self.order(), table_weight(self.slots(), slot_bytes()))
    }

    /// Create a new LFUDA cache with the given capacity in bytes
    pub fn new(capacity: u64) -> (c: Self)
        ensures
            c.well_formed(),
            c.slots().dom().is_empty(),
            c.spec_age() == 0,
            c.occupied() == 0,
            c.cap() == capacity,
            c.counters().is_zero(),
    {
        let c = LfudaCache {
            capacity,
            used: 0,
            objects: ObjectTable::new(),
            age: 0,
            stats: CacheStats::new(),
            keys: Ghost(Seq::empty()),
        };
        proof {
            assert(c.slots().dom() =~= Set::<u64>::empty());
        }
        c
    }

    /// The current cache age.
    pub fn age(&self) -> (r: u64)
        ensures
            r == self.spec_age(),
    {
        self.age
    }

    /// The key (frequency plus age) of a held object.
    pub fn frequency(&self, obj_id: ObjectId) -> (r: Option<u64>)
        ensures
            r == (if self.slots().contains_key(obj_id) {
                Some(self.slots()[obj_id].1)
            } else {
                None
            }),
    {
        match self.objects.get(obj_id) {
            Some(slot) => Some(slot.1),
            None => None,
        }
    }

    /// Find the object with minimum key value to evict
    fn find_min_key_object(&self) -> (r: Option<(ObjectId, u64)>)
        ensures
            self.slots().dom().is_empty() ==> r is None,
            !self.slots().dom().is_empty() ==> (r matches Some((v, key)) && {
                &&& self.slots().contains_key(v)
                &&& key == self.slots()[v].1
                &&& forall|x: ObjectId| #[trigger] self.slots().contains_key(x) ==> key <= self.slots()[x].1
            }),
    {
        let entries = self.objects.entries();
        if entries.len() == 0 {
            proof {
                if !self.slots().dom().is_empty() {
                    let k = self.slots().dom().choose();
                    assert(self.slots().contains_key(k));
                }
            }
            return None;
        }
        let best = first_min_key(&entries);
        proof {
            assert forall|x: ObjectId| #[trigger] self.slots().contains_key(x) implies entries@[best as int].1.1 <= self.slots()[x].1 by {
                let i = choose|i: int| 0 <= i < entries@.len() && entries@[i].0 == x;
                assert(self.slots().contains_key(entries@[i].0));
            }
            assert(self.slots().contains_key(entries@[best as int].0));
        }
        Some((entries[best].0, entries[best].1.1))
    }
}

/// What inserting a new object `id` of `size` bytes (at most the capacity) leaves:
/// `k` least keys evicted one at a time until the object fits (and no further), the
/// age raised to the key of the last of them, and the object held with the age plus
/// one as key.
/// When several keys are least, the table's own order picks among them, so this
/// says what holds of every such choice.
pub open spec fn admitted(
    before: Map<ObjectId, ClockSlot>,
    age_before: u64,
    after: Map<ObjectId, ClockSlot>,
    age_after: u64,
    used_after: nat,
    cap: nat,
    id: ObjectId,
    size: u32,
    k: nat,
) -> bool {
    let kept = after.remove(id);
    &&& after.contains_key(id)
    &&& after[id] == (size, (age_after + 1) as u64, 0u64)
    &&& evicted_least(kept, before)
    &&& used_after <= cap
    &&& k == before.len() - kept.len()
    &&& k == 0 ==> age_after == age_before
    &&& k > 0 ==> exists|v: ObjectId| #[trigger] before.contains_key(v) && !kept.contains_key(v)
        && age_after == before[v].1
        // eviction stopped as soon as the object fitted, after `v`, the last evicted
        && used_after + before[v].0 > cap
        && forall|e: ObjectId| #[trigger] before.contains_key(e) && !kept.contains_key(e) ==> before[e].1 <= before[v].1
    &&& forall|x: ObjectId| #[trigger] kept.contains_key(x) && k > 0 ==> age_after <= kept[x].1
}

impl LfudaCache {
    /// Add `obj_id`, not held, with `slot` to the table and to the list of ids.
    fn add(&mut self, obj_id: ObjectId, slot: ClockSlot)
        requires
            old(self).well_formed(),
            !old(self).slots().contains_key(obj_id),
            old(self).occupied() + slot.0 <= u64::MAX,
        ensures
            final(self).well_formed(),
            final(self).slots() == old(self).slots().insert(obj_id, slot),
            final(self).order() == old(self).order().push(obj_id),
            final(self).occupied() == old(self).occupied() + slot.0,
            final(self).cap() == old(self).cap(),
            final(self).spec_age() == old(self).spec_age(),
            final(self).counters() == old(self).counters(),
    {
        proof {
            lemma_table_push(self.order(), self.slots(), slot_bytes(), obj_id, slot);
        }
        self.objects.insert(obj_id, slot);
        self.keys = Ghost(self.keys@.push(obj_id));
        self.used += slot.0 as u64;
    }

    /// Give the held `obj_id` the key `key`.
    fn set_key(&mut self, obj_id: ObjectId, slot: ClockSlot, key: u64)
        requires
            old(self).well_formed(),
            old(self).slots().contains_key(obj_id),
            old(self).slots()[obj_id] == slot,
        ensures
            final(self).well_formed(),
            final(self).slots() == old(self).slots().insert(obj_id, (slot.0, key, slot.2)),
            final(self).occupied() == old(self).occupied(),
            final(self).cap() == old(self).cap(),
            final(self).spec_age() == old(self).spec_age(),
            final(self).counters() == old(self).counters(),
    {
        proof {
            lemma_table_update(self.order(), self.slots(), slot_bytes(), obj_id, (slot.0, key, slot.2));
        }
        self.objects.insert(obj_id, (slot.0, key, slot.2));
    }

    /// Drop the held `obj_id` from the table and the list of ids; gives its size.
    fn drop_key(&mut self, obj_id: ObjectId) -> (r: Option<u32>)
        requires
            old(self).well_formed(),
        ensures
            final(self).well_formed(),
            final(self).slots() == old(self).slots().remove(obj_id),
            old(self).slots().contains_key(obj_id) ==> r == Some(old(self).slots()[obj_id].0)
                && final(self).occupied() + old(self).slots()[obj_id].0 == old(self).occupied(),
            !old(self).slots().contains_key(obj_id) ==> r is None && final(self).occupied() == old(self).occupied(),
            final(self).cap() == old(self).cap(),
            final(self).spec_age() == old(self).spec_age(),
            final(self).counters() == old(self).counters(),
    {
        let ghost q = self.order();
        let ghost t = self.slots();
        if let Some(slot) = self.objects.remove(obj_id) {
            let ghost i = lemma_lists_index(q, t.dom(), obj_id);
            proof {
                lemma_table_remove(q, t, slot_bytes(), i);
                assert(q[i] == obj_id);
            }
            self.keys = Ghost(q.remove(i));
            self.used -= slot.0 as u64;
            Some(slot.0)
        } else {
            proof {
                assert(self.slots() =~= t.remove(obj_id));
                assert(self.slots() =~= t);
            }
            None
        }
    }
}

impl CacheModel for LfudaCache {
    open spec fn inv(&self) -> bool {
        self.well_formed()
    }

    open spec fn get_admits(&self, req: Request) -> bool {
        self.insert_admits(req)
    }

    /// Raising a key, or starting one at the age plus one, must not overflow; nor
    /// the bytes held.
    open spec fn insert_admits(&self, req: Request) -> bool {
        if self.slots().contains_key(req.obj_id) {
            self.slots()[req.obj_id].1 < u64::MAX
        } else {
            req.obj_size > self.cap() || {
                &&& self.occupied() + req.obj_size <= u64::MAX
                &&& self.spec_age() < u64::MAX
                &&& forall|x: ObjectId| #[trigger] self.slots().contains_key(x) ==> self.slots()[x].1 < u64::MAX
            }
        }
    }

    open spec fn remove_admits(&self, obj_id: ObjectId) -> bool {
        true
    }

    open spec fn spec_size(&self) -> nat {
        self.occupied()
    }

    open spec fn spec_capacity(&self) -> nat {
        self.cap()
    }

    open spec fn spec_len(&self) -> nat {
        self.order().len()
    }

    open spec fn spec_stats(&self) -> CacheStats {
        self.counters()
    }

    open spec fn spec_holds(&self, id: ObjectId) -> bool {
        self.slots().contains_key(id)
    }

    open spec fn spec_size_of(&self, id: ObjectId) -> u32 {
        self.slots()[id].0
    }
}

impl Cache for LfudaCache {
    fn get(&mut self, req: &Request) -> (r: CacheResult)
        ensures
            final(self).cap() == old(self).cap(),
            old(self).slots().contains_key(req.obj_id) ==> {
                let e = old(self).slots()[req.obj_id];
                &&& r == CacheResult::Hit { obj_size: e.0 }
                &&& final(self).slots() == old(self).slots().insert(req.obj_id, (e.0, (e.1 + 1) as u64, e.2))
                &&& final(self).spec_age() == old(self).spec_age()
                &&& old(self).counters().advanced(final(self).counters(), 1, 1, 0, 0, 0)
            },
            !old(self).slots().contains_key(req.obj_id) && req.obj_size > old(self).cap() ==> {
                &&& r == CacheResult::Miss
                &&& final(self).slots() == old(self).slots()
                &&& final(self).spec_age() == old(self).spec_age()
                &&& old(self).counters().advanced(final(self).counters(), 1, 0, 1, 0, 0)
            },
            !old(self).slots().contains_key(req.obj_id) && req.obj_size <= old(self).cap() ==> {
                let k = (old(self).slots().len() - final(self).slots().remove(req.obj_id).len()) as nat;
                &&& r == CacheResult::Miss
                &&& admitted(old(self).slots(), old(self).spec_age(), final(self).slots(), final(self).spec_age(), final(self).occupied(), old(self).cap(), req.obj_id, req.obj_size, k)
                &&& old(self).counters().advanced(final(self).counters(), 1, 0, 1, k, 1)
            },
    {
        self.stats.inc_req();
        let ghost s1 = self.stats;
        match self.objects.get(req.obj_id) {
            Some(slot) => {
                self.stats.inc_hit();
                self.set_key(req.obj_id, slot, slot.1 + 1);
                proof {
                    lemma_advanced_trans(old(self).stats, s1, self.stats, 1, 0, 0, 0, 0, 0, 1, 0, 0, 0);
                }
                CacheResult::Hit { obj_size: slot.0 }
            },
            None => {
                self.stats.inc_miss();
                let ghost s2 = self.stats;
                self.insert(req);
                proof {
                    lemma_advanced_trans(old(self).stats, s1, s2, 1, 0, 0, 0, 0, 0, 0, 1, 0, 0);
                    let k = (old(self).slots().len() - self.slots().remove(req.obj_id).len()) as nat;
                    if req.obj_size <= old(self).cap() {
                        lemma_advanced_trans(old(self).stats, s2, self.stats, 1, 0, 1, 0, 0, 0, 0, 0, k, 1);
                    } else {
                        lemma_advanced_trans(old(self).stats, s2, self.stats, 1, 0, 1, 0, 0, 0, 0, 0, 0, 0);
                    }
                }
                CacheResult::Miss
            },
        }
    }

    fn insert(&mut self, req: &Request) -> (r: InsertResult)
        ensures
            !old(self).spec_holds(req.obj_id) && req.obj_size <= old(self).spec_capacity() ==> final(self).spec_size() <= final(self).spec_capacity(),
            final(self).cap() == old(self).cap(),
            old(self).slots().contains_key(req.obj_id) ==> {
                let e = old(self).slots()[req.obj_id];
                &&& r == InsertResult::Inserted
                &&& final(self).slots() == old(self).slots().insert(req.obj_id, (e.0, (e.1 + 1) as u64, e.2))
                &&& final(self).spec_age() == old(self).spec_age()
                &&& final(self).counters() == old(self).counters()
            },
            !old(self).slots().contains_key(req.obj_id) && req.obj_size > old(self).cap() ==> {
                &&& r == InsertResult::Rejected
                &&& final(self).slots() == old(self).slots()
                &&& final(self).spec_age() == old(self).spec_age()
                &&& final(self).counters() == old(self).counters()
            },
            !old(self).slots().contains_key(req.obj_id) && req.obj_size <= old(self).cap() ==> {
                let k = (old(self).slots().len() - final(self).slots().remove(req.obj_id).len()) as nat;
                &&& admitted(old(self).slots(), old(self).spec_age(), final(self).slots(), final(self).spec_age(), final(self).occupied(), old(self).cap(), req.obj_id, req.obj_size, k)
                &&& old(self).counters().advanced(final(self).counters(), 0, 0, 0, k, 1)
                &&& match r {
                    InsertResult::Evicted { evicted_id } => {
                        &&& k > 0
                        &&& old(self).slots().contains_key(evicted_id)
                        &&& !final(self).slots().contains_key(evicted_id)
                        // eviction stopped as soon as the object fitted
                        &&& final(self).occupied() + old(self).slots()[evicted_id].0 > old(self).cap()
                        // the object named is the last one evicted
                        &&& forall|e: ObjectId| #[trigger] old(self).slots().contains_key(e) && !final(self).slots().contains_key(e)
                            ==> old(self).slots()[e].1 <= old(self).slots()[evicted_id].1
                    },
                    InsertResult::Inserted => k == 0,
                    InsertResult::Rejected => false,
                }
            },
    {
        // Check if already exists
        if let Some(slot) = self.objects.get(req.obj_id) {
            self.set_key(req.obj_id, slot, slot.1 + 1);
            return InsertResult::Inserted;
        }
        // Check if object can fit
        if req.obj_size as u64 > self.capacity {
            return InsertResult::Rejected;
        }
        let ghost t0 = self.slots();
        let ghost age0 = self.age;
        let ghost s0 = self.stats;
        proof {
            lemma_advanced_refl(s0);
            lemma_lists_len(self.order(), t0.dom());
        }
        // Evict until there's space
        let mut evicted_id: Option<ObjectId> = None;
        while self.used + req.obj_size as u64 > self.capacity && !self.objects.is_empty()
            invariant
                self.well_formed(),
                self.capacity == old(self).capacity,
                req.obj_size <= self.capacity,
                self.used + req.obj_size <= u64::MAX,
                t0 == old(self).slots(),
                t0.dom().finite(),
                !t0.contains_key(req.obj_id),
                age0 == old(self).age,
                age0 < u64::MAX,
                forall|x: ObjectId| #[trigger] t0.contains_key(x) ==> t0[x].1 < u64::MAX,
                evicted_least(self.slots(), t0),
                self.slots().dom().finite(),
                self.slots().len() <= t0.len(),
                self.slots().len() == t0.len() <==> evicted_id is None,
                evicted_id is None ==> self.age == age0,
                evicted_id matches Some(v) ==> t0.contains_key(v) && !self.slots().contains_key(v) && self.age == t0[v].1,
                evicted_id matches Some(v) ==> self.used + t0[v].0 + req.obj_size > self.capacity,
                evicted_id matches Some(v) ==> forall|e: ObjectId| #[trigger] t0.contains_key(e) && !self.slots().contains_key(e)
                    ==> t0[e].1 <= t0[v].1,
                evicted_id is Some ==> forall|x: ObjectId| #[trigger] self.slots().contains_key(x) ==> self.age <= self.slots()[x].1,
                s0.advanced(self.stats, 0, 0, 0, (t0.len() - self.slots().len()) as nat, 0),
            decreases self.order().len(),
        {
            let ghost s1 = self.stats;
            let ghost cur = self.slots();
            proof {
                lemma_lists_len(self.order(), cur.dom());
            }
            if let Some(evict_id) = self.evict() {
                evicted_id = Some(evict_id);
                proof {
                    assert(cur[evict_id] == t0[evict_id]);
                    assert forall|e: ObjectId| #[trigger] t0.contains_key(e) && !self.slots().contains_key(e) implies t0[e].1 <= t0[evict_id].1 by {
                        if e != evict_id {
                            assert(!cur.contains_key(e));
                        }
                    }
                    lemma_lists_len(self.order(), self.slots().dom());
                    assert forall|e: ObjectId, x: ObjectId| #[trigger] t0.contains_key(e) && !self.slots().contains_key(e) && #[trigger] self.slots().contains_key(x) implies t0[e].1 <= t0[x].1 by {
                        if e != evict_id {
                            assert(!cur.contains_key(e));
                        }
                    }
                }
            }
            proof {
                lemma_advanced_trans(s0, s1, self.stats, 0, 0, 0, (t0.len() - cur.len()) as nat, 0, 0, 0, 0, 1, 0);
            }
        }
        let ghost kept = self.slots();
        proof {
            lemma_lists_len(self.order(), kept.dom());
            if self.order().len() == 0 {
                assert(self.used == 0);
            }
            assert(self.age < u64::MAX) by {
                match evicted_id {
                    Some(v) => {
                        assert(t0.contains_key(v));
                    },
                    None => {},
                }
            }
        }
        // Insert the object with initial frequency = current age + 1
        let age = self.age;
        self.add(req.obj_id, (req.obj_size, age + 1, 0));
        let ghost s2 = self.stats;
        self.stats.inc_insert();
        proof {
            lemma_advanced_trans(s0, s2, self.stats, 0, 0, 0, (t0.len() - kept.len()) as nat, 0, 0, 0, 0, 0, 1);
            assert(self.slots().remove(req.obj_id) =~= kept);
            if let Some(v) = evicted_id {
                assert(t0.contains_key(v) && !kept.contains_key(v));
            }
        }
        if let Some(evicted) = evicted_id {
            InsertResult::Evicted { evicted_id: evicted }
        } else {
            InsertResult::Inserted
        }
    }

    /// Evict an object of least key, and raise the age to that key.
    fn evict(&mut self) -> (r: Option<ObjectId>)
        ensures
            final(self).cap() == old(self).cap(),
            old(self).slots().dom().is_empty() ==> r is None && final(self).slots() == old(self).slots()
                && final(self).counters() == old(self).counters() && final(self).spec_age() == old(self).spec_age(),
            !old(self).slots().dom().is_empty() ==> (r matches Some(v) && {
                &&& old(self).slots().contains_key(v)
                &&& forall|x: ObjectId| #[trigger] old(self).slots().contains_key(x) ==> old(self).slots()[v].1 <= old(self).slots()[x].1
                &&& final(self).slots() == old(self).slots().remove(v)
                &&& final(self).spec_age() == old(self).slots()[v].1
                &&& final(self).occupied() + old(self).slots()[v].0 == old(self).occupied()
                &&& old(self).counters().advanced(final(self).counters(), 0, 0, 0, 1, 0)
            }),
    {
        proof {
            lemma_lists_len(self.order(), self.slots().dom());
            if self.slots().dom().is_empty() {
                assert(self.slots().dom() =~= Set::<u64>::empty());
            } else {
                let k = self.slots().dom().choose();
                assert(self.slots().dom().contains(k));
                assert(self.order().contains(k));
            }
        }
        // Find object with minimum key value
        let (obj_id, min_key) = match self.find_min_key_object() {
            Some(found) => found,
            None => {
                return None;
            },
        };
        // Update age to the evicted object's key value
        self.age = min_key;
        if let Some(_size) = self.drop_key(obj_id) {
            self.stats.inc_evict();
            Some(obj_id)
        } else {
            None
        }
    }

    fn remove(&mut self, obj_id: ObjectId) -> (r: bool)
        ensures
            final(self).cap() == old(self).cap(),
            final(self).counters() == old(self).counters(),
            final(self).spec_age() == old(self).spec_age(),
            r == old(self).slots().contains_key(obj_id),
            final(self).slots() == old(self).slots().remove(obj_id),
    {
        match self.drop_key(obj_id) {
            Some(_size) => true,
            None => false,
        }
    }

    fn clear(&mut self)
        ensures
            final(self).slots().dom().is_empty(),
            final(self).spec_age() == 0,
            final(self).counters() == old(self).counters(),
    {
        clear_table(&mut self.objects);
        self.keys = Ghost(Seq::empty());
        self.used = 0;
        self.age = 0;
        proof {
            assert(self.slots().dom() =~= Set::<u64>::empty());
        }
    }

    fn size(&self) -> (r: u64) {
        self.used
    }

    fn capacity(&self) -> (r: u64) {
        self.capacity
    }

    fn len(&self) -> (r: usize) {
        proof {
            lemma_lists_len(self.order(), self.slots().dom());
        }
        self.objects.len()
    }

    fn stats(&self) -> (r: &CacheStats) {
        &self.stats
    }

    fn reset_stats(&mut self)
        ensures
            final(self).slots() == old(self).slots(),
            final(self).spec_age() == old(self).spec_age(),
    {
        self.stats.reset();
    }
}

} // verus!
