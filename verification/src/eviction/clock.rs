//! Clock cache implementation
//!
//! Clock is a simple approximation of LRU that uses a reference bit.
use vstd::prelude::*;

use super::table::{clear_table, table_contents, ObjectTable};
use crate::cache::{Cache, CacheModel, CacheResult, InsertResult};
use crate::ordered::{
    lemma_index_of_unique, lemma_lists_index, lemma_lists_len, lemma_sum_same_weights,
    lemma_table_push, lemma_table_remove, lemma_table_update, lists_exactly, position_in_vec,
    sum_over, table_weight,
};
use crate::request::Request;
use crate::stats::{lemma_advanced_refl, lemma_advanced_trans, CacheStats};
use crate::sweep::{
    lemma_ring, lemma_steps_bound, lemma_swept_none, lemma_swept_step, ring_pos,
    steps_to_unmarked, sweep_start, swept,
};
use crate::ObjectId;

verus! {

/// An entry: the object's size, its reference bit (0 or 1), and an unused counter.
pub type ClockSlot = (u32, u64, u64);

/// Bytes of an entry.
pub open spec fn slot_bytes() -> spec_fn(ClockSlot) -> nat {
    |e: ClockSlot| e.0 as nat
}

/// Reference bit of each id.
pub open spec fn referenced(t: Map<ObjectId, ClockSlot>) -> spec_fn(ObjectId) -> bool {
    |k: ObjectId| t[k].1 != 0
}

/// An entry with its reference bit cleared.
pub open spec fn unreferenced() -> spec_fn(ClockSlot) -> ClockSlot {
    |e: ClockSlot| (e.0, 0u64, e.2)
}

/// The ring, the entries and the hand.
pub type ClockRing = (Seq<ObjectId>, Map<ObjectId, ClockSlot>, int);

/// One eviction: sweep from the hand, take the first entry whose bit is clear,
/// and leave the hand on the slot that followed it.
pub open spec fn ring_evict(s: ClockRing) -> ClockRing {
    let (order, table, hand) = s;
    let n = order.len() as int;
    let h = sweep_start(hand, n);
    let p = ring_pos(h, steps_to_unmarked(order, referenced(table), h, 0), n);
    (
        order.remove(p),
        swept(table, order, h, steps_to_unmarked(order, referenced(table), h, 0), unreferenced()).remove(order[p]),
        if p < n - 1 {
            p
        } else {
            0
        },
    )
}

/// The victim of one eviction.
pub open spec fn ring_victim(s: ClockRing) -> ObjectId {
    let n = s.0.len() as int;
    let h = sweep_start(s.2, n);
    s.0[ring_pos(h, steps_to_unmarked(s.0, referenced(s.1), h, 0), n)]
}

/// Evictions made, one at a time, until the sizes left sum to at most `room`
/// or nothing is left: the state left, their number, and the last victim.
pub open spec fn ring_make_room(s: ClockRing, room: int) -> (ClockRing, nat, Option<ObjectId>)
    decreases s.0.len(),
{
    if s.0.len() == 0 || sum_over(s.0, table_weight(s.1, slot_bytes())) <= room {
        (s, 0, None)
    } else {
        let next = ring_evict(s);
        if next.0.len() < s.0.len() {
            let (r, k, last) = ring_make_room(next, room);
            (r, k + 1, if k == 0 { Some(ring_victim(s)) } else { last })
        } else {
            (s, 0, None)
        }
    }
}

pub proof fn lemma_ring_evict(s: ClockRing)
    requires
        lists_exactly(s.0, s.1.dom()),
        s.0.len() > 0,
        s.2 >= 0,
    ensures
        ring_evict(s).0.len() == s.0.len() - 1,
        lists_exactly(ring_evict(s).0, ring_evict(s).1.dom()),
        ring_evict(s).2 >= 0,
        !ring_evict(s).1.contains_key(ring_victim(s)),
        s.1.contains_key(ring_victim(s)),
        forall|k: ObjectId| #[trigger] ring_evict(s).1.contains_key(k) ==> s.1.contains_key(k),
        sum_over(s.0, table_weight(s.1, slot_bytes())) == sum_over(
            ring_evict(s).0,
            table_weight(ring_evict(s).1, slot_bytes()),
        ) + s.1[ring_victim(s)].0,
{
    let (order, table, hand) = s;
    let n = order.len() as int;
    let h = sweep_start(hand, n);
    lemma_steps_bound(order, referenced(table), h, 0);
    let m = steps_to_unmarked(order, referenced(table), h, 0);
    if m < n {
        lemma_ring(h, m, n);
    }
    let p = ring_pos(h, m, n);
    let ts = swept(table, order, h, m, unreferenced());
    assert(ts.dom() =~= table.dom());
    lemma_table_remove(order, ts, slot_bytes(), p);
    assert forall|x: int| 0 <= x < order.len() implies table_weight(table, slot_bytes())(
        #[trigger] order[x],
    ) == table_weight(ts, slot_bytes())(order[x]) by {
        assert(table.contains_key(order[x]));
    }
    lemma_sum_same_weights(order, table_weight(table, slot_bytes()), table_weight(ts, slot_bytes()));
}

pub proof fn lemma_ring_make_room(s: ClockRing, room: int)
    requires
        lists_exactly(s.0, s.1.dom()),
        s.2 >= 0,
    ensures
        lists_exactly(ring_make_room(s, room).0.0, ring_make_room(s, room).0.1.dom()),
        ring_make_room(s, room).0.2 >= 0,
        ring_make_room(s, room).0.0.len() == 0 || sum_over(
            ring_make_room(s, room).0.0,
            table_weight(ring_make_room(s, room).0.1, slot_bytes()),
        ) <= room,
        forall|k: ObjectId| #[trigger] ring_make_room(s, room).0.1.contains_key(k) ==> s.1.contains_key(k),
        (ring_make_room(s, room).1 == 0) == (ring_make_room(s, room).2 is None),
    decreases s.0.len(),
{
    if s.0.len() == 0 || sum_over(s.0, table_weight(s.1, slot_bytes())) <= room {
    } else {
        lemma_ring_evict(s);
        lemma_ring_make_room(ring_evict(s), room);
    }
}

/// Clock cache implementation
///
/// Clock (also known as Second-Chance) is an approximation of LRU using a reference bit.
/// Objects are arranged in a circular list, and a "clock hand" points to the next candidate
/// for eviction. When an object needs to be evicted, the algorithm checks the reference bit:
/// - If set, clear it and move to the next object
/// - If not set, evict the object
pub struct ClockCache {
    capacity: u64,
    used: u64,
    entries: ObjectTable,
    clock_list: Vec<ObjectId>,
    hand: usize,
    stats: CacheStats,
}

impl ClockCache {
    /// The ring, the entries and the hand.
    pub closed spec fn ring(&self) -> ClockRing {
        (self.clock_list@, table_contents(self.entries), self.hand as int)
    }

    pub closed spec fn cap(&self) -> nat {
        self.capacity as nat
    }

    pub closed spec fn occupied(&self) -> nat {
        self.used as nat
    }

    pub closed spec fn counters(&self) -> CacheStats {
        self.stats
    }

    pub open spec fn well_formed(&self) -> bool {
        &&& lists_exactly(self.ring().0, self.ring().1.dom())
        &&& self.occupied() == sum_over(self.ring().0, table_weight(self.ring().1, slot_bytes()))
    }

    /// Create a new Clock cache with the given capacity in bytes
    pub fn new(capacity: u64) -> (c: Self)
        ensures
            c.well_formed(),
            c.ring().0.len() == 0,
            c.ring().2 == 0,
            c.cap() == capacity,
            c.counters().is_zero(),
    {
        let c = ClockCache {
            capacity,
            used: 0,
            entries: ObjectTable::new(),
            clock_list: Vec::new(),
            hand: 0,
            stats: CacheStats::new(),
        };
        proof {
            assert(table_contents(c.entries).dom() =~= Set::<u64>::empty());
        }
        c
    }

    /// Set the reference bit of a held object.
    fn mark(&mut self, obj_id: ObjectId, slot: ClockSlot)
        requires
            old(self).well_formed(),
            table_contents(old(self).entries).contains_key(obj_id),
            table_contents(old(self).entries)[obj_id] == slot,
        ensures
            final(self).well_formed(),
            final(self).ring() == (old(self).ring().0, old(self).ring().1.insert(obj_id, (slot.0, 1u64, slot.2)), old(self).ring().2),
            final(self).cap() == old(self).cap(),
            final(self).occupied() == old(self).occupied(),
            final(self).counters() == old(self).counters(),
    {
        proof {
            lemma_table_update(self.clock_list@, table_contents(self.entries), slot_bytes(), obj_id, (slot.0, 1u64, slot.2));
        }
        self.entries.insert(obj_id, (slot.0, 1, slot.2));
    }
}

impl CacheModel for ClockCache {
    open spec fn inv(&self) -> bool {
        self.well_formed()
    }

    open spec fn get_admits(&self, req: Request) -> bool {
        self.insert_admits(req)
    }

    open spec fn insert_admits(&self, req: Request) -> bool {
        self.ring().1.contains_key(req.obj_id) || self.occupied() + req.obj_size <= u64::MAX
    }

    open spec fn remove_admits(&self, obj_id: ObjectId) -> bool {
        true
    }

    open spec fn spec_size(&self) -> nat {
        self.occupied()
    }

    open spec fn spec_capacity(&self) -> nat {
        self.cap()
    }

    open spec fn spec_len(&self) -> nat {
        self.ring().0.len()
    }

    open spec fn spec_stats(&self) -> CacheStats {
        self.counters()
    }

    open spec fn spec_holds(&self, id: ObjectId) -> bool {
        self.ring().1.contains_key(id)
    }

    open spec fn spec_size_of(&self, id: ObjectId) -> u32 {
        self.ring().1[id].0
    }
}

impl Cache for ClockCache {
    fn get(&mut self, req: &Request) -> (r: CacheResult)
        ensures
            final(self).cap() == old(self).cap(),
            old(self).ring().1.contains_key(req.obj_id) ==> {
                let e = old(self).ring().1[req.obj_id];
                &&& r == CacheResult::Hit { obj_size: e.0 }
                &&& final(self).ring() == (old(self).ring().0, old(self).ring().1.insert(req.obj_id, (e.0, 1u64, e.2)), old(self).ring().2)
                &&& old(self).counters().advanced(final(self).counters(), 1, 1, 0, 0, 0)
            },
            !old(self).ring().1.contains_key(req.obj_id) ==> {
                let (after, k, _) = ring_make_room(old(self).ring(), old(self).cap() - req.obj_size);
                &&& r == CacheResult::Miss
                &&& req.obj_size > old(self).cap() ==> final(self).ring() == after
                    && old(self).counters().advanced(final(self).counters(), 1, 0, 1, k, 0)
                &&& req.obj_size <= old(self).cap() ==> final(self).ring() == (after.0.push(req.obj_id), after.1.insert(req.obj_id, (req.obj_size, 1u64, 0u64)), after.2)
                    && old(self).counters().advanced(final(self).counters(), 1, 0, 1, k, 1)
            },
    {
        let ghost s0 = self.stats;
        self.stats.inc_req();
        let ghost s1 = self.stats;
        match self.entries.get(req.obj_id) {
            Some(slot) => {
                self.stats.inc_hit();
                self.mark(req.obj_id, slot);
                proof {
                    lemma_advanced_trans(s0, s1, self.stats, 1, 0, 0, 0, 0, 0, 1, 0, 0, 0);
                }
                CacheResult::Hit { obj_size: slot.0 }
            },
            None => {
                self.stats.inc_miss();
                let ghost s2 = self.stats;
                self.insert(req);
                proof {
                    lemma_advanced_trans(s0, s1, s2, 1, 0, 0, 0, 0, 0, 0, 1, 0, 0);
                    let k = ring_make_room(old(self).ring(), old(self).cap() - req.obj_size).1;
                    if req.obj_size <= old(self).cap() {
                        lemma_advanced_trans(s0, s2, self.stats, 1, 0, 1, 0, 0, 0, 0, 0, k, 1);
                    } else {
                        lemma_advanced_trans(s0, s2, self.stats, 1, 0, 1, 0, 0, 0, 0, 0, k, 0);
                    }
                }
                CacheResult::Miss
            },
        }
    }

    fn insert(&mut self, req: &Request) -> (r: InsertResult)
        ensures
            !old(self).spec_holds(req.obj_id) && req.obj_size <= old(self).spec_capacity() ==> final(self).spec_size() <= final(self).spec_capacity(),
            final(self).cap() == old(self).cap(),
            old(self).ring().1.contains_key(req.obj_id) ==> {
                let e = old(self).ring().1[req.obj_id];
                &&& r == InsertResult::Inserted
                &&& final(self).ring() == (old(self).ring().0, old(self).ring().1.insert(req.obj_id, (e.0, 1u64, e.2)), old(self).ring().2)
                &&& final(self).counters() == old(self).counters()
            },
            !old(self).ring().1.contains_key(req.obj_id) ==> {
                let (after, k, last) = ring_make_room(old(self).ring(), old(self).cap() - req.obj_size);
                &&& req.obj_size > old(self).cap() ==> r == InsertResult::Rejected && final(self).ring() == after
                    && old(self).counters().advanced(final(self).counters(), 0, 0, 0, k, 0)
                &&& req.obj_size <= old(self).cap() ==> final(self).ring() == (after.0.push(req.obj_id), after.1.insert(req.obj_id, (req.obj_size, 1u64, 0u64)), after.2)
                    && old(self).counters().advanced(final(self).counters(), 0, 0, 0, k, 1)
                    && r == match last {
                        Some(v) => InsertResult::Evicted { evicted_id: v },
                        None => InsertResult::Inserted,
                    }
            },
    {
        // Check if object already exists
        if let Some(slot) = self.entries.get(req.obj_id) {
            self.mark(req.obj_id, slot);
            return InsertResult::Inserted;
        }
        let ghost room = self.capacity - req.obj_size;
        let ghost target = ring_make_room(self.ring(), room);
        let ghost s0 = self.stats;
        let ghost mut j: nat = 0;
        proof {
            lemma_ring_make_room(self.ring(), room);
            lemma_advanced_refl(s0);
        }
        // Evict objects if necessary to make room
        let mut evicted_id: Option<ObjectId> = None;
        while self.used + req.obj_size as u64 > self.capacity && self.clock_list.len() > 0
            invariant
                self.well_formed(),
                self.capacity == old(self).capacity,
                self.used + req.obj_size <= u64::MAX,
                !self.ring().1.contains_key(req.obj_id),
                room == self.capacity - req.obj_size,
                ring_make_room(self.ring(), room).0 == target.0,
                ring_make_room(self.ring(), room).1 + j == target.1,
                j == 0 ==> evicted_id is None,
                target.2 == (if ring_make_room(self.ring(), room).1 > 0 {
                    ring_make_room(self.ring(), room).2
                } else {
                    evicted_id
                }),
                (ring_make_room(self.ring(), room).1 == 0) == (ring_make_room(self.ring(), room).2 is None),
                s0.advanced(self.stats, 0, 0, 0, j, 0),
                self.ring().2 >= 0,
            decreases self.clock_list@.len(),
        {
            let ghost st = self.ring();
            let ghost s1 = self.stats;
            proof {
                lemma_ring_evict(st);
                lemma_ring_make_room(ring_evict(st), room);
            }
            if let Some(evict_id) = self.evict() {
                evicted_id = Some(evict_id);
            }
            proof {
                lemma_advanced_trans(s0, s1, self.stats, 0, 0, 0, j, 0, 0, 0, 0, 1, 0);
                j = j + 1;
            }
        }
        // Check if object can fit
        if req.obj_size as u64 > self.capacity {
            return InsertResult::Rejected;
        }
        proof {
            lemma_table_push(self.clock_list@, table_contents(self.entries), slot_bytes(), req.obj_id, (req.obj_size, 1u64, 0u64));
        }
        // Insert the object
        self.entries.insert(req.obj_id, (req.obj_size, 1, 0));
        self.clock_list.push(req.obj_id);
        self.used += req.obj_size as u64;
        let ghost s2 = self.stats;
        self.stats.inc_insert();
        proof {
            lemma_advanced_trans(s0, s2, self.stats, 0, 0, 0, j, 0, 0, 0, 0, 0, 1);
        }
        if let Some(evicted) = evicted_id {
            InsertResult::Evicted { evicted_id: evicted }
        } else {
            InsertResult::Inserted
        }
    }

    fn evict(&mut self) -> (r: Option<ObjectId>)
        ensures
            final(self).cap() == old(self).cap(),
            old(self).ring().0.len() == 0 ==> r is None && final(self).ring() == old(self).ring()
                && final(self).counters() == old(self).counters(),
            old(self).ring().0.len() > 0 ==> {
                &&& r == Some(ring_victim(old(self).ring()))
                &&& final(self).ring() == ring_evict(old(self).ring())
                &&& old(self).counters().advanced(final(self).counters(), 0, 0, 0, 1, 0)
            },
    {
        if self.clock_list.len() == 0 {
            return None;
        }
        let ghost q = self.clock_list@;
        let ghost t0 = table_contents(self.entries);
        let ghost n = q.len() as int;
        let ghost h = sweep_start(self.hand as int, n);
        let ghost m = steps_to_unmarked(q, referenced(t0), h, 0);
        let ghost mut s: int = 0;
        proof {
            lemma_steps_bound(q, referenced(t0), h, 0);
            lemma_swept_none(t0, q, h, unreferenced());
            lemma_ring_evict(self.ring());
        }
        // Find an object to evict using the clock algorithm
        loop
            invariant
                self.clock_list@ == q,
                n == q.len() > 0,
                lists_exactly(q, t0.dom()),
                0 <= h < n,
                0 <= s <= m <= n,
                m == steps_to_unmarked(q, referenced(t0), h, 0),
                steps_to_unmarked(q, referenced(t0), h, s) == m,
                sweep_start(self.hand as int, n) == ring_pos(h, s, n),
                table_contents(self.entries) == swept(t0, q, h, s, unreferenced()),
                self.used == sum_over(q, table_weight(t0, slot_bytes())),
                self.capacity == old(self).capacity,
                self.stats == old(self).stats,
                h == sweep_start(old(self).hand as int, n),
                t0 == table_contents(old(self).entries),
                q == old(self).clock_list@,
                self.used == old(self).used,
                old(self).well_formed(),
            decreases n - s,
        {
            if self.hand >= self.clock_list.len() {
                self.hand = 0;
            }
            let obj_id = self.clock_list[self.hand];
            proof {
                lemma_ring(h, if s < n { s } else { 0 }, n);
            }
            if let Some(entry) = self.entries.get(obj_id) {
                proof {
                    if s < n {
                        assert(table_contents(self.entries)[obj_id] == t0[obj_id]) by {
                            assert(q.index_of(obj_id) == ring_pos(h, s, n)) by {
                                assert(q.contains(obj_id));
                            }
                        }
                    }
                }
                if entry.1 != 0 {
                    // Give it another chance
                    proof {
                        assert(s < n) by {
                            if s == n {
                                assert(ring_pos(h, n, n) == h);
                            }
                        }
                        lemma_swept_step(t0, q, h, s, unreferenced());
                        lemma_steps_bound(q, referenced(t0), h, s + 1);
                    }
                    self.entries.insert(obj_id, (entry.0, 0, entry.2));
                    self.hand += 1;
                    proof {
                        s = s + 1;
                    }
                } else {
                    // Evict this object
                    proof {
                        assert(s == m);
                        lemma_ring_evict(old(self).ring());
                    }
                    let obj_size = entry.0;
                    self.entries.remove(obj_id);
                    self.clock_list.remove(self.hand);
                    self.used -= obj_size as u64;
                    self.stats.inc_evict();
                    // Adjust hand if necessary
                    if self.hand >= self.clock_list.len() && self.clock_list.len() > 0 {
                        self.hand = 0;
                    }
                    return Some(obj_id);
                }
            } else {
                // Entry not found, skip
                proof {
                    assert(false);
                }
                self.hand += 1;
            }
        }
    }

    fn remove(&mut self, obj_id: ObjectId) -> (r: bool)
        ensures
            final(self).cap() == old(self).cap(),
            final(self).counters() == old(self).counters(),
            r == old(self).ring().1.contains_key(obj_id),
            r ==> ({
                let pos = old(self).ring().0.index_of(obj_id);
                &&& final(self).ring().0 == old(self).ring().0.remove(pos)
                &&& final(self).ring().1 == old(self).ring().1.remove(obj_id)
                &&& final(self).ring().2 == if old(self).ring().2 > pos {
                    old(self).ring().2 - 1
                } else if old(self).ring().2 >= old(self).ring().0.len() - 1 && old(self).ring().0.len() > 1 {
                    0
                } else {
                    old(self).ring().2
                }
            }),
            !r ==> final(self).ring() == old(self).ring(),
    {
        let ghost q = self.clock_list@;
        let ghost t = table_contents(self.entries);
        if let Some(entry) = self.entries.remove(obj_id) {
            let ghost i = lemma_lists_index(q, t.dom(), obj_id);
            proof {
                lemma_table_remove(q, t, slot_bytes(), i);
                lemma_index_of_unique(q, i);
            }
            self.used -= entry.0 as u64;
            // Remove from clock list
            if let Some(pos) = position_in_vec(&self.clock_list, obj_id) {
                proof {
                    assert(q[pos as int] == q[i]);
                }
                self.clock_list.remove(pos);
                // Adjust hand if necessary
                if self.hand > pos {
                    self.hand -= 1;
                } else if self.hand >= self.clock_list.len() && self.clock_list.len() > 0 {
                    self.hand = 0;
                }
            } else {
                proof {
                    assert(q[i] == obj_id);
                }
            }
            true
        } else {
            proof {
                assert(table_contents(self.entries) =~= t);
            }
            false
        }
    }

    fn clear(&mut self)
        ensures
            final(self).ring() == (Seq::<ObjectId>::empty(), Map::<ObjectId, ClockSlot>::empty(), 0int),
            final(self).counters() == old(self).counters(),
    {
        clear_table(&mut self.entries);
        self.clock_list.clear();
        self.used = 0;
        self.hand = 0;
        proof {
            assert(self.clock_list@ =~= Seq::<ObjectId>::empty());
            assert(table_contents(self.entries).dom() =~= Set::<u64>::empty());
        }
    }

    fn size(&self) -> (r: u64) {
        self.used
    }

    fn capacity(&self) -> (r: u64) {
        self.capacity
    }

    fn len(&self) -> (r: usize) {
        proof {
            lemma_lists_len(self.clock_list@, table_contents(self.entries).dom());
        }
        self.entries.len()
    }

    fn stats(&self) -> (r: &CacheStats) {
        &self.stats
    }

    fn reset_stats(&mut self)
        ensures
            final(self).ring() == old(self).ring(),
    {
        self.stats.reset();
    }
}

} // verus!
