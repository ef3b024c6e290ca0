//! SLRU (Segmented LRU) cache implementation
//!
//! SLRU divides the cache into two segments: probation and protected.
//! Objects start in probation, and on re-access are promoted to protected.
use std::collections::VecDeque;
use vstd::prelude::*;

use super::clock::{slot_bytes, ClockSlot};
use super::table::{clear_table, table_contents, ObjectTable};
use crate::cache::{Cache, CacheModel, CacheResult, InsertResult};
use crate::ordered::{
    lemma_index_of_unique, lemma_lists_index, lemma_lists_len, lemma_lists_push,
    lemma_lists_remove, lemma_move_to_back_in, lemma_pop_front_is_remove, lemma_sum_push,
    lemma_sum_remove, lemma_sum_same_weights, lists_exactly, moved_to_back, position_of, sum_over,
    table_weight,
};
use crate::request::Request;
use crate::stats::{lemma_advanced_refl, lemma_advanced_trans, CacheStats};
use crate::ObjectId;

verus! {

/// Entry location in SLRU
#[derive(Debug, Clone, Copy, PartialEq, Eq, Structural)]
pub enum Segment {
    Probation,
    Protected,
}

/// Ids whose slot is in segment `code`.
pub open spec fn in_segment(t: Map<ObjectId, ClockSlot>, code: u64) -> Set<ObjectId> {
    Set::new(|k: ObjectId| t.contains_key(k) && t[k].1 == code)
}

/// The probation queue, the protected queue, and the slots (size, segment code).
pub struct SlruState {
    pub probation: Seq<ObjectId>,
    pub protected: Seq<ObjectId>,
    pub table: Map<ObjectId, ClockSlot>,
}

pub open spec fn slru_consistent(s: SlruState) -> bool {
    &&& lists_exactly(s.probation, in_segment(s.table, 0))
    &&& lists_exactly(s.protected, in_segment(s.table, 1))
    &&& forall|k: ObjectId| #[trigger] s.table.contains_key(k) ==> s.table[k].1 == 0 || s.table[k].1 == 1
}

pub open spec fn segment_bytes(q: Seq<ObjectId>, t: Map<ObjectId, ClockSlot>) -> nat {
    sum_over(q, table_weight(t, slot_bytes()))
}

/// Bytes held.
pub open spec fn slru_bytes(s: SlruState) -> nat {
    segment_bytes(s.probation, s.table) + segment_bytes(s.protected, s.table)
}

/// One eviction: the front of probation, or, with probation empty, the front of
/// protected (demoted to probation and evicted from there at once).
pub open spec fn slru_evict(s: SlruState) -> (SlruState, ObjectId) {
    if s.probation.len() > 0 {
        (SlruState { probation: s.probation.remove(0), table: s.table.remove(s.probation[0]), ..s }, s.probation[0])
    } else {
        (SlruState { protected: s.protected.remove(0), table: s.table.remove(s.protected[0]), ..s }, s.protected[0])
    }
}

/// Evictions until the bytes held are at most `room` or nothing is left: the
/// state, their number, and the last victim.
pub open spec fn slru_make_room(s: SlruState, room: int) -> (SlruState, nat, Option<ObjectId>)
    decreases s.probation.len() + s.protected.len(),
{
    if s.probation.len() + s.protected.len() == 0 || slru_bytes(s) <= room {
        (s, 0, None)
    } else {
        let (next, v) = slru_evict(s);
        let (r, k, last) = slru_make_room(next, room);
        (r, k + 1, if k == 0 { Some(v) } else { last })
    }
}

/// State after a hit on `id`: from probation it moves to the back of protected;
/// in protected it moves to the back.
pub open spec fn slru_hit(s: SlruState, id: ObjectId) -> SlruState {
    let e = s.table[id];
    if e.1 == 0 {
        SlruState {
            probation: s.probation.remove(s.probation.index_of(id)),
            protected: s.protected.push(id),
            table: s.table.insert(id, (e.0, 1u64, e.2)),
        }
    } else {
        SlruState { protected: moved_to_back(s.protected, id), ..s }
    }
}

proof fn lemma_in_segment_insert(t: Map<ObjectId, ClockSlot>, k: ObjectId, v: ClockSlot, code: u64)
    ensures
        in_segment(t.insert(k, v), code) == if v.1 == code {
            in_segment(t, code).insert(k)
        } else {
            in_segment(t, code).remove(k)
        },
{
    assert(in_segment(t.insert(k, v), code) =~= if v.1 == code {
        in_segment(t, code).insert(k)
    } else {
        in_segment(t, code).remove(k)
    });
}

proof fn lemma_in_segment_remove(t: Map<ObjectId, ClockSlot>, k: ObjectId, code: u64)
    ensures
        in_segment(t.remove(k), code) == in_segment(t, code).remove(k),
{
    assert(in_segment(t.remove(k), code) =~= in_segment(t, code).remove(k));
}

/// Bytes of a queue do not change when the slots of ids outside it change.
proof fn lemma_segment_frame(q: Seq<ObjectId>, t1: Map<ObjectId, ClockSlot>, t2: Map<ObjectId, ClockSlot>)
    requires
        forall|i: int| 0 <= i < q.len() ==> t1.contains_key(#[trigger] q[i]) && t2.contains_key(q[i]) && t1[q[i]].0 == t2[q[i]].0,
    ensures
        segment_bytes(q, t1) == segment_bytes(q, t2),
{
    assert forall|j: int| 0 <= j < q.len() implies table_weight(t1, slot_bytes())(#[trigger] q[j]) == table_weight(t2, slot_bytes())(q[j]) by {}
    lemma_sum_same_weights(q, table_weight(t1, slot_bytes()), table_weight(t2, slot_bytes()));
}

/// Removing the front of a queue whose segment is `code`.
proof fn lemma_drop_front(s: SlruState, code: u64)
    requires
        slru_consistent(s),
        code == 0 ==> s.probation.len() > 0,
        code == 1 ==> s.protected.len() > 0,
        code == 0 || code == 1,
    ensures
        ({
            let q = if code == 0 { s.probation } else { s.protected };
            let other = if code == 0 { s.protected } else { s.probation };
            let v = q[0];
            let t2 = s.table.remove(v);
            &&& s.table.contains_key(v)
            &&& lists_exactly(q.remove(0), in_segment(t2, code))
            &&& lists_exactly(other, in_segment(t2, (1 - code) as u64))
            &&& segment_bytes(q.remove(0), t2) + s.table[v].0 == segment_bytes(q, s.table)
            &&& segment_bytes(other, t2) == segment_bytes(other, s.table)
        }),
{
    let q = if code == 0 { s.probation } else { s.protected };
    let other = if code == 0 { s.protected } else { s.probation };
    let v = q[0];
    let t2 = s.table.remove(v);
    assert(in_segment(s.table, code).contains(v));
    lemma_lists_remove(q, in_segment(s.table, code), 0);
    lemma_in_segment_remove(s.table, v, code);
    lemma_in_segment_remove(s.table, v, (1 - code) as u64);
    assert(!in_segment(s.table, (1 - code) as u64).contains(v));
    assert(in_segment(s.table, (1 - code) as u64).remove(v) =~= in_segment(s.table, (1 - code) as u64));
    lemma_sum_remove(q, 0, table_weight(s.table, slot_bytes()));
    assert forall|i: int| 0 <= i < q.remove(0).len() implies s.table.contains_key(#[trigger] q.remove(0)[i]) && t2.contains_key(q.remove(0)[i]) && s.table[q.remove(0)[i]].0 == t2[q.remove(0)[i]].0 by {
        assert(in_segment(t2, code).contains(q.remove(0)[i]));
    }
    lemma_segment_frame(q.remove(0), s.table, t2);
    assert forall|i: int| 0 <= i < other.len() implies s.table.contains_key(#[trigger] other[i]) && t2.contains_key(other[i]) && s.table[other[i]].0 == t2[other[i]].0 by {
        assert(in_segment(s.table, (1 - code) as u64).contains(other[i]));
    }
    lemma_segment_frame(other, s.table, t2);
}

pub proof fn lemma_slru_evict(s: SlruState)
    requires
        slru_consistent(s),
        s.probation.len() + s.protected.len() > 0,
    ensures
        ({
            let (n, v) = slru_evict(s);
            &&& slru_consistent(n)
            &&& n.probation.len() + n.protected.len() + 1 == s.probation.len() + s.protected.len()
            &&& s.table.contains_key(v)
            &&& n.table == s.table.remove(v)
            &&& slru_bytes(n) + s.table[v].0 == slru_bytes(s)
        }),
{
    if s.probation.len() > 0 {
        lemma_drop_front(s, 0);
    } else {
        lemma_drop_front(s, 1);
    }
}

pub proof fn lemma_slru_make_room(s: SlruState, room: int)
    requires
        slru_consistent(s),
    ensures
        slru_consistent(slru_make_room(s, room).0),
        slru_make_room(s, room).0.probation.len() + slru_make_room(s, room).0.protected.len() == 0
            || slru_bytes(slru_make_room(s, room).0) <= room,
        forall|k: ObjectId| #[trigger] slru_make_room(s, room).0.table.contains_key(k) ==> s.table.contains_key(k),
        slru_bytes(slru_make_room(s, room).0) <= slru_bytes(s),
        (slru_make_room(s, room).1 == 0) == (slru_make_room(s, room).2 is None),
    decreases s.probation.len() + s.protected.len(),
{
    if s.probation.len() + s.protected.len() == 0 || slru_bytes(s) <= room {
    } else {
        lemma_slru_evict(s);
        lemma_slru_make_room(slru_evict(s).0, room);
    }
}

/// SLRU (Segmented LRU) cache implementation
///
/// SLRU maintains two LRU segments:
/// - Probation segment: For newly inserted objects
/// - Protected segment: For frequently accessed objects
///
/// On cache hit:
/// - Objects in probation are promoted to protected
/// - Objects in protected remain there (moved to MRU position)
///
/// On eviction:
/// - First try to evict from probation
/// - If probation is empty, demote LRU from protected to probation and evict from probation
pub struct SlruCache {
    capacity: u64,
    probation_capacity: u64,
    protected_capacity: u64,
    probation_used: u64,
    protected_used: u64,
    objects: ObjectTable,
    probation_queue: VecDeque<ObjectId>,
    protected_queue: VecDeque<ObjectId>,
    stats: CacheStats,
}

impl SlruCache {
    pub closed spec fn state(&self) -> SlruState {
        SlruState { probation: self.probation_queue@, protected: self.protected_queue@, table: table_contents(self.objects) }
    }

    pub closed spec fn cap(&self) -> nat {
        self.capacity as nat
    }

    /// Bytes set aside for probation.
    pub closed spec fn probation_cap(&self) -> nat {
        self.probation_capacity as nat
    }

    pub closed spec fn counters(&self) -> CacheStats {
        self.stats
    }

    pub closed spec fn split_ok(&self) -> bool {
        &&& self.probation_used == segment_bytes(self.state().probation, self.state().table)
        &&& self.protected_used == segment_bytes(self.state().protected, self.state().table)
        &&& self.probation_capacity + self.protected_capacity == self.capacity
    }

    pub open spec fn well_formed(&self) -> bool {
        &&& slru_consistent(self.state())
        &&& self.split_ok()
        &&& slru_bytes(self.state()) <= u64::MAX
    }

    /// Create a new SLRU cache with the given capacity and the bytes of it set
    /// aside for probation (the rest is for protected).
    pub fn new(capacity: u64, probation_capacity: u64) -> (c: Self)
        requires
            probation_capacity <= capacity,
        ensures
            c.well_formed(),
            c.cap() == capacity,
            c.probation_cap() == probation_capacity,
            c.state().probation.len() == 0 && c.state().protected.len() == 0,
            c.state().table.dom().is_empty(),
            c.counters().is_zero(),
    {
        let protected_capacity = capacity - probation_capacity;
        let c = SlruCache {
            capacity,
            probation_capacity,
            protected_capacity,
            probation_used: 0,
            protected_used: 0,
            objects: ObjectTable::new(),
            probation_queue: VecDeque::new(),
            protected_queue: VecDeque::new(),
            stats: CacheStats::new(),
        };
        proof {
            assert(in_segment(c.state().table, 0) =~= Set::<u64>::empty());
            assert(in_segment(c.state().table, 1) =~= Set::<u64>::empty());
        }
        c
    }

    /// The size and segment of a held object.
    pub fn entry(&self, obj_id: ObjectId) -> (r: Option<(u32, Segment)>)
        requires
            self.well_formed(),
        ensures
            r == (if self.state().table.contains_key(obj_id) {
                Some((self.state().table[obj_id].0, if self.state().table[obj_id].1 == 0 { Segment::Probation } else { Segment::Protected }))
            } else {
                None
            }),
    {
        match self.objects.get(obj_id) {
            Some(slot) => Some((slot.0, if slot.1 == 0 { Segment::Probation } else { Segment::Protected })),
            None => None,
        }
    }

    /// Bytes held in probation.
    pub fn probation_used(&self) -> (r: u64)
        requires
            self.well_formed(),
        ensures
            r == segment_bytes(self.state().probation, self.state().table),
    {
        self.probation_used
    }

    /// Bytes held in protected.
    pub fn protected_used(&self) -> (r: u64)
        requires
            self.well_formed(),
        ensures
            r == segment_bytes(self.state().protected, self.state().table),
    {
        self.protected_used
    }

    /// Move an object to the protected segment
    fn promote_to_protected(&mut self, obj_id: ObjectId, obj_size: u32)
        requires
            old(self).well_formed(),
            old(self).state().table.contains_key(obj_id),
            old(self).state().table[obj_id].1 == 0,
            old(self).state().table[obj_id].0 == obj_size,
        ensures
            final(self).well_formed(),
            final(self).state() == slru_hit(old(self).state(), obj_id),
            final(self).cap() == old(self).cap(),
            final(self).probation_cap() == old(self).probation_cap(),
            final(self).counters() == old(self).counters(),
    {
        let ghost s = self.state();
        let ghost e = s.table[obj_id];
        let ghost t2 = s.table.insert(obj_id, (e.0, 1u64, e.2));
        let ghost i = lemma_lists_index(s.probation, in_segment(s.table, 0), obj_id);
        proof {
            assert(in_segment(s.table, 0).contains(obj_id));
            lemma_index_of_unique(s.probation, i);
            lemma_lists_remove(s.probation, in_segment(s.table, 0), i);
            lemma_in_segment_insert(s.table, obj_id, (e.0, 1u64, e.2), 0);
            lemma_in_segment_insert(s.table, obj_id, (e.0, 1u64, e.2), 1);
            assert(!in_segment(s.table, 1).contains(obj_id));
            lemma_lists_push(s.protected, in_segment(s.table, 1), obj_id);
            lemma_sum_remove(s.probation, i, table_weight(s.table, slot_bytes()));
            let pr = s.probation.remove(i);
            assert forall|j: int| 0 <= j < pr.len() implies s.table.contains_key(#[trigger] pr[j]) && t2.contains_key(pr[j]) && s.table[pr[j]].0 == t2[pr[j]].0 by {
                assert(in_segment(s.table, 0).remove(obj_id).contains(pr[j]));
            }
            lemma_segment_frame(pr, s.table, t2);
            assert forall|j: int| 0 <= j < s.protected.len() implies s.table.contains_key(#[trigger] s.protected[j]) && t2.contains_key(s.protected[j]) && s.table[s.protected[j]].0 == t2[s.protected[j]].0 by {
                assert(in_segment(s.table, 1).contains(s.protected[j]));
            }
            lemma_segment_frame(s.protected, s.table, t2);
            lemma_sum_push(s.protected, obj_id, table_weight(t2, slot_bytes()));
        }
        // Remove from probation
        if let Some(pos) = position_of(&self.probation_queue, obj_id) {
            self.probation_queue.remove(pos);
            self.probation_used -= obj_size as u64;
        }
        // Add to protected
        self.protected_queue.push_back(obj_id);
        self.protected_used += obj_size as u64;
        // Update segment
        if let Some(slot) = self.objects.get(obj_id) {
            self.objects.insert(obj_id, (slot.0, 1, slot.2));
        }
    }

    /// Move an object to MRU position in protected segment
    fn touch_protected(&mut self, obj_id: ObjectId)
        requires
            old(self).well_formed(),
            old(self).state().table.contains_key(obj_id),
            old(self).state().table[obj_id].1 == 1,
        ensures
            final(self).well_formed(),
            final(self).state() == slru_hit(old(self).state(), obj_id),
            final(self).cap() == old(self).cap(),
            final(self).probation_cap() == old(self).probation_cap(),
            final(self).counters() == old(self).counters(),
    {
        let ghost s = self.state();
        proof {
            assert(in_segment(s.table, 1).contains(obj_id));
            lemma_move_to_back_in(s.protected, in_segment(s.table, 1), table_weight(s.table, slot_bytes()), obj_id);
        }
        if let Some(pos) = position_of(&self.protected_queue, obj_id) {
            self.protected_queue.remove(pos);
            self.protected_queue.push_back(obj_id);
        }
    }

    /// Evict from probation segment
    fn evict_from_probation(&mut self) -> (r: Option<ObjectId>)
        requires
            old(self).well_formed(),
            old(self).state().probation.len() > 0,
        ensures
            final(self).well_formed(),
            (final(self).state(), r->0) == slru_evict(old(self).state()),
            r is Some,
            final(self).cap() == old(self).cap(),
            final(self).probation_cap() == old(self).probation_cap(),
            old(self).counters().advanced(final(self).counters(), 0, 0, 0, 1, 0),
    {
        let ghost s = self.state();
        proof {
            lemma_drop_front(s, 0);
            lemma_pop_front_is_remove(s.probation);
        }
        if let Some(obj_id) = self.probation_queue.pop_front() {
            if let Some(slot) = self.objects.remove(obj_id) {
                self.probation_used -= slot.0 as u64;
                self.stats.inc_evict();
                return Some(obj_id);
            }
        }
        None
    }

    /// Demote from protected to probation, then evict from probation
    fn demote_and_evict(&mut self) -> (r: Option<ObjectId>)
        requires
            old(self).well_formed(),
            old(self).state().probation.len() == 0,
            old(self).state().protected.len() > 0,
        ensures
            final(self).well_formed(),
            (final(self).state(), r->0) == slru_evict(old(self).state()),
            r is Some,
            final(self).cap() == old(self).cap(),
            final(self).probation_cap() == old(self).probation_cap(),
            old(self).counters().advanced(final(self).counters(), 0, 0, 0, 1, 0),
    {
        let ghost s = self.state();
        let ghost v = s.protected[0];
        let ghost e = s.table[v];
        proof {
            assert(in_segment(s.table, 1).contains(v));
            lemma_drop_front(s, 1);
            lemma_pop_front_is_remove(s.protected);
            let t2 = s.table.insert(v, (e.0, 0u64, e.2));
            lemma_in_segment_insert(s.table, v, (e.0, 0u64, e.2), 0);
            lemma_in_segment_insert(s.table, v, (e.0, 0u64, e.2), 1);
            lemma_lists_remove(s.protected, in_segment(s.table, 1), 0);
            assert(!in_segment(s.table, 0).contains(v));
            lemma_lists_push(s.probation, in_segment(s.table, 0), v);
            let pt = s.protected.remove(0);
            assert forall|j: int| 0 <= j < pt.len() implies s.table.contains_key(#[trigger] pt[j]) && t2.contains_key(pt[j]) && s.table[pt[j]].0 == t2[pt[j]].0 by {
                assert(in_segment(s.table, 1).remove(v).contains(pt[j]));
            }
            lemma_segment_frame(pt, s.table, t2);
            lemma_sum_remove(s.protected, 0, table_weight(s.table, slot_bytes()));
            lemma_sum_push(s.probation, v, table_weight(t2, slot_bytes()));
            assert(s.probation =~= Seq::<ObjectId>::empty());
        }
        // Move LRU from protected to probation
        if let Some(obj_id) = self.protected_queue.pop_front() {
            if let Some(slot) = self.objects.get(obj_id) {
                let size = slot.0;
                self.objects.insert(obj_id, (slot.0, 0, slot.2));
                self.protected_used -= size as u64;
                self.probation_used += size as u64;
                self.probation_queue.push_back(obj_id);
            }
        }
        // Now evict from probation
        let ghost mid = self.state();
        proof {
            assert(mid.probation =~= seq![v]);
            assert(mid.table.remove(v) =~= s.table.remove(v));
        }
        let r = self.evict_from_probation();
        proof {
            assert(self.state().probation =~= s.probation);
            assert(self.state().table =~= s.table.remove(v));
            assert(self.state().protected =~= s.protected.remove(0));
        }
        r
    }
}

impl CacheModel for SlruCache {
    open spec fn inv(&self) -> bool {
        self.well_formed()
    }

    open spec fn get_admits(&self, req: Request) -> bool {
        self.insert_admits(req)
    }

    /// The bytes held must not overflow.
    open spec fn insert_admits(&self, req: Request) -> bool {
        self.state().table.contains_key(req.obj_id) || req.obj_size > self.cap() || slru_bytes(self.state()) + req.obj_size <= u64::MAX
    }

    open spec fn remove_admits(&self, obj_id: ObjectId) -> bool {
        true
    }

    open spec fn spec_size(&self) -> nat {
        slru_bytes(self.state())
    }

    open spec fn spec_capacity(&self) -> nat {
        self.cap()
    }

    open spec fn spec_len(&self) -> nat {
        self.state().probation.len() + self.state().protected.len()
    }

    open spec fn spec_stats(&self) -> CacheStats {
        self.counters()
    }

    open spec fn spec_holds(&self, id: ObjectId) -> bool {
        self.state().table.contains_key(id)
    }

    open spec fn spec_size_of(&self, id: ObjectId) -> u32 {
        self.state().table[id].0
    }
}

impl Cache for SlruCache {
    fn get(&mut self, req: &Request) -> (r: CacheResult)
        ensures
            final(self).cap() == old(self).cap(),
            old(self).state().table.contains_key(req.obj_id) ==> {
                &&& r == CacheResult::Hit { obj_size: old(self).state().table[req.obj_id].0 }
                &&& final(self).state() == slru_hit(old(self).state(), req.obj_id)
                &&& old(self).counters().advanced(final(self).counters(), 1, 1, 0, 0, 0)
            },
            !old(self).state().table.contains_key(req.obj_id) && req.obj_size > old(self).cap() ==> {
                &&& r == CacheResult::Miss
                &&& final(self).state() == old(self).state()
                &&& old(self).counters().advanced(final(self).counters(), 1, 0, 1, 0, 0)
            },
            !old(self).state().table.contains_key(req.obj_id) && req.obj_size <= old(self).cap() ==> {
                let (after, k, _) = slru_make_room(old(self).state(), old(self).cap() - req.obj_size);
                &&& r == CacheResult::Miss
                &&& final(self).state() == (SlruState {
                    probation: after.probation.push(req.obj_id),
                    table: after.table.insert(req.obj_id, (req.obj_size, 0u64, 0u64)),
                    ..after
                })
                &&& old(self).counters().advanced(final(self).counters(), 1, 0, 1, k, 1)
            },
    {
        self.stats.inc_req();
        let ghost s1 = self.stats;
        match self.objects.get(req.obj_id) {
            Some(slot) => {
                self.stats.inc_hit();
                if slot.1 == 0 {
                    // Promote to protected on hit
                    self.promote_to_protected(req.obj_id, slot.0);
                } else {
                    // Move to MRU in protected
                    self.touch_protected(req.obj_id);
                }
                proof {
                    lemma_advanced_trans(old(self).stats, s1, self.stats, 1, 0, 0, 0, 0, 0, 1, 0, 0, 0);
                }
                CacheResult::Hit { obj_size: slot.0 }
            },
            None => {
                self.stats.inc_miss();
                let ghost s2 = self.stats;
                self.insert(req);
                proof {
                    lemma_advanced_trans(old(self).stats, s1, s2, 1, 0, 0, 0, 0, 0, 0, 1, 0, 0);
                    let k = slru_make_room(old(self).state(), old(self).cap() - req.obj_size).1;
                    if req.obj_size <= old(self).cap() {
                        lemma_advanced_trans(old(self).stats, s2, self.stats, 1, 0, 1, 0, 0, 0, 0, 0, k, 1);
                    } else {
                        lemma_advanced_trans(old(self).stats, s2, self.stats, 1, 0, 1, 0, 0, 0, 0, 0, 0, 0);
                    }
                }
                CacheResult::Miss
            },
        }
    }

    fn insert(&mut self, req: &Request) -> (r: InsertResult)
        ensures
            !old(self).spec_holds(req.obj_id) && req.obj_size <= old(self).spec_capacity() ==> final(self).spec_size() <= final(self).spec_capacity(),
            final(self).cap() == old(self).cap(),
            old(self).state().table.contains_key(req.obj_id) ==> r == InsertResult::Inserted
                && final(self).state() == old(self).state() && final(self).counters() == old(self).counters(),
            !old(self).state().table.contains_key(req.obj_id) && req.obj_size > old(self).cap() ==> r
                == InsertResult::Rejected && final(self).state() == old(self).state()
                && final(self).counters() == old(self).counters(),
            !old(self).state().table.contains_key(req.obj_id) && req.obj_size <= old(self).cap() ==> {
                let (after, k, last) = slru_make_room(old(self).state(), old(self).cap() - req.obj_size);
                &&& final(self).state() == (SlruState {
                    probation: after.probation.push(req.obj_id),
                    table: after.table.insert(req.obj_id, (req.obj_size, 0u64, 0u64)),
                    ..after
                })
                &&& old(self).counters().advanced(final(self).counters(), 0, 0, 0, k, 1)
                &&& r == match last {
                    Some(v) => InsertResult::Evicted { evicted_id: v },
                    None => InsertResult::Inserted,
                }
            },
    {
        // Check if already exists
        if self.objects.contains_key(req.obj_id) {
            return InsertResult::Inserted;
        }
        // Check if object can fit
        if req.obj_size as u64 > self.capacity {
            return InsertResult::Rejected;
        }
        let ghost room = self.capacity - req.obj_size;
        let ghost target = slru_make_room(self.state(), room);
        let ghost s0 = self.stats;
        let ghost mut j: nat = 0;
        proof {
            lemma_slru_make_room(self.state(), room);
            lemma_advanced_refl(s0);
        }
        // Evict until there's space
        let mut evicted_id: Option<ObjectId> = None;
        while self.probation_used + self.protected_used + req.obj_size as u64 > self.capacity
            invariant
                self.well_formed(),
                self.capacity == old(self).capacity,
                self.probation_capacity == old(self).probation_capacity,
                req.obj_size <= self.capacity,
                slru_bytes(self.state()) + req.obj_size <= u64::MAX,
                !self.state().table.contains_key(req.obj_id),
                room == self.capacity - req.obj_size,
                slru_make_room(self.state(), room).0 == target.0,
                slru_make_room(self.state(), room).1 + j == target.1,
                j == 0 ==> evicted_id is None,
                target.2 == (if slru_make_room(self.state(), room).1 > 0 {
                    slru_make_room(self.state(), room).2
                } else {
                    evicted_id
                }),
                (slru_make_room(self.state(), room).1 == 0) == (slru_make_room(self.state(), room).2 is None),
                s0.advanced(self.stats, 0, 0, 0, j, 0),
            ensures
                self.well_formed(),
                self.state() == target.0,
                j == target.1,
                target.2 == evicted_id,
                s0.advanced(self.stats, 0, 0, 0, j, 0),
            decreases self.state().probation.len() + self.state().protected.len(),
        {
            let ghost st = self.state();
            let ghost s1 = self.stats;
            proof {
                if st.probation.len() + st.protected.len() == 0 {
                    assert(slru_bytes(st) == 0);
                }
                lemma_slru_evict(st);
                lemma_slru_make_room(slru_evict(st).0, room);
            }
            // Try probation first
            if self.probation_queue.len() > 0 {
                if let Some(id) = self.evict_from_probation() {
                    evicted_id = Some(id);
                }
            } else if self.protected_queue.len() > 0 {
                if let Some(id) = self.demote_and_evict() {
                    evicted_id = Some(id);
                }
            } else {
                proof {
                    assert(slru_bytes(st) == 0);
                }
                break;
            }
            proof {
                lemma_advanced_trans(s0, s1, self.stats, 0, 0, 0, j, 0, 0, 0, 0, 1, 0);
                j = j + 1;
            }
        }
        let ghost after = self.state();
        proof {
            lemma_in_segment_insert(after.table, req.obj_id, (req.obj_size, 0u64, 0u64), 0);
            lemma_in_segment_insert(after.table, req.obj_id, (req.obj_size, 0u64, 0u64), 1);
            assert(!in_segment(after.table, 0).contains(req.obj_id));
            assert(!in_segment(after.table, 1).contains(req.obj_id));
            assert(in_segment(after.table, 1).remove(req.obj_id) =~= in_segment(after.table, 1));
            lemma_lists_push(after.probation, in_segment(after.table, 0), req.obj_id);
            let t2 = after.table.insert(req.obj_id, (req.obj_size, 0u64, 0u64));
            assert forall|i: int| 0 <= i < after.probation.len() implies after.table.contains_key(#[trigger] after.probation[i]) && t2.contains_key(after.probation[i]) && after.table[after.probation[i]].0 == t2[after.probation[i]].0 by {
                assert(in_segment(after.table, 0).contains(after.probation[i]));
            }
            lemma_segment_frame(after.probation, after.table, t2);
            assert forall|i: int| 0 <= i < after.protected.len() implies after.table.contains_key(#[trigger] after.protected[i]) && t2.contains_key(after.protected[i]) && after.table[after.protected[i]].0 == t2[after.protected[i]].0 by {
                assert(in_segment(after.table, 1).contains(after.protected[i]));
            }
            lemma_segment_frame(after.protected, after.table, t2);
            lemma_sum_push(after.probation, req.obj_id, table_weight(t2, slot_bytes()));
        }
        // Insert into probation segment
        self.objects.insert(req.obj_id, (req.obj_size, 0, 0));
        self.probation_queue.push_back(req.obj_id);
        self.probation_used += req.obj_size as u64;
        let ghost s2 = self.stats;
        self.stats.inc_insert();
        proof {
            lemma_advanced_trans(s0, s2, self.stats, 0, 0, 0, j, 0, 0, 0, 0, 0, 1);
        }
        if let Some(evicted) = evicted_id {
            InsertResult::Evicted { evicted_id: evicted }
        } else {
            InsertResult::Inserted
        }
    }

    fn evict(&mut self) -> (r: Option<ObjectId>)
        ensures
            final(self).cap() == old(self).cap(),
            old(self).state().probation.len() + old(self).state().protected.len() == 0 ==> r is None
                && final(self).state() == old(self).state() && final(self).counters() == old(self).counters(),
            old(self).state().probation.len() + old(self).state().protected.len() > 0 ==> {
                &&& (final(self).state(), r->0) == slru_evict(old(self).state())
                &&& r is Some
                &&& old(self).counters().advanced(final(self).counters(), 0, 0, 0, 1, 0)
            },
    {
        proof {
            if self.state().probation.len() + self.state().protected.len() > 0 {
                lemma_slru_evict(self.state());
            }
        }
        if self.probation_queue.len() > 0 {
            self.evict_from_probation()
        } else if self.protected_queue.len() > 0 {
            self.demote_and_evict()
        } else {
            None
        }
    }

    fn remove(&mut self, obj_id: ObjectId) -> (r: bool)
        ensures
            final(self).cap() == old(self).cap(),
            final(self).counters() == old(self).counters(),
            r == old(self).state().table.contains_key(obj_id),
            final(self).state().table == old(self).state().table.remove(obj_id),
            !r ==> final(self).state() == old(self).state(),
            r && old(self).state().table[obj_id].1 == 0 ==> final(self).state().probation == old(self).state().probation.remove(
                old(self).state().probation.index_of(obj_id),
            ) && final(self).state().protected == old(self).state().protected,
            r && old(self).state().table[obj_id].1 == 1 ==> final(self).state().protected == old(self).state().protected.remove(
                old(self).state().protected.index_of(obj_id),
            ) && final(self).state().probation == old(self).state().probation,
    {
        let ghost s = self.state();
        if let Some(slot) = self.objects.remove(obj_id) {
            let code = slot.1;
            proof {
                lemma_in_segment_remove(s.table, obj_id, 0);
                lemma_in_segment_remove(s.table, obj_id, 1);
                let t2 = s.table.remove(obj_id);
                let q = if code == 0 { s.probation } else { s.protected };
                let other = if code == 0 { s.protected } else { s.probation };
                assert(in_segment(s.table, code).contains(obj_id));
                let i = lemma_lists_index(q, in_segment(s.table, code), obj_id);
                lemma_index_of_unique(q, i);
                lemma_lists_remove(q, in_segment(s.table, code), i);
                lemma_sum_remove(q, i, table_weight(s.table, slot_bytes()));
                assert(!in_segment(s.table, (1 - code) as u64).contains(obj_id));
                assert(in_segment(s.table, (1 - code) as u64).remove(obj_id) =~= in_segment(s.table, (1 - code) as u64));
                let qr = q.remove(i);
                assert forall|j: int| 0 <= j < qr.len() implies s.table.contains_key(#[trigger] qr[j]) && t2.contains_key(qr[j]) && s.table[qr[j]].0 == t2[qr[j]].0 by {
                    assert(in_segment(s.table, code).remove(obj_id).contains(qr[j]));
                }
                lemma_segment_frame(qr, s.table, t2);
                assert forall|j: int| 0 <= j < other.len() implies s.table.contains_key(#[trigger] other[j]) && t2.contains_key(other[j]) && s.table[other[j]].0 == t2[other[j]].0 by {
                    assert(in_segment(s.table, (1 - code) as u64).contains(other[j]));
                }
                lemma_segment_frame(other, s.table, t2);
            }
            if code == 0 {
                self.probation_used -= slot.0 as u64;
                if let Some(pos) = position_of(&self.probation_queue, obj_id) {
                    self.probation_queue.remove(pos);
                }
            } else {
                self.protected_used -= slot.0 as u64;
                if let Some(pos) = position_of(&self.protected_queue, obj_id) {
                    self.protected_queue.remove(pos);
                }
            }
            true
        } else {
            proof {
                assert(self.state().table =~= s.table);
            }
            false
        }
    }

    fn clear(&mut self)
        ensures
            final(self).state().probation.len() == 0 && final(self).state().protected.len() == 0,
            final(self).probation_cap() == old(self).probation_cap(),
            final(self).counters() == old(self).counters(),
    {
        clear_table(&mut self.objects);
        self.probation_queue.clear();
        self.protected_queue.clear();
        self.probation_used = 0;
        self.protected_used = 0;
        proof {
            assert(in_segment(self.state().table, 0) =~= Set::<u64>::empty());
            assert(in_segment(self.state().table, 1) =~= Set::<u64>::empty());
        }
    }

    fn size(&self) -> (r: u64) {
        self.probation_used + self.protected_used
    }

    fn capacity(&self) -> (r: u64) {
        self.capacity
    }

    fn len(&self) -> (r: usize) {
        proof {
            let t = self.state().table;
            lemma_lists_len(self.state().probation, in_segment(t, 0));
            lemma_lists_len(self.state().protected, in_segment(t, 1));
            assert(t.dom() =~= in_segment(t, 0) + in_segment(t, 1));
            vstd::set_lib::lemma_set_disjoint_lens(in_segment(t, 0), in_segment(t, 1));
        }
        self.objects.len()
    }

    fn stats(&self) -> (r: &CacheStats) {
        &self.stats
    }

    fn reset_stats(&mut self)
        ensures
            final(self).state() == old(self).state(),
    {
        self.stats.reset();
    }
}

/// A hit on a protected entry makes it the most recently used of the protected
/// segment: the segment keeps the same ids, the others in their order, with the hit
/// one moved to the back (MRU end); probation and the table stay as they were.
pub proof fn law_protected_hit_moves_to_mru(s: SlruState, id: ObjectId)
    requires
        slru_consistent(s),
        s.table.contains_key(id),
        s.table[id].1 == 1,
    ensures
        ({
            let t = slru_hit(s, id);
            &&& t.protected.len() == s.protected.len()
            &&& t.protected.last() == id
            &&& t.protected.drop_last() == s.protected.remove(s.protected.index_of(id))
            &&& forall|x: ObjectId| t.protected.contains(x) <==> s.protected.contains(x)
            &&& t.probation == s.probation
            &&& t.table == s.table
        }),
{
    assert(in_segment(s.table, 1).contains(id));
    let i = s.protected.index_of(id);
    let t = slru_hit(s, id);
    assert(t.protected.drop_last() =~= s.protected.remove(i));
    assert forall|x: ObjectId| t.protected.contains(x) <==> s.protected.contains(x) by {
        if x == id {
            assert(t.protected[t.protected.len() - 1] == id);
        }
        if s.protected.contains(x) && x != id {
            let j = choose|j: int| 0 <= j < s.protected.len() && s.protected[j] == x;
            if j < i {
                assert(t.protected[j] == x);
            } else {
                assert(t.protected[j - 1] == x);
            }
        }
        if t.protected.contains(x) && x != id {
            let j = choose|j: int| 0 <= j < t.protected.len() && t.protected[j] == x;
            assert(j < t.protected.len() - 1);
            if j < i {
                assert(s.protected[j] == x);
            } else {
                assert(s.protected[j + 1] == x);
            }
        }
    }
}

/// A hit on a probation entry promotes it: it leaves probation and becomes the most
/// recently used entry of the protected segment, with its size kept.
pub proof fn law_probation_hit_promotes(s: SlruState, id: ObjectId)
    requires
        slru_consistent(s),
        s.table.contains_key(id),
        s.table[id].1 == 0,
    ensures
        ({
            let t = slru_hit(s, id);
            &&& t.protected.last() == id
            &&& t.protected.drop_last() == s.protected
            &&& !t.probation.contains(id)
            &&& t.probation.len() + 1 == s.probation.len()
            &&& t.table.contains_key(id)
            &&& t.table[id].1 == 1
            &&& t.table[id].0 == s.table[id].0
        }),
{
    assert(in_segment(s.table, 0).contains(id));
    let i = s.probation.index_of(id);
    assert(s.probation.contains(id));
    let t = slru_hit(s, id);
    assert(t.protected.drop_last() =~= s.protected);
    if t.probation.contains(id) {
        let j = choose|j: int| 0 <= j < t.probation.len() && t.probation[j] == id;
        if j < i {
            assert(s.probation[j] == id);
        } else {
            assert(s.probation[j + 1] == id);
        }
    }
}

} // verus!
