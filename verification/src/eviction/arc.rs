//! ARC (Adaptive Replacement Cache) implementation
//!
//! ARC dynamically balances between recency and frequency by maintaining:
//! - T1: Recent cache entries (seen once)
//! - T2: Frequent cache entries (seen multiple times)
//! - B1: Ghost entries evicted from T1
//! - B2: Ghost entries evicted from T2
//!
//! The algorithm adaptively adjusts the target size of T1 based on workload.
use std::collections::HashMap;
use std::collections::VecDeque;
use vstd::prelude::*;

use crate::cache::{Cache, CacheModel, CacheResult, InsertResult};
use crate::ordered::{
    lemma_index_of_unique, lemma_lists_index, lemma_lists_len, lemma_lists_push,
    lemma_lists_remove, lemma_lists_without, lemma_move_to_back_in, lemma_pop_front_is_remove,
    lemma_sum_prefix, lemma_sum_without,
    lemma_sum_push, lemma_sum_remove, lemma_sum_same_weights, lists_exactly, moved_to_back,
    position_of, remove_id, sum_over, table_weight, without,
};
use crate::request::Request;
use crate::stats::{lemma_advanced_refl, lemma_advanced_trans, CacheStats};
use crate::{ObjectId, ObjectSize};

verus! {

broadcast use vstd::std_specs::hash::group_hash_axioms;

/// Location of an object in ARC
#[derive(Debug, Clone, Copy, PartialEq, Eq, Structural)]
pub enum Location {
    T1,
    T2,
    B1,
    B2,
}

/// Entry in the ARC cache
#[derive(Debug, Clone, Copy, PartialEq, Eq, Structural)]
pub struct ArcEntry {
    pub obj_id: ObjectId,
    pub obj_size: ObjectSize,
    pub location: Location,
}

/// The four lists, the entries and the target size of T1.
pub struct ArcState {
    pub t1: Seq<ObjectId>,
    pub t2: Seq<ObjectId>,
    pub b1: Seq<ObjectId>,
    pub b2: Seq<ObjectId>,
    pub entries: Map<ObjectId, ArcEntry>,
    pub p: int,
}

/// Bytes of an entry.
pub open spec fn entry_bytes() -> spec_fn(ArcEntry) -> nat {
    |e: ArcEntry| e.obj_size as nat
}

/// Bytes of the entries listed by `order`.
pub open spec fn list_bytes(order: Seq<ObjectId>, entries: Map<ObjectId, ArcEntry>) -> nat {
    sum_over(order, table_weight(entries, entry_bytes()))
}

/// Bytes held: those of T1 and of T2 (ghost entries hold none).
pub open spec fn arc_bytes(s: ArcState) -> nat {
    list_bytes(s.t1, s.entries) + list_bytes(s.t2, s.entries)
}

/// Ids whose entry sits in list `l`.
pub open spec fn located(entries: Map<ObjectId, ArcEntry>, l: Location) -> Set<ObjectId> {
    Set::new(|k: ObjectId| entries.contains_key(k) && entries[k].location == l)
}

/// Each list lists exactly the ids located in it.
pub open spec fn lists_consistent(s: ArcState) -> bool {
    &&& lists_exactly(s.t1, located(s.entries, Location::T1))
    &&& lists_exactly(s.t2, located(s.entries, Location::T2))
    &&& lists_exactly(s.b1, located(s.entries, Location::B1))
    &&& lists_exactly(s.b2, located(s.entries, Location::B2))
    &&& forall|k: ObjectId| #[trigger] s.entries.contains_key(k) ==> s.entries[k].obj_id == k
}

/// Move the front of T1 (or of T2) to the back of B1 (or B2); if that ghost list
/// is then longer than `cap` ids, its oldest id is forgotten.
pub open spec fn demote(s: ArcState, cap: nat, from_t1: bool) -> ArcState {
    if from_t1 {
        let v = s.t1[0];
        let entries = s.entries.insert(v, ArcEntry { location: Location::B1, ..s.entries[v] });
        let b1 = s.b1.push(v);
        if b1.len() > cap {
            ArcState { t1: s.t1.remove(0), b1: b1.remove(0), entries: entries.remove(b1[0]), ..s }
        } else {
            ArcState { t1: s.t1.remove(0), b1, entries, ..s }
        }
    } else {
        let v = s.t2[0];
        let entries = s.entries.insert(v, ArcEntry { location: Location::B2, ..s.entries[v] });
        let b2 = s.b2.push(v);
        if b2.len() > cap {
            ArcState { t2: s.t2.remove(0), b2: b2.remove(0), entries: entries.remove(b2[0]), ..s }
        } else {
            ArcState { t2: s.t2.remove(0), b2, entries, ..s }
        }
    }
}

/// Whether the next demotion takes the front of T1 (else the front of T2, if any):
/// T1 is above its target size.
pub open spec fn t1_chosen(s: ArcState) -> bool {
    s.t1.len() > 0 && list_bytes(s.t1, s.entries) > s.p
}

/// Demote entries until `size` more bytes fit within `cap`, or nothing can be demoted.
pub open spec fn arc_replace(s: ArcState, cap: nat, size: nat) -> ArcState
    decreases s.t1.len() + s.t2.len(),
{
    if arc_bytes(s) + size > cap {
        if t1_chosen(s) {
            arc_replace(demote(s, cap, true), cap, size)
        } else if s.t2.len() > 0 {
            arc_replace(demote(s, cap, false), cap, size)
        } else {
            s
        }
    } else {
        s
    }
}

/// The ids `arc_replace` demotes, in the order it demotes them.
pub open spec fn arc_demoted(s: ArcState, cap: nat, size: nat) -> Seq<ObjectId>
    decreases s.t1.len() + s.t2.len(),
{
    if arc_bytes(s) + size > cap {
        if t1_chosen(s) {
            seq![s.t1[0]] + arc_demoted(demote(s, cap, true), cap, size)
        } else if s.t2.len() > 0 {
            seq![s.t2[0]] + arc_demoted(demote(s, cap, false), cap, size)
        } else {
            Seq::empty()
        }
    } else {
        Seq::empty()
    }
}

/// Growth of `p` on a hit in B1.
pub open spec fn b1_delta(b1_len: nat, b2_len: nat) -> nat {
    if b1_len >= b2_len {
        1
    } else {
        b2_len / b1_len
    }
}

/// Shrinkage of `p` on a hit in B2.
pub open spec fn b2_delta(b1_len: nat, b2_len: nat) -> nat {
    if b2_len >= b1_len {
        1
    } else {
        b1_len / b2_len
    }
}

/// ARC (Adaptive Replacement Cache)
///
/// # Example
/// ```
/// use libcachesim::{Cache, Request};
/// use libcachesim::eviction::ArcCache;
///
/// let mut cache = ArcCache::new(1000);
/// let req = Request::new(1, 100);
/// cache.insert(&req);
/// ```
pub struct ArcCache {
    capacity: ObjectSize,
    current_size: ObjectSize,
    p: ObjectSize,  // Target size for T1
    t1: VecDeque<ObjectId>,
    t2: VecDeque<ObjectId>,
    b1: VecDeque<ObjectId>,
    b2: VecDeque<ObjectId>,
    entries: HashMap<ObjectId, ArcEntry>,
    stats: CacheStats,
}

pub proof fn lemma_located_insert(
    entries: Map<ObjectId, ArcEntry>,
    k: ObjectId,
    e: ArcEntry,
    l: Location,
)
    ensures
        located(entries.insert(k, e), l) == if e.location == l {
            located(entries, l).insert(k)
        } else {
            located(entries, l).remove(k)
        },
{
    assert(located(entries.insert(k, e), l) =~= if e.location == l {
        located(entries, l).insert(k)
    } else {
        located(entries, l).remove(k)
    });
}

pub proof fn lemma_located_remove(entries: Map<ObjectId, ArcEntry>, k: ObjectId, l: Location)
    ensures
        located(entries.remove(k), l) == located(entries, l).remove(k),
{
    assert(located(entries.remove(k), l) =~= located(entries, l).remove(k));
}

/// Entries changed only at ids outside `order` leave its byte count alone.
pub proof fn lemma_bytes_frame(
    order: Seq<ObjectId>,
    e1: Map<ObjectId, ArcEntry>,
    e2: Map<ObjectId, ArcEntry>,
)
    requires
        forall|i: int| 0 <= i < order.len() ==> e1.contains_key(#[trigger] order[i]) && e2.contains_key(order[i]) && e1[order[i]].obj_size == e2[order[i]].obj_size,
    ensures
        list_bytes(order, e1) == list_bytes(order, e2),
{
    assert forall|j: int| 0 <= j < order.len() implies table_weight(e1, entry_bytes())(
        #[trigger] order[j],
    ) == table_weight(e2, entry_bytes())(order[j]) by {
        assert(e1.contains_key(order[j]));
    }
    lemma_sum_same_weights(order, table_weight(e1, entry_bytes()), table_weight(e2, entry_bytes()));
}

/// One demotion keeps the lists consistent, keeps ghost lists within `cap` ids,
/// and takes the demoted entry's bytes off the total.
pub proof fn lemma_demote(s: ArcState, cap: nat, from_t1: bool)
    requires
        lists_consistent(s),
        s.b1.len() <= cap,
        s.b2.len() <= cap,
        from_t1 ==> s.t1.len() > 0,
        !from_t1 ==> s.t2.len() > 0,
    ensures
        lists_consistent(demote(s, cap, from_t1)),
        demote(s, cap, from_t1).b1.len() <= cap,
        demote(s, cap, from_t1).b2.len() <= cap,
        demote(s, cap, from_t1).p == s.p,
        from_t1 ==> demote(s, cap, from_t1).t1 == s.t1.remove(0) && demote(s, cap, from_t1).t2 == s.t2,
        !from_t1 ==> demote(s, cap, from_t1).t2 == s.t2.remove(0) && demote(s, cap, from_t1).t1 == s.t1,
        arc_bytes(demote(s, cap, from_t1)) + (if from_t1 {
            s.entries[s.t1[0]].obj_size
        } else {
            s.entries[s.t2[0]].obj_size
        }) == arc_bytes(s),
        forall|k: ObjectId| #[trigger] demote(s, cap, from_t1).entries.contains_key(k) ==> s.entries.contains_key(k),
        forall|k: ObjectId| #[trigger] s.entries.contains_key(k) && s.entries[k].location != Location::B1 && s.entries[k].location != Location::B2 && k != (if from_t1 { s.t1[0] } else { s.t2[0] }) ==> demote(s, cap, from_t1).entries.contains_key(k) && demote(s, cap, from_t1).entries[k] == s.entries[k],
        forall|k: ObjectId| #[trigger] demote(s, cap, from_t1).entries.contains_key(k) && (s.entries[k].location == Location::B1 || s.entries[k].location == Location::B2) ==> demote(s, cap, from_t1).entries[k] == s.entries[k],
        forall|k: ObjectId| #[trigger] demote(s, cap, from_t1).entries.contains_key(k) && (demote(s, cap, from_t1).entries[k].location == Location::T1 || demote(s, cap, from_t1).entries[k].location == Location::T2) ==> demote(s, cap, from_t1).entries[k] == s.entries[k],
{
    let d = demote(s, cap, from_t1);
    let (src, dst, src_loc, dst_loc) = if from_t1 {
        (s.t1, s.b1, Location::T1, Location::B1)
    } else {
        (s.t2, s.b2, Location::T2, Location::B2)
    };
    let v = src[0];
    assert(located(s.entries, src_loc).contains(v));
    let e1 = s.entries.insert(v, ArcEntry { location: dst_loc, ..s.entries[v] });
    lemma_located_insert(s.entries, v, ArcEntry { location: dst_loc, ..s.entries[v] }, Location::T1);
    lemma_located_insert(s.entries, v, ArcEntry { location: dst_loc, ..s.entries[v] }, Location::T2);
    lemma_located_insert(s.entries, v, ArcEntry { location: dst_loc, ..s.entries[v] }, Location::B1);
    lemma_located_insert(s.entries, v, ArcEntry { location: dst_loc, ..s.entries[v] }, Location::B2);
    lemma_lists_remove(src, located(s.entries, src_loc), 0);
    assert(!located(s.entries, dst_loc).contains(v));
    lemma_lists_push(dst, located(s.entries, dst_loc), v);
    let dst2 = dst.push(v);
    // bytes: the source list loses `v`; the other list is untouched
    lemma_sum_remove(src, 0, table_weight(s.entries, entry_bytes()));
    src.remove_ensures(0);
    let other = if from_t1 {
        s.t2
    } else {
        s.t1
    };
    if dst2.len() > cap {
        let g = dst2[0];
        assert(located(e1, dst_loc).contains(g));
        lemma_located_remove(e1, g, Location::T1);
        lemma_located_remove(e1, g, Location::T2);
        lemma_located_remove(e1, g, Location::B1);
        lemma_located_remove(e1, g, Location::B2);
        lemma_lists_remove(dst2, located(e1, dst_loc), 0);
        let e2 = e1.remove(g);
        assert forall|i: int| 0 <= i < src.remove(0).len() implies s.entries.contains_key(
            #[trigger] src.remove(0)[i],
        ) && e2.contains_key(src.remove(0)[i]) && s.entries[src.remove(0)[i]].obj_size
            == e2[src.remove(0)[i]].obj_size by {
            assert(src.remove(0)[i] == src[i + 1]);
            assert(located(s.entries, src_loc).contains(src[i + 1]));
        }
        lemma_bytes_frame(src.remove(0), s.entries, e2);
        assert forall|i: int| 0 <= i < other.len() implies s.entries.contains_key(#[trigger] other[i])
            && e2.contains_key(other[i]) && s.entries[other[i]].obj_size == e2[other[i]].obj_size by {
            if from_t1 {
                assert(located(s.entries, Location::T2).contains(other[i]));
            } else {
                assert(located(s.entries, Location::T1).contains(other[i]));
            }
        }
        lemma_bytes_frame(other, s.entries, e2);
        lemma_demote_lists(s, cap, from_t1);
    } else {
        assert forall|i: int| 0 <= i < src.remove(0).len() implies s.entries.contains_key(
            #[trigger] src.remove(0)[i],
        ) && e1.contains_key(src.remove(0)[i]) && s.entries[src.remove(0)[i]].obj_size
            == e1[src.remove(0)[i]].obj_size by {
            assert(src.remove(0)[i] == src[i + 1]);
            assert(located(s.entries, src_loc).contains(src[i + 1]));
        }
        lemma_bytes_frame(src.remove(0), s.entries, e1);
        assert forall|i: int| 0 <= i < other.len() implies s.entries.contains_key(#[trigger] other[i])
            && e1.contains_key(other[i]) && s.entries[other[i]].obj_size == e1[other[i]].obj_size by {
            if from_t1 {
                assert(located(s.entries, Location::T2).contains(other[i]));
            } else {
                assert(located(s.entries, Location::T1).contains(other[i]));
            }
        }
        lemma_bytes_frame(other, s.entries, e1);
        lemma_demote_lists(s, cap, from_t1);
    }
}

/// What a run of demotions keeps: consistency, ghost-list bounds and `p`; it never
/// adds bytes, never adds entries, and never changes a ghost entry or a cached
/// entry that stays cached.
pub proof fn lemma_arc_replace(s: ArcState, cap: nat, size: nat)
    requires
        lists_consistent(s),
        s.b1.len() <= cap,
        s.b2.len() <= cap,
    ensures
        lists_consistent(arc_replace(s, cap, size)),
        arc_replace(s, cap, size).b1.len() <= cap,
        arc_replace(s, cap, size).b2.len() <= cap,
        arc_replace(s, cap, size).p == s.p,
        arc_bytes(arc_replace(s, cap, size)) <= arc_bytes(s),
        forall|k: ObjectId| #[trigger] arc_replace(s, cap, size).entries.contains_key(k) ==> s.entries.contains_key(k),
        forall|k: ObjectId| #[trigger] arc_replace(s, cap, size).entries.contains_key(k) && (s.entries[k].location == Location::B1 || s.entries[k].location == Location::B2) ==> arc_replace(s, cap, size).entries[k] == s.entries[k],
        forall|k: ObjectId| #[trigger] arc_replace(s, cap, size).entries.contains_key(k) && (arc_replace(s, cap, size).entries[k].location == Location::T1 || arc_replace(s, cap, size).entries[k].location == Location::T2) ==> arc_replace(s, cap, size).entries[k] == s.entries[k],
    decreases s.t1.len() + s.t2.len(),
{
    if arc_bytes(s) + size > cap {
        if t1_chosen(s) {
            lemma_demote(s, cap, true);
            lemma_arc_replace(demote(s, cap, true), cap, size);
        } else if s.t2.len() > 0 {
            lemma_demote(s, cap, false);
            lemma_arc_replace(demote(s, cap, false), cap, size);
        }
    }
}

proof fn lemma_set_remove_absent(a: Set<ObjectId>, v: ObjectId)
    requires
        !a.contains(v),
    ensures
        a.remove(v) == a,
{
    assert(a.remove(v) =~= a);
}

proof fn lemma_demote_lists(s: ArcState, cap: nat, from_t1: bool)
    requires
        lists_consistent(s),
        from_t1 ==> s.t1.len() > 0,
        !from_t1 ==> s.t2.len() > 0,
    ensures
        lists_consistent(demote(s, cap, from_t1)),
{
    let d = demote(s, cap, from_t1);
    if from_t1 {
        let v = s.t1[0];
        assert(located(s.entries, Location::T1).contains(v));
        let ne = ArcEntry { location: Location::B1, ..s.entries[v] };
        let e1 = s.entries.insert(v, ne);
        lemma_located_insert(s.entries, v, ne, Location::T1);
        lemma_located_insert(s.entries, v, ne, Location::T2);
        lemma_located_insert(s.entries, v, ne, Location::B1);
        lemma_located_insert(s.entries, v, ne, Location::B2);
        lemma_set_remove_absent(located(s.entries, Location::T2), v);
        lemma_set_remove_absent(located(s.entries, Location::B2), v);
        lemma_lists_remove(s.t1, located(s.entries, Location::T1), 0);
        lemma_lists_push(s.b1, located(s.entries, Location::B1), v);
        let b1 = s.b1.push(v);
        if b1.len() > cap {
            let g = b1[0];
            assert(located(e1, Location::B1).contains(g));
            lemma_located_remove(e1, g, Location::T1);
            lemma_located_remove(e1, g, Location::T2);
            lemma_located_remove(e1, g, Location::B1);
            lemma_located_remove(e1, g, Location::B2);
            lemma_set_remove_absent(located(e1, Location::T1), g);
            lemma_set_remove_absent(located(e1, Location::T2), g);
            lemma_set_remove_absent(located(e1, Location::B2), g);
            lemma_lists_remove(b1, located(e1, Location::B1), 0);
        }
    } else {
        let v = s.t2[0];
        assert(located(s.entries, Location::T2).contains(v));
        let ne = ArcEntry { location: Location::B2, ..s.entries[v] };
        let e1 = s.entries.insert(v, ne);
        lemma_located_insert(s.entries, v, ne, Location::T1);
        lemma_located_insert(s.entries, v, ne, Location::T2);
        lemma_located_insert(s.entries, v, ne, Location::B1);
        lemma_located_insert(s.entries, v, ne, Location::B2);
        lemma_set_remove_absent(located(s.entries, Location::T1), v);
        lemma_set_remove_absent(located(s.entries, Location::B1), v);
        lemma_lists_remove(s.t2, located(s.entries, Location::T2), 0);
        lemma_lists_push(s.b2, located(s.entries, Location::B2), v);
        let b2 = s.b2.push(v);
        if b2.len() > cap {
            let g = b2[0];
            assert(located(e1, Location::B2).contains(g));
            lemma_located_remove(e1, g, Location::T1);
            lemma_located_remove(e1, g, Location::T2);
            lemma_located_remove(e1, g, Location::B1);
            lemma_located_remove(e1, g, Location::B2);
            lemma_set_remove_absent(located(e1, Location::T1), g);
            lemma_set_remove_absent(located(e1, Location::T2), g);
            lemma_set_remove_absent(located(e1, Location::B1), g);
            lemma_lists_remove(b2, located(e1, Location::B2), 0);
        }
    }
}

impl ArcCache {
    /// The lists, entries and target as a value.
    pub closed spec fn state(&self) -> ArcState {
        ArcState {
            t1: self.t1@,
            t2: self.t2@,
            b1: self.b1@,
            b2: self.b2@,
            entries: self.entries@,
            p: self.p as int,
        }
    }

    pub closed spec fn cap(&self) -> nat {
        self.capacity as nat
    }

    pub closed spec fn used(&self) -> nat {
        self.current_size as nat
    }

    pub closed spec fn counters(&self) -> CacheStats {
        self.stats
    }

    pub open spec fn well_formed(&self) -> bool {
        &&& lists_consistent(self.state())
        &&& self.used() == arc_bytes(self.state())
        &&& self.state().b1.len() <= self.cap()
        &&& self.state().b2.len() <= self.cap()
        &&& 0 <= self.state().p <= self.cap()
    }

    /// Create a new ARC cache with the given capacity
    pub fn new(capacity: ObjectSize) -> (c: Self)
        ensures
            c.well_formed(),
            c.state().t1.len() == 0 && c.state().t2.len() == 0 && c.state().b1.len() == 0
                && c.state().b2.len() == 0,
            c.state().p == 0,
            c.state().entries.dom().is_empty(),
            c.used() == 0,
            c.cap() == capacity,
            c.counters().is_zero(),
    {
        let c = Self {
            capacity: capacity as ObjectSize,
            current_size: 0,
            p: 0,
            t1: VecDeque::new(),
            t2: VecDeque::new(),
            b1: VecDeque::new(),
            b2: VecDeque::new(),
            entries: HashMap::new(),
            stats: CacheStats::new(),
        };
        proof {
            assert(located(c.entries@, Location::T1) =~= Set::empty());
            assert(located(c.entries@, Location::T2) =~= Set::empty());
            assert(located(c.entries@, Location::B1) =~= Set::empty());
            assert(located(c.entries@, Location::B2) =~= Set::empty());
        }
        c
    }

    /// Bytes of the objects in T1.
    fn t1_size(&self) -> (r: ObjectSize)
        requires
            self.well_formed(),
        ensures
            r == list_bytes(self.state().t1, self.state().entries),
    {
        let ghost w = table_weight(self.entries@, entry_bytes());
        let n = self.t1.len();
        let mut total: ObjectSize = 0;
        let mut i: usize = 0;
        while i < n
            invariant
                n == self.t1@.len(),
                i <= n,
                total == sum_over(self.t1@.take(i as int), w),
                w == table_weight(self.entries@, entry_bytes()),
                self.well_formed(),
            decreases n - i,
        {
            let id = self.t1[i];
            proof {
                lemma_sum_prefix(self.t1@, i as int, w);
                lemma_sum_prefix(self.t1@, (i + 1) as int, w);
                assert(located(self.entries@, Location::T1).contains(id));
            }
            if let Some(e) = self.entries.get(&id) {
                total = total + e.obj_size;
            }
            i = i + 1;
        }
        proof {
            assert(self.t1@.take(n as int) =~= self.t1@);
        }
        total
    }

    /// Whether `obj_id` is a ghost entry of B2.
    fn in_b2(&self, obj_id: ObjectId) -> (r: bool)
        ensures
            r == (self.state().entries.contains_key(obj_id) && self.state().entries[obj_id].location
                == Location::B2),
    {
        match self.entries.get(&obj_id) {
            Some(e) => e.location == Location::B2,
            None => false,
        }
    }

    /// Move the front of T1 to B1, forgetting the oldest ghost of B1 if B1 grows past capacity.
    fn demote_t1(&mut self) -> (v: ObjectId)
        requires
            old(self).well_formed(),
            old(self).state().t1.len() > 0,
        ensures
            v == old(self).state().t1[0],
            final(self).well_formed(),
            final(self).state() == demote(old(self).state(), old(self).cap(), true),
            final(self).used() + old(self).state().entries[old(self).state().t1[0]].obj_size == old(self).used(),
            final(self).cap() == old(self).cap(),
            final(self).counters() == old(self).counters(),
    {
        let ghost s = self.state();
        proof {
            lemma_demote(s, self.cap(), true);
            assert(located(s.entries, Location::T1).contains(s.t1[0]));
        }
        let popped = self.t1.pop_front();
        let victim_id = match popped {
            Some(v) => v,
            None => {
                proof {
                    assert(false);
                }
                0
            },
        };
        {
            proof {
                lemma_pop_front_is_remove(s.t1);
            }
            if let Some(entry) = self.entries.get(&victim_id) {
                let e = *entry;
                self.current_size -= e.obj_size;
                self.entries.insert(victim_id, ArcEntry { location: Location::B1, ..e });
                self.b1.push_back(victim_id);
                // Limit B1 size
                while self.b1.len() > self.capacity as usize
                    invariant
                        victim_id == s.t1[0],
                        self.b1@.len() <= self.capacity + 1,
                        self.capacity == old(self).capacity,
                        self.current_size == old(self).current_size - e.obj_size,
                        e == s.entries[victim_id],
                        self.p == old(self).p,
                        self.stats == old(self).stats,
                        self.t1@ == s.t1.remove(0),
                        self.t2@ == s.t2,
                        self.b2@ == s.b2,
                        s == old(self).state(),
                        self.b1@.len() > self.capacity ==> self.b1@ == s.b1.push(victim_id)
                            && self.entries@ == s.entries.insert(victim_id, ArcEntry { location: Location::B1, ..e }),
                        self.b1@.len() <= self.capacity ==> self.b1@ == demote(s, self.capacity as nat, true).b1
                            && self.entries@ == demote(s, self.capacity as nat, true).entries,
                    decreases self.b1@.len(),
                {
                    let ghost b = self.b1@;
                    if let Some(id) = self.b1.pop_front() {
                        proof {
                            lemma_pop_front_is_remove(b);
                        }
                        self.entries.remove(&id);
                    }
                }
            }
        }
        victim_id
    }

    /// Move the front of T2 to B2, forgetting the oldest ghost of B2 if B2 grows past capacity.
    fn demote_t2(&mut self) -> (v: ObjectId)
        requires
            old(self).well_formed(),
            old(self).state().t2.len() > 0,
        ensures
            v == old(self).state().t2[0],
            final(self).well_formed(),
            final(self).state() == demote(old(self).state(), old(self).cap(), false),
            final(self).used() + old(self).state().entries[old(self).state().t2[0]].obj_size == old(self).used(),
            final(self).cap() == old(self).cap(),
            final(self).counters() == old(self).counters(),
    {
        let ghost s = self.state();
        proof {
            lemma_demote(s, self.cap(), false);
            assert(located(s.entries, Location::T2).contains(s.t2[0]));
        }
        let popped = self.t2.pop_front();
        let victim_id = match popped {
            Some(v) => v,
            None => {
                proof {
                    assert(false);
                }
                0
            },
        };
        {
            proof {
                lemma_pop_front_is_remove(s.t2);
            }
            if let Some(entry) = self.entries.get(&victim_id) {
                let e = *entry;
                self.current_size -= e.obj_size;
                self.entries.insert(victim_id, ArcEntry { location: Location::B2, ..e });
                self.b2.push_back(victim_id);
                // Limit B2 size
                while self.b2.len() > self.capacity as usize
                    invariant
                        victim_id == s.t2[0],
                        self.b2@.len() <= self.capacity + 1,
                        self.capacity == old(self).capacity,
                        self.current_size == old(self).current_size - e.obj_size,
                        e == s.entries[victim_id],
                        self.p == old(self).p,
                        self.stats == old(self).stats,
                        self.t2@ == s.t2.remove(0),
                        self.t1@ == s.t1,
                        self.b1@ == s.b1,
                        s == old(self).state(),
                        self.b2@.len() > self.capacity ==> self.b2@ == s.b2.push(victim_id)
                            && self.entries@ == s.entries.insert(victim_id, ArcEntry { location: Location::B2, ..e }),
                        self.b2@.len() <= self.capacity ==> self.b2@ == demote(s, self.capacity as nat, false).b2
                            && self.entries@ == demote(s, self.capacity as nat, false).entries,
                    decreases self.b2@.len(),
                {
                    let ghost b = self.b2@;
                    if let Some(id) = self.b2.pop_front() {
                        proof {
                            lemma_pop_front_is_remove(b);
                        }
                        self.entries.remove(&id);
                    }
                }
            }
        }
        victim_id
    }

    /// Demote until `req_size` more bytes fit, or nothing can be demoted; each
    /// demotion counts as an eviction, and the last id demoted is returned.
    fn replace(&mut self, req_size: ObjectSize) -> (last: Option<ObjectId>)
        requires
            old(self).well_formed(),
            old(self).used() + req_size <= u32::MAX,
        ensures
            final(self).well_formed(),
            final(self).state() == arc_replace(old(self).state(), old(self).cap(), req_size as nat),
            final(self).cap() == old(self).cap(),
            ({
                let d = arc_demoted(old(self).state(), old(self).cap(), req_size as nat);
                &&& last == (if d.len() == 0 { None } else { Some(d.last()) })
                &&& old(self).counters().advanced(final(self).counters(), 0, 0, 0, d.len(), 0)
            }),
    {
        let ghost target = arc_replace(self.state(), self.cap(), req_size as nat);
        let ghost all = arc_demoted(self.state(), self.cap(), req_size as nat);
        let ghost c0 = self.stats;
        let ghost mut done: Seq<ObjectId> = Seq::empty();
        let mut last: Option<ObjectId> = None;
        proof {
            lemma_advanced_refl(c0);
            assert(done + all =~= all);
        }
        while self.current_size + req_size > self.capacity
            invariant
                self.well_formed(),
                self.used() + req_size <= u32::MAX,
                self.capacity == old(self).capacity,
                c0 == old(self).stats,
                arc_replace(self.state(), self.cap(), req_size as nat) == target,
                done + arc_demoted(self.state(), self.cap(), req_size as nat) == all,
                last == (if done.len() == 0 { None } else { Some(done.last()) }),
                c0.advanced(self.stats, 0, 0, 0, done.len(), 0),
            ensures
                self.state() == target,
                done == all,
                last == (if done.len() == 0 { None } else { Some(done.last()) }),
                c0.advanced(self.stats, 0, 0, 0, done.len(), 0),
            decreases self.t1@.len() + self.t2@.len(),
        {
            let ghost s = self.state();
            let from_t1 = if self.t1.len() > 0 {
                proof {
                    assert(located(s.entries, Location::T1).contains(s.t1[0]));
                }
                let t1_bytes = self.t1_size();
                t1_bytes > self.p || (self.in_b2(self.t1[0]) && t1_bytes == self.p)
            } else {
                false
            };
            proof {
                assert(from_t1 == t1_chosen(s));
            }
            if from_t1 || self.t2.len() > 0 {
                let ghost c1 = self.stats;
                // Evict from T1 to B1, else from T2 to B2
                let v = if from_t1 { self.demote_t1() } else { self.demote_t2() };
                let ghost c2 = self.stats;
                self.stats.inc_evict();
                proof {
                    lemma_advanced_trans(c0, c2, self.stats, 0, 0, 0, done.len(), 0, 0, 0, 0, 1, 0);
                    assert(arc_demoted(s, self.cap(), req_size as nat) == seq![v] + arc_demoted(self.state(), self.cap(), req_size as nat));
                    assert(done.push(v) + arc_demoted(self.state(), self.cap(), req_size as nat) =~= done + arc_demoted(s, self.cap(), req_size as nat));
                    done = done.push(v);
                }
                last = Some(v);
            } else {
                proof {
                    assert(arc_replace(s, self.cap(), req_size as nat) == s);
                    assert(arc_demoted(s, self.cap(), req_size as nat) == Seq::<ObjectId>::empty());
                    assert(done =~= all);
                }
                break;
            }
        }
        proof {
            if !(self.current_size + req_size > self.capacity) {
                assert(arc_demoted(self.state(), self.cap(), req_size as nat) == Seq::<ObjectId>::empty());
                assert(done =~= all);
            }
        }
        last
    }
}

/// Whether an object is cached (in T1 or T2).
pub open spec fn cached(s: ArcState, id: ObjectId) -> bool {
    s.entries.contains_key(id) && (s.entries[id].location == Location::T1
        || s.entries[id].location == Location::T2)
}

/// Whether an object has a ghost entry in list `l`.
pub open spec fn ghost_in(s: ArcState, id: ObjectId, l: Location) -> bool {
    s.entries.contains_key(id) && s.entries[id].location == l
}

/// State after an access that hits object `id`: an entry of T1 moves to the back
/// of T2; an entry of T2 moves to the back of T2.
pub open spec fn arc_hit(s: ArcState, id: ObjectId) -> ArcState {
    if s.entries[id].location == Location::T1 {
        ArcState {
            t1: without(s.t1, id),
            t2: s.t2.push(id),
            entries: s.entries.insert(id, ArcEntry { location: Location::T2, ..s.entries[id] }),
            ..s
        }
    } else {
        ArcState { t2: moved_to_back(s.t2, id), ..s }
    }
}

/// The state replacement starts from when object `id` is inserted: on a hit in
/// B1 the target `p` grows (up to `cap`), on a hit in B2 it shrinks (down to 0).
pub open spec fn arc_adapted(s: ArcState, cap: nat, id: ObjectId) -> ArcState {
    let b1_len = s.b1.len();
    let b2_len = s.b2.len();
    if ghost_in(s, id, Location::B1) {
        let p = if s.p + b1_delta(b1_len, b2_len) <= cap {
            s.p + b1_delta(b1_len, b2_len)
        } else {
            cap as int
        };
        ArcState { p, ..s }
    } else if ghost_in(s, id, Location::B2) {
        let p = if s.p >= b2_delta(b1_len, b2_len) {
            s.p - b2_delta(b1_len, b2_len)
        } else {
            0
        };
        ArcState { p, ..s }
    } else {
        s
    }
}

/// What inserting object `id` answers, given the ids its replacement demoted:
/// the last one demoted, if any.
pub open spec fn arc_insert_result(demoted: Seq<ObjectId>) -> InsertResult {
    if demoted.len() == 0 {
        InsertResult::Inserted
    } else {
        InsertResult::Evicted { evicted_id: demoted.last() }
    }
}

/// State after inserting object `id` of `size` bytes that is not cached and fits `cap`.
pub open spec fn arc_admit(s: ArcState, cap: nat, id: ObjectId, size: ObjectSize) -> ArcState {
    let b1_len = s.b1.len();
    let b2_len = s.b2.len();
    if ghost_in(s, id, Location::B1) {
        let p = if s.p + b1_delta(b1_len, b2_len) <= cap {
            s.p + b1_delta(b1_len, b2_len)
        } else {
            cap as int
        };
        let r = arc_replace(ArcState { p, ..s }, cap, size as nat);
        ArcState {
            b1: without(r.b1, id),
            t2: r.t2.push(id),
            entries: r.entries.insert(
                id,
                ArcEntry { obj_id: id, obj_size: size, location: Location::T2 },
            ),
            ..r
        }
    } else if ghost_in(s, id, Location::B2) {
        let p = if s.p >= b2_delta(b1_len, b2_len) {
            s.p - b2_delta(b1_len, b2_len)
        } else {
            0
        };
        let r = arc_replace(ArcState { p, ..s }, cap, size as nat);
        ArcState {
            b2: without(r.b2, id),
            t2: r.t2.push(id),
            entries: r.entries.insert(
                id,
                ArcEntry { obj_id: id, obj_size: size, location: Location::T2 },
            ),
            ..r
        }
    } else {
        let r = arc_replace(s, cap, size as nat);
        ArcState {
            t1: r.t1.push(id),
            entries: r.entries.insert(
                id,
                ArcEntry { obj_id: id, obj_size: size, location: Location::T1 },
            ),
            ..r
        }
    }
}

/// Moving a T1 entry to the back of T2 keeps the lists consistent and the bytes.
proof fn lemma_promote(s: ArcState, id: ObjectId)
    requires
        lists_consistent(s),
        ghost_in(s, id, Location::T1),
    ensures
        lists_consistent(arc_hit(s, id)),
        arc_bytes(arc_hit(s, id)) == arc_bytes(s),
{
    let ne = ArcEntry { location: Location::T2, ..s.entries[id] };
    let e1 = s.entries.insert(id, ne);
    assert(located(s.entries, Location::T1).contains(id));
    lemma_located_insert(s.entries, id, ne, Location::T1);
    lemma_located_insert(s.entries, id, ne, Location::T2);
    lemma_located_insert(s.entries, id, ne, Location::B1);
    lemma_located_insert(s.entries, id, ne, Location::B2);
    lemma_set_remove_absent(located(s.entries, Location::B1), id);
    lemma_set_remove_absent(located(s.entries, Location::B2), id);
    lemma_lists_without(s.t1, located(s.entries, Location::T1), id);
    lemma_lists_push(s.t2, located(s.entries, Location::T2), id);
    lemma_sum_without(s.t1, located(s.entries, Location::T1), table_weight(s.entries, entry_bytes()), id);
    lemma_sum_push(s.t2, id, table_weight(e1, entry_bytes()));
    let t1w = without(s.t1, id);
    assert forall|i: int| 0 <= i < t1w.len() implies s.entries.contains_key(#[trigger] t1w[i]) && e1.contains_key(t1w[i]) && s.entries[t1w[i]].obj_size == e1[t1w[i]].obj_size by {
        assert(located(s.entries, Location::T1).remove(id).contains(t1w[i]));
    }
    lemma_bytes_frame(t1w, s.entries, e1);
    assert forall|i: int| 0 <= i < s.t2.len() implies s.entries.contains_key(#[trigger] s.t2[i]) && e1.contains_key(s.t2[i]) && s.entries[s.t2[i]].obj_size == e1[s.t2[i]].obj_size by {
        assert(located(s.entries, Location::T2).contains(s.t2[i]));
    }
    lemma_bytes_frame(s.t2, s.entries, e1);
}

/// Adding object `id` at the back of T1 or T2 (its entry absent or a ghost of `from`,
/// which `ghost_list` lists) keeps the lists consistent and adds its bytes.
proof fn lemma_enter(s: ArcState, id: ObjectId, size: ObjectSize, to_t1: bool)
    requires
        lists_consistent(s),
        !cached(s, id),
    ensures
        ({
            let loc = if to_t1 { Location::T1 } else { Location::T2 };
            let e = s.entries.insert(id, ArcEntry { obj_id: id, obj_size: size, location: loc });
            let r = if to_t1 {
                ArcState { t1: s.t1.push(id), b1: without(s.b1, id), b2: without(s.b2, id), entries: e, ..s }
            } else {
                ArcState { t2: s.t2.push(id), b1: without(s.b1, id), b2: without(s.b2, id), entries: e, ..s }
            };
            &&& lists_consistent(r)
            &&& arc_bytes(r) == arc_bytes(s) + size
        }),
{
    let loc = if to_t1 { Location::T1 } else { Location::T2 };
    let ne = ArcEntry { obj_id: id, obj_size: size, location: loc };
    let e1 = s.entries.insert(id, ne);
    lemma_located_insert(s.entries, id, ne, Location::T1);
    lemma_located_insert(s.entries, id, ne, Location::T2);
    lemma_located_insert(s.entries, id, ne, Location::B1);
    lemma_located_insert(s.entries, id, ne, Location::B2);
    lemma_lists_without(s.b1, located(s.entries, Location::B1), id);
    lemma_lists_without(s.b2, located(s.entries, Location::B2), id);
    assert(!located(s.entries, Location::T1).contains(id));
    assert(!located(s.entries, Location::T2).contains(id));
    if to_t1 {
        lemma_set_remove_absent(located(s.entries, Location::T2), id);
        lemma_lists_push(s.t1, located(s.entries, Location::T1), id);
        lemma_sum_push(s.t1, id, table_weight(e1, entry_bytes()));
    } else {
        lemma_set_remove_absent(located(s.entries, Location::T1), id);
        lemma_lists_push(s.t2, located(s.entries, Location::T2), id);
        lemma_sum_push(s.t2, id, table_weight(e1, entry_bytes()));
    }
    assert forall|i: int| 0 <= i < s.t1.len() implies s.entries.contains_key(#[trigger] s.t1[i]) && e1.contains_key(s.t1[i]) && s.entries[s.t1[i]].obj_size == e1[s.t1[i]].obj_size by {
        assert(located(s.entries, Location::T1).contains(s.t1[i]));
    }
    lemma_bytes_frame(s.t1, s.entries, e1);
    assert forall|i: int| 0 <= i < s.t2.len() implies s.entries.contains_key(#[trigger] s.t2[i]) && e1.contains_key(s.t2[i]) && s.entries[s.t2[i]].obj_size == e1[s.t2[i]].obj_size by {
        assert(located(s.entries, Location::T2).contains(s.t2[i]));
    }
    lemma_bytes_frame(s.t2, s.entries, e1);
}

/// Removing a cached entry from its list keeps consistency and takes its bytes off.
proof fn lemma_drop_cached(s: ArcState, id: ObjectId)
    requires
        lists_consistent(s),
        cached(s, id),
    ensures
        ({
            let r = if s.entries[id].location == Location::T1 {
                ArcState { t1: without(s.t1, id), entries: s.entries.remove(id), ..s }
            } else {
                ArcState { t2: without(s.t2, id), entries: s.entries.remove(id), ..s }
            };
            &&& lists_consistent(r)
            &&& arc_bytes(r) + s.entries[id].obj_size == arc_bytes(s)
        }),
{
    let e1 = s.entries.remove(id);
    lemma_located_remove(s.entries, id, Location::T1);
    lemma_located_remove(s.entries, id, Location::T2);
    lemma_located_remove(s.entries, id, Location::B1);
    lemma_located_remove(s.entries, id, Location::B2);
    lemma_set_remove_absent(located(s.entries, Location::B1), id);
    lemma_set_remove_absent(located(s.entries, Location::B2), id);
    if s.entries[id].location == Location::T1 {
        assert(located(s.entries, Location::T1).contains(id));
        lemma_set_remove_absent(located(s.entries, Location::T2), id);
        lemma_lists_without(s.t1, located(s.entries, Location::T1), id);
        lemma_sum_without(s.t1, located(s.entries, Location::T1), table_weight(s.entries, entry_bytes()), id);
        let t1w = without(s.t1, id);
        assert forall|i: int| 0 <= i < t1w.len() implies s.entries.contains_key(#[trigger] t1w[i]) && e1.contains_key(t1w[i]) && s.entries[t1w[i]].obj_size == e1[t1w[i]].obj_size by {
            assert(located(s.entries, Location::T1).remove(id).contains(t1w[i]));
        }
        lemma_bytes_frame(t1w, s.entries, e1);
        assert forall|i: int| 0 <= i < s.t2.len() implies s.entries.contains_key(#[trigger] s.t2[i]) && e1.contains_key(s.t2[i]) && s.entries[s.t2[i]].obj_size == e1[s.t2[i]].obj_size by {
            assert(located(s.entries, Location::T2).contains(s.t2[i]));
        }
        lemma_bytes_frame(s.t2, s.entries, e1);
    } else {
        assert(located(s.entries, Location::T2).contains(id));
        lemma_set_remove_absent(located(s.entries, Location::T1), id);
        lemma_lists_without(s.t2, located(s.entries, Location::T2), id);
        lemma_sum_without(s.t2, located(s.entries, Location::T2), table_weight(s.entries, entry_bytes()), id);
        let t2w = without(s.t2, id);
        assert forall|i: int| 0 <= i < t2w.len() implies s.entries.contains_key(#[trigger] t2w[i]) && e1.contains_key(t2w[i]) && s.entries[t2w[i]].obj_size == e1[t2w[i]].obj_size by {
            assert(located(s.entries, Location::T2).remove(id).contains(t2w[i]));
        }
        lemma_bytes_frame(t2w, s.entries, e1);
        assert forall|i: int| 0 <= i < s.t1.len() implies s.entries.contains_key(#[trigger] s.t1[i]) && e1.contains_key(s.t1[i]) && s.entries[s.t1[i]].obj_size == e1[s.t1[i]].obj_size by {
            assert(located(s.entries, Location::T1).contains(s.t1[i]));
        }
        lemma_bytes_frame(s.t1, s.entries, e1);
    }
}

impl CacheModel for ArcCache {
    open spec fn inv(&self) -> bool {
        self.well_formed()
    }

    open spec fn get_admits(&self, req: Request) -> bool {
        true
    }

    /// Inserts whose byte count or target size would overflow are outside the
    /// contract.
    open spec fn insert_admits(&self, req: Request) -> bool {
        req.obj_size > self.cap() || cached(self.state(), req.obj_id) || {
            &&& self.used() + req.obj_size <= u32::MAX
            &&& ghost_in(self.state(), req.obj_id, Location::B1) ==> self.state().p + b1_delta(
                self.state().b1.len(),
                self.state().b2.len(),
            ) <= u32::MAX
        }
    }

    open spec fn remove_admits(&self, obj_id: ObjectId) -> bool {
        true
    }

    open spec fn spec_size(&self) -> nat {
        self.used()
    }

    open spec fn spec_capacity(&self) -> nat {
        self.cap()
    }

    open spec fn spec_len(&self) -> nat {
        self.state().t1.len() + self.state().t2.len()
    }

    open spec fn spec_stats(&self) -> CacheStats {
        self.counters()
    }

    open spec fn spec_holds(&self, id: ObjectId) -> bool {
        cached(self.state(), id)
    }

    open spec fn spec_size_of(&self, id: ObjectId) -> u32 {
        self.state().entries[id].obj_size
    }
}

impl Cache for ArcCache {
    fn get(&mut self, req: &Request) -> (r: CacheResult)
        ensures
            final(self).cap() == old(self).cap(),
            cached(old(self).state(), req.obj_id) ==> {
                &&& r == CacheResult::Hit { obj_size: old(self).state().entries[req.obj_id].obj_size }
                &&& final(self).state() == arc_hit(old(self).state(), req.obj_id)
                &&& old(self).counters().advanced(final(self).counters(), 1, 1, 0, 0, 0)
            },
            !cached(old(self).state(), req.obj_id) ==> {
                &&& r == CacheResult::Miss
                &&& final(self).state() == old(self).state()
                &&& old(self).counters().advanced(final(self).counters(), 1, 0, 1, 0, 0)
            },
    {
        let ghost s = self.state();
        let ghost s0 = self.stats;
        self.stats.inc_req();
        let ghost s1 = self.stats;
        // Check location first
        let location = match self.entries.get(&req.obj_id) {
            Some(e) => Some((e.location, e.obj_size)),
            None => None,
        };
        if let Some((loc, obj_size)) = location {
            match loc {
                Location::T1 | Location::T2 => {
                    // Hit in cache
                    self.stats.inc_hit();
                    // Move to T2 (promote)
                    if loc == Location::T1 {
                        proof {
                            lemma_promote(s, req.obj_id);
                            assert(located(s.entries, Location::T1).contains(req.obj_id));
                        }
                        remove_id(&mut self.t1, req.obj_id);
                        self.t2.push_back(req.obj_id);
                        let e = ArcEntry { obj_id: req.obj_id, obj_size, location: Location::T2 };
                        proof {
                            assert(e == ArcEntry { location: Location::T2, ..s.entries[req.obj_id] });
                        }
                        self.entries.insert(req.obj_id, e);
                    } else {
                        // Already in T2, move to back
                        proof {
                            assert(located(s.entries, Location::T2).contains(req.obj_id));
                            lemma_move_to_back_in(s.t2, located(s.entries, Location::T2), table_weight(s.entries, entry_bytes()), req.obj_id);
                        }
                        remove_id(&mut self.t2, req.obj_id);
                        self.t2.push_back(req.obj_id);
                    }
                    proof {
                        lemma_advanced_trans(s0, s1, self.stats, 1, 0, 0, 0, 0, 0, 1, 0, 0, 0);
                    }
                    CacheResult::Hit { obj_size }
                },
                _ => {
                    self.stats.inc_miss();
                    proof {
                        lemma_advanced_trans(s0, s1, self.stats, 1, 0, 0, 0, 0, 0, 0, 1, 0, 0);
                    }
                    CacheResult::Miss
                },
            }
        } else {
            self.stats.inc_miss();
            proof {
                lemma_advanced_trans(s0, s1, self.stats, 1, 0, 0, 0, 0, 0, 0, 1, 0, 0);
            }
            CacheResult::Miss
        }
    }

    fn insert(&mut self, req: &Request) -> (r: InsertResult)
        ensures
            final(self).cap() == old(self).cap(),
            req.obj_size > old(self).cap() ==> r == InsertResult::Rejected && final(self).state() == old(self).state()
                && final(self).counters() == old(self).counters(),
            req.obj_size <= old(self).cap() && cached(old(self).state(), req.obj_id) ==> r == InsertResult::Inserted
                && final(self).state() == old(self).state()
                && old(self).counters().advanced(final(self).counters(), 0, 0, 0, 0, 1),
            req.obj_size <= old(self).cap() && !cached(old(self).state(), req.obj_id) ==> {
                let d = arc_demoted(arc_adapted(old(self).state(), old(self).cap(), req.obj_id), old(self).cap(), req.obj_size as nat);
                &&& r == arc_insert_result(d)
                &&& final(self).state() == arc_admit(old(self).state(), old(self).cap(), req.obj_id, req.obj_size)
                &&& old(self).counters().advanced(final(self).counters(), 0, 0, 0, d.len(), 1)
            },
    {
        if req.obj_size as ObjectSize > self.capacity {
            return InsertResult::Rejected;
        }
        let ghost s = self.state();
        let ghost s0 = self.stats;
        // Already cached: the object stays where it is
        let is_cached = match self.entries.get(&req.obj_id) {
            Some(e) => e.location == Location::T1 || e.location == Location::T2,
            None => false,
        };
        if is_cached {
            // Counted as an insertion; the object is not listed or counted twice
            self.stats.inc_insert();
            return InsertResult::Inserted;
        }
        // Check if in ghost lists
        let in_b1 = match self.entries.get(&req.obj_id) {
            Some(e) => e.location == Location::B1,
            None => false,
        };
        let in_b2 = match self.entries.get(&req.obj_id) {
            Some(e) => e.location == Location::B2,
            None => false,
        };
        proof {
            lemma_lists_len(s.b1, located(s.entries, Location::B1));
            lemma_lists_len(s.b2, located(s.entries, Location::B2));
        }
        if in_b1 {
            proof {
                assert(located(s.entries, Location::B1).contains(req.obj_id));
            }
            // Adapt p
            let delta = if self.b1.len() >= self.b2.len() {
                1
            } else {
                self.b2.len() / self.b1.len()
            };
            proof {
                vstd::arithmetic::div_mod::lemma_div_is_ordered_by_denominator(self.b2@.len() as int, 1, self.b1@.len() as int);
            }
            self.p = (self.p + delta as ObjectSize).min(self.capacity);
            let ghost sp = self.state();
            proof {
                lemma_arc_replace(sp, self.cap(), req.obj_size as nat);
            }
            let ghost c1 = self.stats;
            let last = self.replace(req.obj_size);
            let ghost sr = self.state();
            // Move to T2
            proof {
                lemma_enter(sr, req.obj_id, req.obj_size, false);
                assert(!ghost_in(sr, req.obj_id, Location::B2));
                assert(!located(sr.entries, Location::B2).contains(req.obj_id));
                lemma_lists_without(sr.b2, located(sr.entries, Location::B2), req.obj_id);
                assert(without(sr.b2, req.obj_id) == sr.b2) by {
                    assert(!sr.b2.contains(req.obj_id));
                }
            }
            remove_id(&mut self.b1, req.obj_id);
            self.t2.push_back(req.obj_id);
            self.entries.insert(
                req.obj_id,
                ArcEntry { obj_id: req.obj_id, obj_size: req.obj_size, location: Location::T2 },
            );
            self.current_size += req.obj_size as ObjectSize;
            let ghost c2 = self.stats;
            self.stats.inc_insert();
            proof {
                let d = arc_demoted(arc_adapted(s, self.cap(), req.obj_id), self.cap(), req.obj_size as nat);
                lemma_advanced_trans(s0, c2, self.stats, 0, 0, 0, d.len(), 0, 0, 0, 0, 0, 1);
            }
            match last {
                Some(v) => InsertResult::Evicted { evicted_id: v },
                None => InsertResult::Inserted,
            }
        } else if in_b2 {
            proof {
                assert(located(s.entries, Location::B2).contains(req.obj_id));
            }
            // Adapt p
            let delta = if self.b2.len() >= self.b1.len() {
                1
            } else {
                self.b1.len() / self.b2.len()
            };
            proof {
                vstd::arithmetic::div_mod::lemma_div_is_ordered_by_denominator(self.b1@.len() as int, 1, self.b2@.len() as int);
            }
            self.p = self.p.saturating_sub(delta as ObjectSize);
            let ghost sp = self.state();
            proof {
                lemma_arc_replace(sp, self.cap(), req.obj_size as nat);
            }
            let ghost c1 = self.stats;
            let last = self.replace(req.obj_size);
            let ghost sr = self.state();
            // Move to T2
            proof {
                lemma_enter(sr, req.obj_id, req.obj_size, false);
                assert(!ghost_in(sr, req.obj_id, Location::B1));
                assert(!located(sr.entries, Location::B1).contains(req.obj_id));
                assert(without(sr.b1, req.obj_id) == sr.b1) by {
                    assert(!sr.b1.contains(req.obj_id));
                }
            }
            remove_id(&mut self.b2, req.obj_id);
            self.t2.push_back(req.obj_id);
            self.entries.insert(
                req.obj_id,
                ArcEntry { obj_id: req.obj_id, obj_size: req.obj_size, location: Location::T2 },
            );
            self.current_size += req.obj_size as ObjectSize;
            let ghost c2 = self.stats;
            self.stats.inc_insert();
            proof {
                let d = arc_demoted(arc_adapted(s, self.cap(), req.obj_id), self.cap(), req.obj_size as nat);
                lemma_advanced_trans(s0, c2, self.stats, 0, 0, 0, d.len(), 0, 0, 0, 0, 0, 1);
            }
            match last {
                Some(v) => InsertResult::Evicted { evicted_id: v },
                None => InsertResult::Inserted,
            }
        } else {
            // New entry
            proof {
                lemma_arc_replace(s, self.cap(), req.obj_size as nat);
            }
            let ghost c1 = self.stats;
            let last = self.replace(req.obj_size);
            let ghost sr = self.state();
            proof {
                lemma_enter(sr, req.obj_id, req.obj_size, true);
                assert(!sr.entries.contains_key(req.obj_id));
                assert(without(sr.b1, req.obj_id) == sr.b1) by {
                    assert(!located(sr.entries, Location::B1).contains(req.obj_id));
                    assert(!sr.b1.contains(req.obj_id));
                }
                assert(without(sr.b2, req.obj_id) == sr.b2) by {
                    assert(!located(sr.entries, Location::B2).contains(req.obj_id));
                    assert(!sr.b2.contains(req.obj_id));
                }
            }
            let entry = ArcEntry { obj_id: req.obj_id, obj_size: req.obj_size, location: Location::T1 };
            self.entries.insert(req.obj_id, entry);
            self.t1.push_back(req.obj_id);
            self.current_size += req.obj_size as ObjectSize;
            let ghost c2 = self.stats;
            self.stats.inc_insert();
            proof {
                let d = arc_demoted(arc_adapted(s, self.cap(), req.obj_id), self.cap(), req.obj_size as nat);
                lemma_advanced_trans(s0, c2, self.stats, 0, 0, 0, d.len(), 0, 0, 0, 0, 0, 1);
            }
            match last {
                Some(v) => InsertResult::Evicted { evicted_id: v },
                None => InsertResult::Inserted,
            }
        }
    }

    fn evict(&mut self) -> (r: Option<ObjectId>)
        ensures
            final(self).cap() == old(self).cap(),
            old(self).state().t1.len() > 0 ==> {
                let v = old(self).state().t1[0];
                &&& r == Some(v)
                &&& final(self).state() == (ArcState { t1: old(self).state().t1.remove(0), entries: old(self).state().entries.remove(v), ..old(self).state() })
                &&& old(self).counters().advanced(final(self).counters(), 0, 0, 0, 1, 0)
            },
            old(self).state().t1.len() == 0 && old(self).state().t2.len() > 0 ==> {
                let v = old(self).state().t2[0];
                &&& r == Some(v)
                &&& final(self).state() == (ArcState { t2: old(self).state().t2.remove(0), entries: old(self).state().entries.remove(v), ..old(self).state() })
                &&& old(self).counters().advanced(final(self).counters(), 0, 0, 0, 1, 0)
            },
            old(self).state().t1.len() == 0 && old(self).state().t2.len() == 0 ==> r is None
                && final(self).state() == old(self).state() && final(self).counters() == old(self).counters(),
    {
        let ghost s = self.state();
        // Evict from T1 first if non-empty
        if let Some(victim_id) = self.t1.pop_front() {
            proof {
                lemma_pop_front_is_remove(s.t1);
                assert(located(s.entries, Location::T1).contains(victim_id));
                lemma_drop_cached(s, victim_id);
                lemma_index_of_unique(s.t1, 0);
                assert(s.t1.contains(victim_id));
            }
            if let Some(entry) = self.entries.remove(&victim_id) {
                self.current_size -= entry.obj_size as ObjectSize;
                self.stats.inc_evict();
                return Some(victim_id);
            }
        }
        // Otherwise evict from T2
        if let Some(victim_id) = self.t2.pop_front() {
            proof {
                lemma_pop_front_is_remove(s.t2);
                assert(located(s.entries, Location::T2).contains(victim_id));
                lemma_drop_cached(s, victim_id);
                lemma_index_of_unique(s.t2, 0);
                assert(s.t2.contains(victim_id));
            }
            if let Some(entry) = self.entries.remove(&victim_id) {
                self.current_size -= entry.obj_size as ObjectSize;
                self.stats.inc_evict();
                return Some(victim_id);
            }
        }
        None
    }

    fn remove(&mut self, obj_id: ObjectId) -> (r: bool)
        ensures
            final(self).cap() == old(self).cap(),
            final(self).counters() == old(self).counters(),
            r == cached(old(self).state(), obj_id),
            r ==> final(self).state() == if old(self).state().entries[obj_id].location == Location::T1 {
                ArcState { t1: without(old(self).state().t1, obj_id), entries: old(self).state().entries.remove(obj_id), ..old(self).state() }
            } else {
                ArcState { t2: without(old(self).state().t2, obj_id), entries: old(self).state().entries.remove(obj_id), ..old(self).state() }
            },
            !r ==> final(self).state() == old(self).state(),
    {
        let ghost s = self.state();
        // Only a cached object is removed; a ghost entry stays as it is
        let is_cached = match self.entries.get(&obj_id) {
            Some(e) => e.location == Location::T1 || e.location == Location::T2,
            None => false,
        };
        if !is_cached {
            return false;
        }
        if let Some(entry) = self.entries.remove(&obj_id) {
            proof {
                lemma_drop_cached(s, obj_id);
            }
            self.current_size -= entry.obj_size as ObjectSize;
            match entry.location {
                Location::T1 => remove_id(&mut self.t1, obj_id),
                Location::T2 => remove_id(&mut self.t2, obj_id),
                Location::B1 => remove_id(&mut self.b1, obj_id),
                Location::B2 => remove_id(&mut self.b2, obj_id),
            }
            true
        } else {
            proof {
                assert(self.entries@ =~= s.entries);
            }
            false
        }
    }

    fn clear(&mut self)
        ensures
            final(self).state().t1.len() == 0 && final(self).state().t2.len() == 0
                && final(self).state().b1.len() == 0 && final(self).state().b2.len() == 0,
            final(self).state().entries == Map::<ObjectId, ArcEntry>::empty(),
            final(self).state().p == 0,
            final(self).counters() == old(self).counters(),
    {
        self.t1.clear();
        self.t2.clear();
        self.b1.clear();
        self.b2.clear();
        self.entries.clear();
        self.current_size = 0;
        self.p = 0;
        proof {
            assert(located(self.entries@, Location::T1) =~= Set::empty());
            assert(located(self.entries@, Location::T2) =~= Set::empty());
            assert(located(self.entries@, Location::B1) =~= Set::empty());
            assert(located(self.entries@, Location::B2) =~= Set::empty());
        }
    }

    fn size(&self) -> (r: u64) {
        self.current_size as u64
    }

    fn capacity(&self) -> (r: u64) {
        self.capacity as u64
    }

    fn len(&self) -> (r: usize) {
        proof {
            let s = self.state();
            lemma_lists_len(s.t1, located(s.entries, Location::T1));
            lemma_lists_len(s.t2, located(s.entries, Location::T2));
            vstd::set_lib::lemma_set_disjoint_lens(located(s.entries, Location::T1), located(s.entries, Location::T2));
            assert(located(s.entries, Location::T1).union(located(s.entries, Location::T2)).subset_of(s.entries.dom()));
            vstd::std_specs::hash::axiom_hashmap_view_finite_dom(self.entries);
            vstd::set_lib::lemma_len_subset(located(s.entries, Location::T1).union(located(s.entries, Location::T2)), s.entries.dom());
            vstd::std_specs::hash::axiom_spec_hash_map_len(&self.entries);
        }
        self.t1.len() + self.t2.len()
    }

    fn stats(&self) -> (r: &CacheStats) {
        &self.stats
    }

    fn reset_stats(&mut self)
        ensures
            final(self).state() == old(self).state(),
    {
        self.stats = CacheStats::new();
    }
}

/// While replacement must free room, a T1 holding more bytes than its target `p`
/// gives up its oldest entry first; the oldest entry of T2 goes first only when T1 is
/// empty or holds at most `p` bytes.
pub proof fn law_arc_demotes_t1_over_target(s: ArcState, cap: nat, size: nat)
    requires
        lists_consistent(s),
        arc_bytes(s) + size > cap,
    ensures
        s.t1.len() > 0 && list_bytes(s.t1, s.entries) > s.p ==> {
            &&& arc_demoted(s, cap, size).len() > 0
            &&& arc_demoted(s, cap, size)[0] == s.t1[0]
        },
        (s.t1.len() == 0 || list_bytes(s.t1, s.entries) <= s.p) && s.t2.len() > 0 ==> {
            &&& arc_demoted(s, cap, size).len() > 0
            &&& arc_demoted(s, cap, size)[0] == s.t2[0]
        },
{
}

/// A hit on a cached object makes it the most recently used entry of T2, wherever it
/// was (T1 or T2), with its size kept; it is no longer in T1.
pub proof fn law_arc_hit_moves_to_t2_mru(s: ArcState, id: ObjectId)
    requires
        lists_consistent(s),
        cached(s, id),
    ensures
        ({
            let t = arc_hit(s, id);
            &&& t.t2.last() == id
            &&& !t.t1.contains(id)
            &&& t.entries.contains_key(id)
            &&& t.entries[id].location == Location::T2
            &&& t.entries[id].obj_size == s.entries[id].obj_size
            &&& t.b1 == s.b1 && t.b2 == s.b2 && t.p == s.p
        }),
{
    if s.entries[id].location == Location::T1 {
        assert(located(s.entries, Location::T1).contains(id));
        lemma_lists_without(s.t1, located(s.entries, Location::T1), id);
        assert(!located(s.entries, Location::T1).remove(id).contains(id));
    } else {
        assert(located(s.entries, Location::T2).contains(id));
        assert(!located(s.entries, Location::T1).contains(id));
        assert(!s.t1.contains(id));
    }
}

} // verus!
