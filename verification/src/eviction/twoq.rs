//! 2Q (Two Queue) cache eviction algorithm
//!
//! 2Q uses three queues:
//! - A1in: First-time access queue (FIFO)
//! - A1out: Ghost queue for recently evicted from A1in
//! - Am: Main queue (LRU) for frequently accessed items
use std::collections::HashMap;
use std::collections::HashSet;
use std::collections::VecDeque;
use vstd::prelude::*;

use super::{ghost_push, obj_bytes, push_ghost};
use crate::cache::{CacheResult, InsertResult};
use crate::ordered::{
    lemma_index_of_unique, lemma_lists_index, lemma_move_to_back, lemma_table_push,
    lemma_table_remove, lists_exactly, position_of, sum_over, table_weight,
};
use crate::request::Request;
use crate::stats::{lemma_advanced_refl, lemma_advanced_trans, CacheStats};
use crate::{ObjectId, ObjectSize};

verus! {

broadcast use vstd::std_specs::hash::group_hash_axioms;

/// The A1in, Am and A1out queues with their tables.
pub struct TwoQState {
    pub a1in: Seq<ObjectId>,
    pub a1in_map: Map<ObjectId, ObjectSize>,
    pub am: Seq<ObjectId>,
    pub am_map: Map<ObjectId, ObjectSize>,
    pub a1out: Seq<ObjectId>,
    pub a1out_set: Set<ObjectId>,
}

pub open spec fn a1in_bytes(s: TwoQState) -> nat {
    sum_over(s.a1in, table_weight(s.a1in_map, obj_bytes()))
}

pub open spec fn am_bytes(s: TwoQState) -> nat {
    sum_over(s.am, table_weight(s.am_map, obj_bytes()))
}

/// Bytes held.
pub open spec fn twoq_bytes(s: TwoQState) -> nat {
    a1in_bytes(s) + am_bytes(s)
}

/// Each queue lists its table's ids once; no id is in both; A1out is bounded.
pub open spec fn twoq_consistent(s: TwoQState, out_cap: nat) -> bool {
    &&& lists_exactly(s.a1in, s.a1in_map.dom())
    &&& lists_exactly(s.am, s.am_map.dom())
    &&& s.a1in_map.dom().disjoint(s.am_map.dom())
    &&& s.a1out.len() <= out_cap
}

/// The front of A1in is evicted into A1out.
pub open spec fn a1in_step(s: TwoQState, out_cap: nat) -> TwoQState {
    let id = s.a1in[0];
    let (g, gs) = ghost_push(s.a1out, s.a1out_set, id, out_cap);
    TwoQState { a1in: s.a1in.remove(0), a1in_map: s.a1in_map.remove(id), a1out: g, a1out_set: gs, ..s }
}

/// Evictions from A1in while the cache is over `cap` and A1in over `in_cap`: the
/// state left and their number.
pub open spec fn evict_a1in(s: TwoQState, cap: nat, in_cap: nat, out_cap: nat) -> (TwoQState, nat)
    decreases s.a1in.len(),
{
    if twoq_bytes(s) > cap && a1in_bytes(s) > in_cap && s.a1in.len() > 0 {
        let (r, k) = evict_a1in(a1in_step(s, out_cap), cap, in_cap, out_cap);
        (r, k + 1)
    } else {
        (s, 0)
    }
}

/// Evictions from the front of Am while the cache is over `cap`.
pub open spec fn evict_am(s: TwoQState, cap: nat) -> (TwoQState, nat)
    decreases s.am.len(),
{
    if twoq_bytes(s) > cap && s.am.len() > 0 {
        let (r, k) = evict_am(
            TwoQState { am: s.am.remove(0), am_map: s.am_map.remove(s.am[0]), ..s },
            cap,
        );
        (r, k + 1)
    } else {
        (s, 0)
    }
}

/// Whether `id` is cached.
pub open spec fn twoq_cached(s: TwoQState, id: ObjectId) -> bool {
    s.am_map.contains_key(id) || s.a1in_map.contains_key(id)
}

/// What a lookup of `id` answers.
pub open spec fn twoq_lookup(s: TwoQState, id: ObjectId) -> CacheResult {
    if s.am_map.contains_key(id) {
        CacheResult::Hit { obj_size: s.am_map[id] }
    } else if s.a1in_map.contains_key(id) {
        CacheResult::Hit { obj_size: s.a1in_map[id] }
    } else {
        CacheResult::Miss
    }
}

/// `id`, cached in A1in, moved to the back of Am with `size` bytes.
pub open spec fn promoted(s: TwoQState, id: ObjectId, size: ObjectSize) -> TwoQState {
    TwoQState {
        a1in: s.a1in.remove(s.a1in.index_of(id)),
        a1in_map: s.a1in_map.remove(id),
        am: s.am.push(id),
        am_map: s.am_map.insert(id, size),
        ..s
    }
}

/// State after an access to `id`, and the number of evictions: a hit in Am moves to
/// its back; a hit in A1in is promoted to Am (and Am evicts while over `cap`).
pub open spec fn twoq_access(s: TwoQState, cap: nat, id: ObjectId) -> (TwoQState, nat) {
    if s.am_map.contains_key(id) {
        (TwoQState { am: s.am.remove(s.am.index_of(id)).push(id), ..s }, 0)
    } else if s.a1in_map.contains_key(id) {
        evict_am(promoted(s, id, s.a1in_map[id]), cap)
    } else {
        (s, 0)
    }
}

/// State after inserting `id` of `size` bytes, and the number of evictions.  A hit
/// in Am moves to its back; an object in A1in moves to Am with the new size; an id
/// remembered in A1out enters Am; any other object enters A1in.  Evictions follow
/// while the cache is over `cap`: from A1in while it is over `in_cap`, then from Am.
pub open spec fn twoq_insert(s: TwoQState, cap: nat, in_cap: nat, out_cap: nat, id: ObjectId, size: ObjectSize) -> (TwoQState, nat) {
    if s.am_map.contains_key(id) {
        (TwoQState { am: s.am.remove(s.am.index_of(id)).push(id), ..s }, 0)
    } else if s.a1in_map.contains_key(id) {
        evict_am(promoted(s, id, size), cap)
    } else if s.a1out_set.contains(id) {
        evict_am(
            TwoQState {
                am: s.am.push(id),
                am_map: s.am_map.insert(id, size),
                a1out_set: s.a1out_set.remove(id),
                ..s
            },
            cap,
        )
    } else {
        let (a, k1) = evict_a1in(
            TwoQState { a1in: s.a1in.push(id), a1in_map: s.a1in_map.insert(id, size), ..s },
            cap,
            in_cap,
            out_cap,
        );
        let (b, k2) = evict_am(a, cap);
        (b, k1 + k2)
    }
}

/// State after `id` is removed.
pub open spec fn twoq_drop(s: TwoQState, id: ObjectId) -> TwoQState {
    if s.am_map.contains_key(id) {
        TwoQState { am: s.am.remove(s.am.index_of(id)), am_map: s.am_map.remove(id), ..s }
    } else if s.a1in_map.contains_key(id) {
        TwoQState { a1in: s.a1in.remove(s.a1in.index_of(id)), a1in_map: s.a1in_map.remove(id), ..s }
    } else {
        s
    }
}

pub proof fn lemma_evict_a1in(s: TwoQState, cap: nat, in_cap: nat, out_cap: nat)
    requires
        twoq_consistent(s, out_cap),
    ensures
        twoq_consistent(evict_a1in(s, cap, in_cap, out_cap).0, out_cap),
        ({
            let r = evict_a1in(s, cap, in_cap, out_cap).0;
            twoq_bytes(r) <= cap || a1in_bytes(r) <= in_cap || r.a1in.len() == 0
        }),
    decreases s.a1in.len(),
{
    if twoq_bytes(s) > cap && a1in_bytes(s) > in_cap && s.a1in.len() > 0 {
        lemma_table_remove(s.a1in, s.a1in_map, obj_bytes(), 0);
        lemma_evict_a1in(a1in_step(s, out_cap), cap, in_cap, out_cap);
    }
}

pub proof fn lemma_evict_am(s: TwoQState, cap: nat, out_cap: nat)
    requires
        twoq_consistent(s, out_cap),
    ensures
        twoq_consistent(evict_am(s, cap).0, out_cap),
        a1in_bytes(evict_am(s, cap).0) == a1in_bytes(s),
        twoq_bytes(evict_am(s, cap).0) <= cap || evict_am(s, cap).0.am.len() == 0,
        twoq_bytes(s) <= cap ==> evict_am(s, cap).0 == s,
    decreases s.am.len(),
{
    if twoq_bytes(s) > cap && s.am.len() > 0 {
        lemma_table_remove(s.am, s.am_map, obj_bytes(), 0);
        lemma_evict_am(TwoQState { am: s.am.remove(0), am_map: s.am_map.remove(s.am[0]), ..s }, cap, out_cap);
    }
}

/// Promoting an entry of A1in keeps the queues consistent and moves its bytes.
pub proof fn lemma_promoted(s: TwoQState, id: ObjectId, size: ObjectSize, out_cap: nat)
    requires
        twoq_consistent(s, out_cap),
        s.a1in_map.contains_key(id),
    ensures
        twoq_consistent(promoted(s, id, size), out_cap),
        a1in_bytes(promoted(s, id, size)) + s.a1in_map[id] == a1in_bytes(s),
        am_bytes(promoted(s, id, size)) == am_bytes(s) + size,
{
    let i = lemma_lists_index(s.a1in, s.a1in_map.dom(), id);
    lemma_index_of_unique(s.a1in, i);
    lemma_table_remove(s.a1in, s.a1in_map, obj_bytes(), i);
    lemma_table_push(s.am, s.am_map, obj_bytes(), id, size);
    assert(s.a1in_map.remove(id).dom().disjoint(s.am_map.insert(id, size).dom()));
}

/// 2Q cache implementation
/// An insert into a cache within its capacity leaves it within its capacity: A1in
/// is shed down to its share, then Am until the bytes fit.
pub proof fn lemma_twoq_insert_within(s: TwoQState, cap: nat, in_cap: nat, out_cap: nat, id: ObjectId, size: ObjectSize)
    requires
        twoq_consistent(s, out_cap),
        twoq_bytes(s) <= cap,
        in_cap <= cap,
    ensures
        twoq_bytes(twoq_insert(s, cap, in_cap, out_cap, id, size).0) <= cap,
{
    if s.am_map.contains_key(id) {
        let i = lemma_lists_index(s.am, s.am_map.dom(), id);
        lemma_index_of_unique(s.am, i);
        lemma_move_to_back(s.am, s.am_map, obj_bytes(), i);
    } else if s.a1in_map.contains_key(id) {
        lemma_promoted(s, id, size, out_cap);
        let p = promoted(s, id, size);
        lemma_evict_am(p, cap, out_cap);
        if evict_am(p, cap).0.am.len() == 0 {
            assert(evict_am(p, cap).0.am =~= Seq::<ObjectId>::empty());
        }
    } else if s.a1out_set.contains(id) {
        let n = TwoQState { am: s.am.push(id), am_map: s.am_map.insert(id, size), a1out_set: s.a1out_set.remove(id), ..s };
        lemma_table_push(s.am, s.am_map, obj_bytes(), id, size);
        assert(s.a1in_map.dom().disjoint(s.am_map.insert(id, size).dom()));
        lemma_evict_am(n, cap, out_cap);
        if evict_am(n, cap).0.am.len() == 0 {
            assert(evict_am(n, cap).0.am =~= Seq::<ObjectId>::empty());
        }
    } else {
        let n = TwoQState { a1in: s.a1in.push(id), a1in_map: s.a1in_map.insert(id, size), ..s };
        lemma_table_push(s.a1in, s.a1in_map, obj_bytes(), id, size);
        assert(s.a1in_map.insert(id, size).dom().disjoint(s.am_map.dom()));
        lemma_evict_a1in(n, cap, in_cap, out_cap);
        let a = evict_a1in(n, cap, in_cap, out_cap).0;
        lemma_evict_am(a, cap, out_cap);
        if a.a1in.len() == 0 {
            assert(a.a1in =~= Seq::<ObjectId>::empty());
        }
        if evict_am(a, cap).0.am.len() == 0 {
            assert(evict_am(a, cap).0.am =~= Seq::<ObjectId>::empty());
        }
    }
}

pub struct TwoQCache {
    capacity: ObjectSize,
    current_size: ObjectSize,
    stats: CacheStats,
    // A1in: FIFO queue for first access
    a1in: VecDeque<ObjectId>,
    a1in_map: HashMap<ObjectId, ObjectSize>,
    a1in_size: ObjectSize,
    a1in_capacity: ObjectSize,
    // A1out: Ghost queue (metadata only)
    a1out: VecDeque<ObjectId>,
    a1out_set: HashSet<ObjectId>,
    a1out_capacity: usize,
    // Am: LRU queue for frequently accessed
    am: VecDeque<ObjectId>,
    am_map: HashMap<ObjectId, ObjectSize>,
    am_size: ObjectSize,
}

impl TwoQCache {
    /// The queues and tables as a value.
    pub closed spec fn state(&self) -> TwoQState {
        TwoQState {
            a1in: self.a1in@,
            a1in_map: self.a1in_map@,
            am: self.am@,
            am_map: self.am_map@,
            a1out: self.a1out@,
            a1out_set: self.a1out_set@,
        }
    }

    pub closed spec fn cap(&self) -> nat {
        self.capacity as nat
    }

    /// Share of the capacity A1in may hold when the cache is full.
    pub closed spec fn in_cap(&self) -> nat {
        self.a1in_capacity as nat
    }

    /// Number of ids A1out remembers.
    pub closed spec fn out_cap(&self) -> nat {
        self.a1out_capacity as nat
    }

    pub closed spec fn used(&self) -> nat {
        self.current_size as nat
    }

    pub closed spec fn counters(&self) -> CacheStats {
        self.stats
    }

    pub open spec fn well_formed(&self) -> bool {
        &&& twoq_consistent(self.state(), self.out_cap())
        &&& self.used() == twoq_bytes(self.state())
        &&& self.in_cap() == self.cap() / 4
        &&& self.out_cap() == self.cap() / 2
        &&& self.inner_sizes()
    }

    pub closed spec fn inner_sizes(&self) -> bool {
        &&& self.a1in_size == a1in_bytes(self.state())
        &&& self.am_size == am_bytes(self.state())
    }

    /// Create a new 2Q cache with default parameters
    /// A1in: 25% of capacity, A1out: 50% of capacity (ghost entries)
    pub fn new(capacity: ObjectSize) -> (c: Self)
        ensures
            c.well_formed(),
            c.cap() == capacity,
            c.state().a1in.len() == 0 && c.state().am.len() == 0 && c.state().a1out.len() == 0,
            c.state().a1in_map.is_empty() && c.state().am_map.is_empty(),
            c.state().a1out_set.is_empty(),
            c.used() == 0,
            c.counters().is_zero(),
    {
        let a1in_capacity = capacity / 4;
        let a1out_capacity = (capacity / 2) as usize;
        let c = Self {
            capacity,
            current_size: 0,
            stats: CacheStats::new(),
            a1in: VecDeque::new(),
            a1in_map: HashMap::new(),
            a1in_size: 0,
            a1in_capacity,
            a1out: VecDeque::new(),
            a1out_set: HashSet::new(),
            a1out_capacity,
            am: VecDeque::new(),
            am_map: HashMap::new(),
            am_size: 0,
        };
        proof {
            assert(c.a1in_map@.dom() =~= Set::<u64>::empty());
            assert(c.am_map@.dom() =~= Set::<u64>::empty());
        }
        c
    }

    /// While the cache is over capacity and A1in over its share, evict the front of
    /// A1in into A1out.
    fn evict_from_a1in(&mut self)
        requires
            old(self).well_formed(),
        ensures
            final(self).well_formed(),
            final(self).cap() == old(self).cap(),
            final(self).state() == evict_a1in(old(self).state(), old(self).cap(), old(self).in_cap(), old(self).out_cap()).0,
            old(self).counters().advanced(final(self).counters(), 0, 0, 0, evict_a1in(old(self).state(), old(self).cap(), old(self).in_cap(), old(self).out_cap()).1, 0),
    {
        let ghost s0 = self.state();
        let ghost c0 = self.stats;
        let ghost target = evict_a1in(s0, self.cap(), self.in_cap(), self.out_cap());
        let ghost mut done: nat = 0;
        proof {
            lemma_advanced_refl(c0);
        }
        while self.current_size > self.capacity && self.a1in_size > self.a1in_capacity
            invariant
                self.well_formed(),
                self.capacity == old(self).capacity,
                self.a1in_capacity == old(self).a1in_capacity,
                self.a1out_capacity == old(self).a1out_capacity,
                evict_a1in(self.state(), self.cap(), self.in_cap(), self.out_cap()).0 == target.0,
                evict_a1in(self.state(), self.cap(), self.in_cap(), self.out_cap()).1 + done == target.1,
                c0.advanced(self.stats, 0, 0, 0, done, 0),
            decreases self.a1in@.len(),
        {
            let ghost cur = self.state();
            let ghost sc = self.stats;
            proof {
                if cur.a1in.len() == 0 {
                    assert(a1in_bytes(cur) == 0);
                }
                lemma_table_remove(cur.a1in, cur.a1in_map, obj_bytes(), 0);
            }
            if let Some(obj_id) = self.a1in.pop_front() {
                if let Some(size) = self.a1in_map.remove(&obj_id) {
                    self.a1in_size -= size;
                    self.current_size -= size;
                    self.stats.inc_evict();
                    // Add to A1out ghost queue, maintaining its size limit
                    push_ghost(&mut self.a1out, &mut self.a1out_set, obj_id, self.a1out_capacity);
                    proof {
                        assert(self.a1in@ =~= cur.a1in.remove(0));
                        assert(self.state() =~= a1in_step(cur, self.out_cap()));
                        lemma_advanced_trans(c0, sc, self.stats, 0, 0, 0, done, 0, 0, 0, 0, 1, 0);
                        done = done + 1;
                    }
                }
            }
        }
    }

    /// While the cache is over capacity, evict the front of Am.
    fn evict_from_am(&mut self)
        requires
            old(self).well_formed(),
        ensures
            final(self).well_formed(),
            final(self).cap() == old(self).cap(),
            final(self).state() == evict_am(old(self).state(), old(self).cap()).0,
            old(self).counters().advanced(final(self).counters(), 0, 0, 0, evict_am(old(self).state(), old(self).cap()).1, 0),
    {
        let ghost s0 = self.state();
        let ghost c0 = self.stats;
        let ghost target = evict_am(s0, self.cap());
        let ghost mut done: nat = 0;
        proof {
            lemma_advanced_refl(c0);
        }
        while self.current_size > self.capacity && self.am.len() > 0
            invariant
                self.well_formed(),
                self.capacity == old(self).capacity,
                self.a1in_capacity == old(self).a1in_capacity,
                self.a1out_capacity == old(self).a1out_capacity,
                evict_am(self.state(), self.cap()).0 == target.0,
                evict_am(self.state(), self.cap()).1 + done == target.1,
                c0.advanced(self.stats, 0, 0, 0, done, 0),
            decreases self.am@.len(),
        {
            let ghost cur = self.state();
            let ghost sc = self.stats;
            proof {
                lemma_table_remove(cur.am, cur.am_map, obj_bytes(), 0);
            }
            if let Some(obj_id) = self.am.pop_front() {
                if let Some(size) = self.am_map.remove(&obj_id) {
                    self.am_size -= size;
                    self.current_size -= size;
                    self.stats.inc_evict();
                    proof {
                        assert(self.am@ =~= cur.am.remove(0));
                        lemma_advanced_trans(c0, sc, self.stats, 0, 0, 0, done, 0, 0, 0, 0, 1, 0);
                        done = done + 1;
                    }
                }
            }
        }
    }

    /// Move the cached entry `obj_id` of A1in to the back of Am with `size` bytes.
    fn promote(&mut self, obj_id: ObjectId, size: ObjectSize)
        requires
            old(self).well_formed(),
            old(self).state().a1in_map.contains_key(obj_id),
            old(self).used() - old(self).state().a1in_map[obj_id] + size <= u32::MAX,
        ensures
            final(self).well_formed(),
            final(self).cap() == old(self).cap(),
            final(self).counters() == old(self).counters(),
            final(self).state() == promoted(old(self).state(), obj_id, size),
    {
        let ghost s = self.state();
        proof {
            lemma_promoted(s, obj_id, size, self.out_cap());
        }
        if let Some(pos) = position_of(&self.a1in, obj_id) {
            if let Some(old_size) = self.a1in_map.remove(&obj_id) {
                proof {
                    lemma_index_of_unique(s.a1in, pos as int);
                }
                self.a1in.remove(pos);
                self.a1in_size -= old_size;
                self.current_size -= old_size;
                self.am.push_back(obj_id);
                self.am_map.insert(obj_id, size);
                self.am_size += size;
                self.current_size += size;
            }
        } else {
            proof {
                let i = lemma_lists_index(s.a1in, s.a1in_map.dom(), obj_id);
                assert(s.a1in[i] == obj_id);
            }
        }
    }

    /// Move the cached entry `obj_id` of Am to its back.
    fn touch_am(&mut self, obj_id: ObjectId)
        requires
            old(self).well_formed(),
            old(self).state().am_map.contains_key(obj_id),
        ensures
            final(self).well_formed(),
            final(self).cap() == old(self).cap(),
            final(self).counters() == old(self).counters(),
            final(self).state() == (TwoQState { am: old(self).state().am.remove(old(self).state().am.index_of(obj_id)).push(obj_id), ..old(self).state() }),
    {
        let ghost s = self.state();
        let ghost i = lemma_lists_index(s.am, s.am_map.dom(), obj_id);
        proof {
            lemma_index_of_unique(s.am, i);
            lemma_move_to_back(s.am, s.am_map, obj_bytes(), i);
        }
        if let Some(pos) = position_of(&self.am, obj_id) {
            self.am.remove(pos);
            self.am.push_back(obj_id);
        }
    }

    /// Look `req` up: a hit in Am moves to its back, a hit in A1in is promoted to Am.
    pub fn get(&mut self, req: &Request) -> (r: CacheResult)
        requires
            old(self).well_formed(),
        ensures
            final(self).well_formed(),
            final(self).cap() == old(self).cap(),
            final(self).state() == twoq_access(old(self).state(), old(self).cap(), req.obj_id).0,
            r == twoq_lookup(old(self).state(), req.obj_id),
            twoq_cached(old(self).state(), req.obj_id) ==> old(self).counters().advanced(final(self).counters(), 0, 1, 0, twoq_access(old(self).state(), old(self).cap(), req.obj_id).1, 0),
            !twoq_cached(old(self).state(), req.obj_id) ==> old(self).counters().advanced(final(self).counters(), 0, 0, 1, 0, 0),
    {
        let obj_id = req.obj_id;
        let ghost s = self.state();
        let ghost c0 = self.stats;
        // Check Am queue (frequently accessed)
        let in_am = match self.am_map.get(&obj_id) {
            Some(size) => Some(*size),
            None => None,
        };
        if let Some(size) = in_am {
            self.stats.inc_hit();
            // Move to back (most recently used)
            self.touch_am(obj_id);
            return CacheResult::Hit { obj_size: size };
        }
        // Check A1in queue (first access)
        let in_a1in = match self.a1in_map.get(&obj_id) {
            Some(size) => Some(*size),
            None => None,
        };
        if let Some(size) = in_a1in {
            self.stats.inc_hit();
            let ghost c1 = self.stats;
            // Promote to Am queue
            self.promote(obj_id, size);
            proof {
                lemma_promoted(s, obj_id, size, self.out_cap());
                lemma_evict_am(self.state(), self.cap(), self.out_cap());
            }
            self.evict_from_am();
            proof {
                lemma_advanced_trans(c0, c1, self.stats, 0, 1, 0, 0, 0, 0, 0, 0, evict_am(promoted(s, obj_id, size), self.cap()).1, 0);
            }
            return CacheResult::Hit { obj_size: size };
        }
        self.stats.inc_miss();
        CacheResult::Miss
    }

    /// Insert `req`: see `twoq_insert`.  Always admitted.
    pub fn insert(&mut self, req: &Request) -> (r: InsertResult)
        requires
            old(self).well_formed(),
            !old(self).state().am_map.contains_key(req.obj_id) ==> old(self).used() - (if old(self).state().a1in_map.contains_key(req.obj_id) {
                old(self).state().a1in_map[req.obj_id] as int
            } else {
                0
            }) + req.obj_size <= u32::MAX,
        ensures
            final(self).well_formed(),
            final(self).cap() == old(self).cap(),
            r == InsertResult::Inserted,
            ({
                let (t, k) = twoq_insert(old(self).state(), old(self).cap(), old(self).in_cap(), old(self).out_cap(), req.obj_id, req.obj_size);
                &&& final(self).state() == t
                &&& old(self).counters().advanced(final(self).counters(), 0, 0, 0, k, 0)
            }),
            // an insert keeps the bytes held within the capacity
            old(self).used() <= old(self).cap() ==> final(self).used() <= final(self).cap(),
    {
        proof {
            if self.used() <= self.cap() {
                lemma_twoq_insert_within(self.state(), self.cap(), self.in_cap(), self.out_cap(), req.obj_id, req.obj_size);
            }
        }
        let obj_id = req.obj_id;
        let obj_size = req.obj_size;
        let ghost s = self.state();
        let ghost c0 = self.stats;
        proof {
            lemma_advanced_refl(c0);
        }
        // If in Am, move to back
        if self.am_map.contains_key(&obj_id) {
            self.touch_am(obj_id);
            return InsertResult::Inserted;
        }
        // If in A1in, promote to Am
        if self.a1in_map.contains_key(&obj_id) {
            self.promote(obj_id, obj_size);
            proof {
                lemma_promoted(s, obj_id, obj_size, self.out_cap());
            }
            self.evict_from_am();
            return InsertResult::Inserted;
        }
        // Check if in A1out (second access after eviction)
        if self.a1out_set.contains(&obj_id) {
            proof {
                lemma_table_push(s.am, s.am_map, obj_bytes(), obj_id, obj_size);
                assert(s.a1in_map.dom().disjoint(s.am_map.insert(obj_id, obj_size).dom()));
            }
            // Insert directly into Am
            self.am.push_back(obj_id);
            self.am_map.insert(obj_id, obj_size);
            self.am_size += obj_size;
            self.current_size += obj_size;
            self.a1out_set.remove(&obj_id);
            proof {
                lemma_evict_am(self.state(), self.cap(), self.out_cap());
            }
            self.evict_from_am();
            return InsertResult::Inserted;
        }
        // First access - insert into A1in
        proof {
            lemma_table_push(s.a1in, s.a1in_map, obj_bytes(), obj_id, obj_size);
            assert(s.a1in_map.insert(obj_id, obj_size).dom().disjoint(s.am_map.dom()));
        }
        self.a1in.push_back(obj_id);
        self.a1in_map.insert(obj_id, obj_size);
        self.a1in_size += obj_size;
        self.current_size += obj_size;
        let ghost a = self.state();
        proof {
            lemma_evict_a1in(a, self.cap(), self.in_cap(), self.out_cap());
        }
        self.evict_from_a1in();
        let ghost c1 = self.stats;
        self.evict_from_am();
        proof {
            lemma_advanced_trans(c0, c1, self.stats, 0, 0, 0, evict_a1in(a, self.cap(), self.in_cap(), self.out_cap()).1, 0, 0, 0, 0, evict_am(evict_a1in(a, self.cap(), self.in_cap(), self.out_cap()).0, self.cap()).1, 0);
        }
        InsertResult::Inserted
    }

    /// Remove a cached object; says whether it was cached.
    pub fn remove(&mut self, obj_id: ObjectId) -> (r: bool)
        requires
            old(self).well_formed(),
        ensures
            final(self).well_formed(),
            final(self).cap() == old(self).cap(),
            final(self).counters() == old(self).counters(),
            final(self).state() == twoq_drop(old(self).state(), obj_id),
            r == twoq_cached(old(self).state(), obj_id),
    {
        let ghost s = self.state();
        // Check Am
        if let Some(size) = self.am_map.remove(&obj_id) {
            let ghost i = lemma_lists_index(s.am, s.am_map.dom(), obj_id);
            proof {
                lemma_table_remove(s.am, s.am_map, obj_bytes(), i);
                lemma_index_of_unique(s.am, i);
            }
            if let Some(pos) = position_of(&self.am, obj_id) {
                self.am.remove(pos);
                self.am_size -= size;
                self.current_size -= size;
                return true;
            }
            proof {
                assert(false);
            }
        }
        proof {
            assert(self.am_map@ =~= s.am_map);
        }
        // Check A1in
        if let Some(size) = self.a1in_map.remove(&obj_id) {
            let ghost i = lemma_lists_index(s.a1in, s.a1in_map.dom(), obj_id);
            proof {
                lemma_table_remove(s.a1in, s.a1in_map, obj_bytes(), i);
                lemma_index_of_unique(s.a1in, i);
            }
            if let Some(pos) = position_of(&self.a1in, obj_id) {
                self.a1in.remove(pos);
                self.a1in_size -= size;
                self.current_size -= size;
                return true;
            }
            proof {
                assert(false);
            }
        }
        proof {
            assert(self.a1in_map@ =~= s.a1in_map);
        }
        false
    }

    /// Empty the queues and A1out (the counters stay).
    pub fn clear(&mut self)
        requires
            old(self).well_formed(),
        ensures
            final(self).well_formed(),
            final(self).cap() == old(self).cap(),
            final(self).state().a1in.len() == 0 && final(self).state().am.len() == 0 && final(self).state().a1out.len() == 0,
            final(self).state().a1in_map.is_empty() && final(self).state().am_map.is_empty(),
            final(self).state().a1out_set.is_empty(),
            final(self).counters() == old(self).counters(),
    {
        self.a1in.clear();
        self.a1in_map.clear();
        self.a1in_size = 0;
        self.a1out.clear();
        self.a1out_set.clear();
        self.am.clear();
        self.am_map.clear();
        self.am_size = 0;
        self.current_size = 0;
        proof {
            assert(self.a1in_map@.dom() =~= Set::<u64>::empty());
            assert(self.am_map@.dom() =~= Set::<u64>::empty());
        }
    }

    pub fn capacity(&self) -> (r: ObjectSize)
        ensures
            r == self.cap(),
    {
        self.capacity
    }

    /// Number of cached objects.
    pub fn len(&self) -> (r: usize)
        requires
            self.state().a1in_map.len() + self.state().am_map.len() <= usize::MAX,
        ensures
            r == self.state().a1in_map.len() + self.state().am_map.len(),
    {
        self.a1in_map.len() + self.am_map.len()
    }

    pub fn current_size(&self) -> (r: ObjectSize)
        ensures
            r == self.used(),
    {
        self.current_size
    }

    pub fn stats(&self) -> (r: &CacheStats)
        ensures
            *r == self.counters(),
    {
        &self.stats
    }
}

/// A lookup that hits an entry of Am makes it the most recently used: Am keeps the
/// same ids, the others in their order, with the hit one moved to the back, so Am
/// stays in least-recently-used-first order; nothing is evicted and nothing else
/// changes.
pub proof fn law_am_hit_moves_to_mru(s: TwoQState, cap: nat, id: ObjectId)
    requires
        lists_exactly(s.am, s.am_map.dom()),
        s.am_map.contains_key(id),
    ensures
        ({
            let (t, k) = twoq_access(s, cap, id);
            &&& k == 0
            &&& t.am.len() == s.am.len()
            &&& t.am.last() == id
            &&& t.am.drop_last() == s.am.remove(s.am.index_of(id))
            &&& forall|x: ObjectId| t.am.contains(x) <==> s.am.contains(x)
            &&& t.am_map == s.am_map
            &&& t.a1in == s.a1in && t.a1in_map == s.a1in_map
            &&& t.a1out == s.a1out && t.a1out_set == s.a1out_set
        }),
{
    let i = s.am.index_of(id);
    assert(s.am.contains(id));
    let t = twoq_access(s, cap, id).0;
    assert(t.am.drop_last() =~= s.am.remove(i));
    assert forall|x: ObjectId| t.am.contains(x) <==> s.am.contains(x) by {
        if x == id {
            assert(t.am[t.am.len() - 1] == id);
        }
        if s.am.contains(x) && x != id {
            let j = choose|j: int| 0 <= j < s.am.len() && s.am[j] == x;
            if j < i {
                assert(t.am[j] == x);
            } else {
                assert(t.am[j - 1] == x);
            }
        }
        if t.am.contains(x) && x != id {
            let j = choose|j: int| 0 <= j < t.am.len() && t.am[j] == x;
            assert(j < t.am.len() - 1);
            if j < i {
                assert(s.am[j] == x);
            } else {
                assert(s.am[j + 1] == x);
            }
        }
    }
}

} // verus!
