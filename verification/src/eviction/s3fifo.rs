//! S3-FIFO (Simple Scalable Scan-resistant FIFO) cache eviction algorithm
//!
//! S3-FIFO uses three FIFO queues with frequency tracking to achieve
//! scan resistance with low overhead.
use std::collections::HashMap;
use std::collections::HashSet;
use std::collections::VecDeque;
use vstd::prelude::*;

use super::{ghost_push, push_ghost};
use crate::cache::{CacheResult, InsertResult};
use crate::ordered::{
    lemma_lists_index, lemma_move_to_back, lemma_table_push, lemma_table_remove,
    lemma_table_update, lists_exactly, position_of, sum_over, table_weight,
};
use crate::request::Request;
use crate::stats::{lemma_advanced_refl, lemma_advanced_trans, CacheStats};
use crate::{ObjectId, ObjectSize};

verus! {

broadcast use vstd::std_specs::hash::group_hash_axioms;

/// Number of ids the ghost queue remembers.
pub const GHOST_CAPACITY: usize = 1000;

#[derive(Debug, Clone, Copy, PartialEq, Eq, Structural)]
pub struct S3Entry {
    pub size: ObjectSize,
    pub freq: u8,
}

/// The small, main and ghost queues with their tables.
pub struct S3State {
    pub small: Seq<ObjectId>,
    pub small_map: Map<ObjectId, S3Entry>,
    pub main: Seq<ObjectId>,
    pub main_map: Map<ObjectId, S3Entry>,
    pub ghosts: Seq<ObjectId>,
    pub ghost_set: Set<ObjectId>,
}

/// Bytes of an entry.
pub open spec fn s3_entry_bytes() -> spec_fn(S3Entry) -> nat {
    |e: S3Entry| e.size as nat
}

/// Passes an entry of the main queue can still take before it is evicted.
pub open spec fn s3_entry_credit() -> spec_fn(S3Entry) -> nat {
    |e: S3Entry| e.freq as nat + 1
}

pub open spec fn small_bytes(s: S3State) -> nat {
    sum_over(s.small, table_weight(s.small_map, s3_entry_bytes()))
}

pub open spec fn main_bytes(s: S3State) -> nat {
    sum_over(s.main, table_weight(s.main_map, s3_entry_bytes()))
}

/// Bytes held.
pub open spec fn s3_bytes(s: S3State) -> nat {
    small_bytes(s) + main_bytes(s)
}

pub open spec fn main_credit(s: S3State) -> nat {
    sum_over(s.main, table_weight(s.main_map, s3_entry_credit()))
}

/// Each queue lists its table's ids once; no id is in both; the ghost queue is
/// bounded; access counts are at most 3.
pub open spec fn s3_consistent(s: S3State) -> bool {
    &&& lists_exactly(s.small, s.small_map.dom())
    &&& lists_exactly(s.main, s.main_map.dom())
    &&& s.small_map.dom().disjoint(s.main_map.dom())
    &&& s.ghosts.len() <= GHOST_CAPACITY
    &&& forall|k: ObjectId| #[trigger] s.small_map.contains_key(k) ==> s.small_map[k].freq <= 3
    &&& forall|k: ObjectId| #[trigger] s.main_map.contains_key(k) ==> s.main_map[k].freq <= 3
}

/// A frequency after one more access, capped at 3.
pub open spec fn freq_bump(f: u8) -> u8 {
    if f >= 3 {
        3
    } else {
        (f + 1) as u8
    }
}

/// The front of the small queue leaves it: to the main queue with its frequency
/// reset if it was accessed, else evicted into the ghost queue.  Gives the state
/// and whether it was evicted.
pub open spec fn small_step(s: S3State) -> (S3State, bool) {
    let id = s.small[0];
    let e = s.small_map[id];
    if e.freq > 0 {
        (
            S3State {
                small: s.small.remove(0),
                small_map: s.small_map.remove(id),
                main: s.main.push(id),
                main_map: s.main_map.insert(id, S3Entry { freq: 0, ..e }),
                ..s
            },
            false,
        )
    } else {
        let (g, gs) = ghost_push(s.ghosts, s.ghost_set, id, GHOST_CAPACITY as nat);
        (
            S3State {
                small: s.small.remove(0),
                small_map: s.small_map.remove(id),
                ghosts: g,
                ghost_set: gs,
                ..s
            },
            true,
        )
    }
}

/// Small-queue steps while the cache is over `cap` and the small queue over
/// `small_cap`: the state left and the number of evictions.
pub open spec fn evict_small(s: S3State, cap: nat, small_cap: nat) -> (S3State, nat)
    decreases s.small.len(),
{
    if s3_bytes(s) > cap && small_bytes(s) > small_cap && s.small.len() > 0 {
        let (n, ev) = small_step(s);
        if n.small.len() < s.small.len() {
            let (r, k) = evict_small(n, cap, small_cap);
            (r, k + if ev {
                1nat
            } else {
                0nat
            })
        } else {
            (s, 0)
        }
    } else {
        (s, 0)
    }
}

/// The front of the main queue: if it was accessed it goes to the back with one
/// access fewer, else it is evicted into the ghost queue.
pub open spec fn main_step(s: S3State) -> (S3State, bool) {
    let id = s.main[0];
    let e = s.main_map[id];
    if e.freq > 0 {
        (
            S3State {
                main: s.main.remove(0).push(id),
                main_map: s.main_map.insert(id, S3Entry { freq: (e.freq - 1) as u8, ..e }),
                ..s
            },
            false,
        )
    } else {
        let (g, gs) = ghost_push(s.ghosts, s.ghost_set, id, GHOST_CAPACITY as nat);
        (
            S3State {
                main: s.main.remove(0),
                main_map: s.main_map.remove(id),
                ghosts: g,
                ghost_set: gs,
                ..s
            },
            true,
        )
    }
}

/// Main-queue steps while the cache is over `cap` and the main queue is not empty.
pub open spec fn evict_main(s: S3State, cap: nat) -> (S3State, nat)
    decreases main_credit(s),
{
    if s3_bytes(s) > cap && s.main.len() > 0 {
        let (n, ev) = main_step(s);
        if main_credit(n) < main_credit(s) {
            let (r, k) = evict_main(n, cap);
            (r, k + if ev {
                1nat
            } else {
                0nat
            })
        } else {
            (s, 0)
        }
    } else {
        (s, 0)
    }
}

/// What a lookup of `id` answers.
pub open spec fn s3_lookup(s: S3State, id: ObjectId) -> CacheResult {
    if s.main_map.contains_key(id) {
        CacheResult::Hit { obj_size: s.main_map[id].size }
    } else if s.small_map.contains_key(id) {
        CacheResult::Hit { obj_size: s.small_map[id].size }
    } else {
        CacheResult::Miss
    }
}

/// State after an access to `id`: a cached entry counts one more access.
pub open spec fn s3_access(s: S3State, id: ObjectId) -> S3State {
    if s.main_map.contains_key(id) {
        S3State {
            main_map: s.main_map.insert(id, S3Entry { freq: freq_bump(s.main_map[id].freq), ..s.main_map[id] }),
            ..s
        }
    } else if s.small_map.contains_key(id) {
        S3State {
            small_map: s.small_map.insert(id, S3Entry { freq: freq_bump(s.small_map[id].freq), ..s.small_map[id] }),
            ..s
        }
    } else {
        s
    }
}

/// Whether `id` is cached.
pub open spec fn s3_cached(s: S3State, id: ObjectId) -> bool {
    s.main_map.contains_key(id) || s.small_map.contains_key(id)
}

/// State after inserting `id` of `size` bytes, and the number of evictions: a cached
/// entry counts one more access; a remembered ghost enters the main queue with one
/// access; any other object enters the small queue.  Evictions follow while the
/// cache is over `cap`.
pub open spec fn s3_insert(s: S3State, cap: nat, small_cap: nat, id: ObjectId, size: ObjectSize) -> (S3State, nat) {
    if s3_cached(s, id) {
        (s3_access(s, id), 0)
    } else if s.ghost_set.contains(id) {
        evict_main(
            S3State {
                ghost_set: s.ghost_set.remove(id),
                main: s.main.push(id),
                main_map: s.main_map.insert(id, S3Entry { size, freq: 1 }),
                ..s
            },
            cap,
        )
    } else {
        let (a, k1) = evict_small(
            S3State {
                small: s.small.push(id),
                small_map: s.small_map.insert(id, S3Entry { size, freq: 0 }),
                ..s
            },
            cap,
            small_cap,
        );
        let (b, k2) = evict_main(a, cap);
        (b, k1 + k2)
    }
}

/// State after `id` is removed.
pub open spec fn s3_drop(s: S3State, id: ObjectId) -> S3State {
    if s.main_map.contains_key(id) {
        S3State { main: s.main.remove(s.main.index_of(id)), main_map: s.main_map.remove(id), ..s }
    } else if s.small_map.contains_key(id) {
        S3State { small: s.small.remove(s.small.index_of(id)), small_map: s.small_map.remove(id), ..s }
    } else {
        s
    }
}

pub proof fn lemma_small_step(s: S3State)
    requires
        s3_consistent(s),
        s.small.len() > 0,
    ensures
        ({
            let (n, ev) = small_step(s);
            let e = s.small_map[s.small[0]];
            &&& s3_consistent(n)
            &&& n.small.len() + 1 == s.small.len()
            &&& small_bytes(n) + e.size == small_bytes(s)
            &&& ev ==> main_bytes(n) == main_bytes(s)
            &&& !ev ==> main_bytes(n) == main_bytes(s) + e.size
        }),
{
    let id = s.small[0];
    let e = s.small_map[id];
    lemma_table_remove(s.small, s.small_map, s3_entry_bytes(), 0);
    if e.freq > 0 {
        assert(!s.main_map.contains_key(id));
        lemma_table_push(s.main, s.main_map, s3_entry_bytes(), id, S3Entry { freq: 0, ..e });
        assert(s.small_map.remove(id).dom().disjoint(s.main_map.insert(id, S3Entry { freq: 0, ..e }).dom()));
    }
}

pub proof fn lemma_evict_small(s: S3State, cap: nat, small_cap: nat)
    requires
        s3_consistent(s),
    ensures
        s3_consistent(evict_small(s, cap, small_cap).0),
        ({
            let r = evict_small(s, cap, small_cap).0;
            s3_bytes(r) <= cap || small_bytes(r) <= small_cap || r.small.len() == 0
        }),
    decreases s.small.len(),
{
    if s3_bytes(s) > cap && small_bytes(s) > small_cap && s.small.len() > 0 {
        lemma_small_step(s);
        lemma_evict_small(small_step(s).0, cap, small_cap);
    }
}

pub proof fn lemma_main_step(s: S3State)
    requires
        s3_consistent(s),
        s.main.len() > 0,
    ensures
        ({
            let (n, ev) = main_step(s);
            let e = s.main_map[s.main[0]];
            &&& s3_consistent(n)
            &&& main_credit(n) < main_credit(s)
            &&& small_bytes(n) == small_bytes(s)
            &&& ev ==> main_bytes(n) + e.size == main_bytes(s)
            &&& !ev ==> main_bytes(n) == main_bytes(s)
        }),
{
    let id = s.main[0];
    let e = s.main_map[id];
    if e.freq > 0 {
        let ne = S3Entry { freq: (e.freq - 1) as u8, ..e };
        let moved = s.main.remove(0).push(id);
        lemma_move_to_back(s.main, s.main_map, s3_entry_bytes(), 0);
        lemma_move_to_back(s.main, s.main_map, s3_entry_credit(), 0);
        lemma_table_update(moved, s.main_map, s3_entry_bytes(), id, ne);
        lemma_table_update(moved, s.main_map, s3_entry_credit(), id, ne);
        assert(s.main_map.insert(id, ne).dom() =~= s.main_map.dom());
    } else {
        lemma_table_remove(s.main, s.main_map, s3_entry_bytes(), 0);
        lemma_table_remove(s.main, s.main_map, s3_entry_credit(), 0);
    }
}

pub proof fn lemma_evict_main(s: S3State, cap: nat)
    requires
        s3_consistent(s),
    ensures
        s3_consistent(evict_main(s, cap).0),
        small_bytes(evict_main(s, cap).0) == small_bytes(s),
        s3_bytes(evict_main(s, cap).0) <= cap || evict_main(s, cap).0.main.len() == 0,
        s3_bytes(s) <= cap ==> evict_main(s, cap).0 == s,
    decreases main_credit(s),
{
    if s3_bytes(s) > cap && s.main.len() > 0 {
        lemma_main_step(s);
        lemma_evict_main(main_step(s).0, cap);
    }
}

/// An insert into a cache within its capacity leaves it within its capacity: the
/// small queue is shed down to its share, then the main queue until the bytes fit.
pub proof fn lemma_s3_insert_within(s: S3State, cap: nat, small_cap: nat, id: ObjectId, size: ObjectSize)
    requires
        s3_consistent(s),
        s3_bytes(s) <= cap,
        small_cap <= cap,
    ensures
        s3_bytes(s3_insert(s, cap, small_cap, id, size).0) <= cap,
{
    if s3_cached(s, id) {
        lemma_s3_access(s, id);
    } else if s.ghost_set.contains(id) {
        let n = S3State {
            ghost_set: s.ghost_set.remove(id),
            main: s.main.push(id),
            main_map: s.main_map.insert(id, S3Entry { size, freq: 1 }),
            ..s
        };
        lemma_table_push(s.main, s.main_map, s3_entry_bytes(), id, S3Entry { size, freq: 1 });
        assert(!s.small_map.contains_key(id));
        assert(s3_consistent(n)) by {
            assert(n.small_map.dom().disjoint(n.main_map.dom()));
        }
        lemma_evict_main(n, cap);
        let r = evict_main(n, cap).0;
        if r.main.len() == 0 {
            assert(r.main =~= Seq::<ObjectId>::empty());
        }
    } else {
        let n = S3State {
            small: s.small.push(id),
            small_map: s.small_map.insert(id, S3Entry { size, freq: 0 }),
            ..s
        };
        lemma_table_push(s.small, s.small_map, s3_entry_bytes(), id, S3Entry { size, freq: 0 });
        assert(!s.main_map.contains_key(id));
        assert(s3_consistent(n)) by {
            assert(n.small_map.dom().disjoint(n.main_map.dom()));
        }
        lemma_evict_small(n, cap, small_cap);
        let a = evict_small(n, cap, small_cap).0;
        lemma_evict_main(a, cap);
        let b = evict_main(a, cap).0;
        if a.small.len() == 0 {
            assert(a.small =~= Seq::<ObjectId>::empty());
        }
        if b.main.len() == 0 {
            assert(b.main =~= Seq::<ObjectId>::empty());
        }
    }
}

/// An access keeps the queues and the bytes.
pub proof fn lemma_s3_access(s: S3State, id: ObjectId)
    requires
        s3_consistent(s),
    ensures
        s3_consistent(s3_access(s, id)),
        small_bytes(s3_access(s, id)) == small_bytes(s),
        main_bytes(s3_access(s, id)) == main_bytes(s),
{
    if s.main_map.contains_key(id) {
        let e = s.main_map[id];
        lemma_table_update(s.main, s.main_map, s3_entry_bytes(), id, S3Entry { freq: freq_bump(e.freq), ..e });
        assert(s.main_map.insert(id, S3Entry { freq: freq_bump(e.freq), ..e }).dom() =~= s.main_map.dom());
    } else if s.small_map.contains_key(id) {
        let e = s.small_map[id];
        lemma_table_update(s.small, s.small_map, s3_entry_bytes(), id, S3Entry { freq: freq_bump(e.freq), ..e });
        assert(s.small_map.insert(id, S3Entry { freq: freq_bump(e.freq), ..e }).dom() =~= s.small_map.dom());
    }
}

/// S3-FIFO cache implementation
pub struct S3FifoCache {
    capacity: ObjectSize,
    current_size: ObjectSize,
    stats: CacheStats,
    // Small queue (S) - initial insertion
    small_queue: VecDeque<ObjectId>,
    small_map: HashMap<ObjectId, S3Entry>,
    small_size: ObjectSize,
    small_capacity: ObjectSize,
    // Main queue (M)
    main_queue: VecDeque<ObjectId>,
    main_map: HashMap<ObjectId, S3Entry>,
    main_size: ObjectSize,
    // Ghost queue (G) - metadata only
    ghost_queue: VecDeque<ObjectId>,
    ghost_set: HashSet<ObjectId>,
    ghost_capacity: usize,
}

impl S3FifoCache {
    /// The queues and tables as a value.
    pub closed spec fn state(&self) -> S3State {
        S3State {
            small: self.small_queue@,
            small_map: self.small_map@,
            main: self.main_queue@,
            main_map: self.main_map@,
            ghosts: self.ghost_queue@,
            ghost_set: self.ghost_set@,
        }
    }

    pub closed spec fn cap(&self) -> nat {
        self.capacity as nat
    }

    /// Share of the capacity the small queue may hold when the cache is full.
    pub closed spec fn small_cap(&self) -> nat {
        self.small_capacity as nat
    }

    pub closed spec fn used(&self) -> nat {
        self.current_size as nat
    }

    pub closed spec fn counters(&self) -> CacheStats {
        self.stats
    }

    pub open spec fn well_formed(&self) -> bool {
        &&& s3_consistent(self.state())
        &&& self.used() == s3_bytes(self.state())
        &&& self.small_cap() == self.cap() / 10
        &&& self.inner_sizes()
    }

    pub closed spec fn inner_sizes(&self) -> bool {
        &&& self.small_size == small_bytes(self.state())
        &&& self.main_size == main_bytes(self.state())
        &&& self.ghost_capacity == GHOST_CAPACITY
    }

    /// Create a new S3-FIFO cache
    /// Small queue is 10% of capacity by default
    pub fn new(capacity: ObjectSize) -> (c: Self)
        ensures
            c.well_formed(),
            c.cap() == capacity,
            c.state().small.len() == 0 && c.state().main.len() == 0 && c.state().ghosts.len() == 0,
            c.state().small_map.is_empty() && c.state().main_map.is_empty(),
            c.state().ghost_set.is_empty(),
            c.used() == 0,
            c.counters().is_zero(),
    {
        let small_capacity = capacity / 10;
        let ghost_capacity = GHOST_CAPACITY;  // Fixed size for ghost entries
        let c = Self {
            capacity,
            current_size: 0,
            stats: CacheStats::new(),
            small_queue: VecDeque::new(),
            small_map: HashMap::new(),
            small_size: 0,
            small_capacity,
            main_queue: VecDeque::new(),
            main_map: HashMap::new(),
            main_size: 0,
            ghost_queue: VecDeque::new(),
            ghost_set: HashSet::new(),
            ghost_capacity,
        };
        proof {
            assert(c.small_map@.dom() =~= Set::<u64>::empty());
            assert(c.main_map@.dom() =~= Set::<u64>::empty());
        }
        c
    }

    /// Remember an evicted id in the ghost queue.
    fn add_to_ghost(&mut self, obj_id: ObjectId)
        requires
            old(self).ghost_queue@.len() <= old(self).ghost_capacity,
        ensures
            (final(self).ghost_queue@, final(self).ghost_set@) == ghost_push(old(self).ghost_queue@, old(self).ghost_set@, obj_id, old(self).ghost_capacity as nat),
            final(self).ghost_queue@.len() <= old(self).ghost_capacity,
            final(self).small_queue == old(self).small_queue,
            final(self).small_map == old(self).small_map,
            final(self).main_queue == old(self).main_queue,
            final(self).main_map == old(self).main_map,
            final(self).small_size == old(self).small_size,
            final(self).main_size == old(self).main_size,
            final(self).current_size == old(self).current_size,
            final(self).capacity == old(self).capacity,
            final(self).small_capacity == old(self).small_capacity,
            final(self).ghost_capacity == old(self).ghost_capacity,
            final(self).stats == old(self).stats,
    {
        push_ghost(&mut self.ghost_queue, &mut self.ghost_set, obj_id, self.ghost_capacity);
    }

    /// While the cache is over capacity and the small queue over its share, its front
    /// moves to the main queue (if accessed) or is evicted.
    fn evict_from_small(&mut self)
        requires
            old(self).well_formed(),
        ensures
            final(self).well_formed(),
            final(self).cap() == old(self).cap(),
            final(self).state() == evict_small(old(self).state(), old(self).cap(), old(self).small_cap()).0,
            old(self).counters().advanced(final(self).counters(), 0, 0, 0, evict_small(old(self).state(), old(self).cap(), old(self).small_cap()).1, 0),
    {
        let ghost s0 = self.state();
        let ghost c0 = self.stats;
        let ghost target = evict_small(s0, self.cap(), self.small_cap());
        let ghost mut done: nat = 0;
        proof {
            lemma_advanced_refl(c0);
        }
        while self.current_size > self.capacity && self.small_size > self.small_capacity
            invariant
                self.well_formed(),
                self.capacity == old(self).capacity,
                self.small_capacity == old(self).small_capacity,
                evict_small(self.state(), self.cap(), self.small_cap()).0 == target.0,
                evict_small(self.state(), self.cap(), self.small_cap()).1 + done == target.1,
                c0.advanced(self.stats, 0, 0, 0, done, 0),
            decreases self.small_queue@.len(),
        {
            let ghost cur = self.state();
            let ghost sc = self.stats;
            proof {
                if cur.small.len() == 0 {
                    assert(small_bytes(cur) == 0);
                }
                lemma_small_step(cur);
                assert(cur.small_map.contains_key(cur.small[0]));
            }
            let obj_id = self.small_queue[0];
            let found = match self.small_map.get(&obj_id) {
                Some(e) => Some(*e),
                None => None,
            };
            if let Some(entry) = found {
                if entry.freq > 0 {
                    // Promote to main queue
                    self.small_queue.pop_front();
                    self.small_map.remove(&obj_id);
                    self.small_size -= entry.size;
                    let size = entry.size;
                    self.main_queue.push_back(obj_id);
                    self.main_map.insert(obj_id, S3Entry { freq: 0, ..entry });  // Reset frequency
                    self.main_size += size;
                    proof {
                        assert(self.small_queue@ =~= cur.small.remove(0));
                        assert(self.state() =~= small_step(cur).0);
                    }
                } else {
                    // Evict from small
                    self.small_queue.pop_front();
                    self.small_map.remove(&obj_id);
                    self.small_size -= entry.size;
                    self.current_size -= entry.size;
                    self.stats.inc_evict();
                    // Add to ghost
                    self.add_to_ghost(obj_id);
                    proof {
                        assert(self.small_queue@ =~= cur.small.remove(0));
                        assert(self.state() =~= small_step(cur).0);
                        lemma_advanced_trans(c0, sc, self.stats, 0, 0, 0, done, 0, 0, 0, 0, 1, 0);
                        done = done + 1;
                    }
                }
            }
        }
    }

    /// While the cache is over capacity, the front of the main queue goes to the back
    /// with one access fewer (if accessed) or is evicted.
    fn evict_from_main(&mut self)
        requires
            old(self).well_formed(),
        ensures
            final(self).well_formed(),
            final(self).cap() == old(self).cap(),
            final(self).state() == evict_main(old(self).state(), old(self).cap()).0,
            old(self).counters().advanced(final(self).counters(), 0, 0, 0, evict_main(old(self).state(), old(self).cap()).1, 0),
    {
        let ghost s0 = self.state();
        let ghost c0 = self.stats;
        let ghost target = evict_main(s0, self.cap());
        let ghost mut done: nat = 0;
        proof {
            lemma_advanced_refl(c0);
        }
        while self.current_size > self.capacity && self.main_queue.len() > 0
            invariant
                self.well_formed(),
                self.capacity == old(self).capacity,
                self.small_capacity == old(self).small_capacity,
                evict_main(self.state(), self.cap()).0 == target.0,
                evict_main(self.state(), self.cap()).1 + done == target.1,
                c0.advanced(self.stats, 0, 0, 0, done, 0),
            decreases main_credit(self.state()),
        {
            let ghost cur = self.state();
            let ghost sc = self.stats;
            proof {
                lemma_main_step(cur);
                assert(cur.main_map.contains_key(cur.main[0]));
            }
            let obj_id = self.main_queue[0];
            let found = match self.main_map.get(&obj_id) {
                Some(e) => Some(*e),
                None => None,
            };
            if let Some(entry) = found {
                if entry.freq > 0 {
                    // Move to back and decrement frequency
                    self.main_map.insert(obj_id, S3Entry { freq: entry.freq - 1, ..entry });
                    self.main_queue.pop_front();
                    self.main_queue.push_back(obj_id);
                    proof {
                        assert(self.main_queue@ =~= cur.main.remove(0).push(obj_id));
                        assert(self.state() =~= main_step(cur).0);
                    }
                } else {
                    // Evict
                    self.main_queue.pop_front();
                    self.main_map.remove(&obj_id);
                    self.main_size -= entry.size;
                    self.current_size -= entry.size;
                    self.stats.inc_evict();
                    self.add_to_ghost(obj_id);
                    proof {
                        assert(self.main_queue@ =~= cur.main.remove(0));
                        assert(self.state() =~= main_step(cur).0);
                        lemma_advanced_trans(c0, sc, self.stats, 0, 0, 0, done, 0, 0, 0, 0, 1, 0);
                        done = done + 1;
                    }
                }
            }
        }
    }

    /// Look `req` up; a hit counts one more access of the entry (at most 3).
    pub fn get(&mut self, req: &Request) -> (r: CacheResult)
        requires
            old(self).well_formed(),
        ensures
            final(self).well_formed(),
            final(self).cap() == old(self).cap(),
            final(self).state() == s3_access(old(self).state(), req.obj_id),
            r == s3_lookup(old(self).state(), req.obj_id),
            s3_cached(old(self).state(), req.obj_id) ==> old(self).counters().advanced(final(self).counters(), 0, 1, 0, 0, 0),
            !s3_cached(old(self).state(), req.obj_id) ==> old(self).counters().advanced(final(self).counters(), 0, 0, 1, 0, 0),
    {
        let obj_id = req.obj_id;
        proof {
            lemma_s3_access(self.state(), obj_id);
        }
        // Check main queue
        let in_main = match self.main_map.get(&obj_id) {
            Some(e) => Some(*e),
            None => None,
        };
        if let Some(entry) = in_main {
            self.stats.inc_hit();
            let freq = if entry.freq >= 3 { 3 } else { entry.freq + 1 };  // Cap at 3
            self.main_map.insert(obj_id, S3Entry { freq, ..entry });
            return CacheResult::Hit { obj_size: entry.size };
        }
        // Check small queue
        let in_small = match self.small_map.get(&obj_id) {
            Some(e) => Some(*e),
            None => None,
        };
        if let Some(entry) = in_small {
            self.stats.inc_hit();
            let freq = if entry.freq >= 3 { 3 } else { entry.freq + 1 };
            self.small_map.insert(obj_id, S3Entry { freq, ..entry });
            return CacheResult::Hit { obj_size: entry.size };
        }
        self.stats.inc_miss();
        CacheResult::Miss
    }

    /// Insert `req`: see `s3_insert`.  Always admitted.
    pub fn insert(&mut self, req: &Request) -> (r: InsertResult)
        requires
            old(self).well_formed(),
            !s3_cached(old(self).state(), req.obj_id) ==> old(self).used() + req.obj_size <= u32::MAX,
        ensures
            final(self).well_formed(),
            final(self).cap() == old(self).cap(),
            r == InsertResult::Inserted,
            ({
                let (t, k) = s3_insert(old(self).state(), old(self).cap(), old(self).small_cap(), req.obj_id, req.obj_size);
                &&& final(self).state() == t
                &&& old(self).counters().advanced(final(self).counters(), 0, 0, 0, k, 0)
            }),
            // an insert keeps the bytes held within the capacity
            old(self).used() <= old(self).cap() ==> final(self).used() <= final(self).cap(),
    {
        proof {
            if self.used() <= self.cap() {
                lemma_s3_insert_within(self.state(), self.cap(), self.small_cap(), req.obj_id, req.obj_size);
            }
        }
        let obj_id = req.obj_id;
        let obj_size = req.obj_size;
        let ghost s = self.state();
        let ghost c0 = self.stats;
        proof {
            lemma_s3_access(s, obj_id);
            lemma_advanced_refl(c0);
        }
        // Update if already in main
        let in_main = match self.main_map.get(&obj_id) {
            Some(e) => Some(*e),
            None => None,
        };
        if let Some(entry) = in_main {
            let freq = if entry.freq >= 3 { 3 } else { entry.freq + 1 };
            self.main_map.insert(obj_id, S3Entry { freq, ..entry });
            return InsertResult::Inserted;
        }
        // Update if already in small
        let in_small = match self.small_map.get(&obj_id) {
            Some(e) => Some(*e),
            None => None,
        };
        if let Some(entry) = in_small {
            let freq = if entry.freq >= 3 { 3 } else { entry.freq + 1 };
            self.small_map.insert(obj_id, S3Entry { freq, ..entry });
            return InsertResult::Inserted;
        }
        // Check if in ghost (recently evicted)
        if self.ghost_set.contains(&obj_id) {
            self.ghost_set.remove(&obj_id);
            // Insert directly to main with higher initial frequency
            let entry = S3Entry { size: obj_size, freq: 1 };
            proof {
                lemma_table_push(s.main, s.main_map, s3_entry_bytes(), obj_id, entry);
            }
            self.main_queue.push_back(obj_id);
            self.main_map.insert(obj_id, entry);
            self.main_size += obj_size;
            self.current_size += obj_size;
            proof {
                lemma_evict_main(self.state(), self.cap());
            }
            self.evict_from_main();
            return InsertResult::Inserted;
        }
        // New object - insert to small queue
        let entry = S3Entry { size: obj_size, freq: 0 };
        proof {
            lemma_table_push(s.small, s.small_map, s3_entry_bytes(), obj_id, entry);
        }
        self.small_queue.push_back(obj_id);
        self.small_map.insert(obj_id, entry);
        self.small_size += obj_size;
        self.current_size += obj_size;
        let ghost a = self.state();
        proof {
            lemma_evict_small(a, self.cap(), self.small_cap());
        }
        self.evict_from_small();
        let ghost c1 = self.stats;
        self.evict_from_main();
        proof {
            lemma_advanced_trans(c0, c1, self.stats, 0, 0, 0, evict_small(a, self.cap(), self.small_cap()).1, 0, 0, 0, 0, evict_main(evict_small(a, self.cap(), self.small_cap()).0, self.cap()).1, 0);
        }
        InsertResult::Inserted
    }

    /// Remove a cached object; says whether it was cached.
    pub fn remove(&mut self, obj_id: ObjectId) -> (r: bool)
        requires
            old(self).well_formed(),
        ensures
            final(self).well_formed(),
            final(self).cap() == old(self).cap(),
            final(self).counters() == old(self).counters(),
            final(self).state() == s3_drop(old(self).state(), obj_id),
            r == s3_cached(old(self).state(), obj_id),
    {
        let ghost s = self.state();
        // Check main
        if let Some(entry) = self.main_map.remove(&obj_id) {
            let ghost i = lemma_lists_index(s.main, s.main_map.dom(), obj_id);
            proof {
                lemma_table_remove(s.main, s.main_map, s3_entry_bytes(), i);
            }
            if let Some(pos) = position_of(&self.main_queue, obj_id) {
                proof {
                    assert(pos == i);
                    assert(s.main.index_of(obj_id) == i) by {
                        assert(s.main.contains(obj_id));
                    }
                }
                self.main_queue.remove(pos);
                self.main_size -= entry.size;
                self.current_size -= entry.size;
                return true;
            }
            proof {
                assert(false);
            }
        }
        proof {
            assert(self.main_map@ =~= s.main_map);
        }
        // Check small
        if let Some(entry) = self.small_map.remove(&obj_id) {
            let ghost i = lemma_lists_index(s.small, s.small_map.dom(), obj_id);
            proof {
                lemma_table_remove(s.small, s.small_map, s3_entry_bytes(), i);
            }
            if let Some(pos) = position_of(&self.small_queue, obj_id) {
                proof {
                    assert(pos == i);
                    assert(s.small.index_of(obj_id) == i) by {
                        assert(s.small.contains(obj_id));
                    }
                }
                self.small_queue.remove(pos);
                self.small_size -= entry.size;
                self.current_size -= entry.size;
                return true;
            }
            proof {
                assert(false);
            }
        }
        proof {
            assert(self.main_map@ =~= s.main_map);
            assert(self.small_map@ =~= s.small_map);
        }
        false
    }

    /// Empty the queues and the ghost queue (the counters stay).
    pub fn clear(&mut self)
        requires
            old(self).well_formed(),
        ensures
            final(self).well_formed(),
            final(self).cap() == old(self).cap(),
            final(self).state().small.len() == 0 && final(self).state().main.len() == 0 && final(self).state().ghosts.len() == 0,
            final(self).state().small_map.is_empty() && final(self).state().main_map.is_empty(),
            final(self).state().ghost_set.is_empty(),
            final(self).counters() == old(self).counters(),
    {
        self.small_queue.clear();
        self.small_map.clear();
        self.small_size = 0;
        self.main_queue.clear();
        self.main_map.clear();
        self.main_size = 0;
        self.ghost_queue.clear();
        self.ghost_set.clear();
        self.current_size = 0;
        proof {
            assert(self.small_map@.dom() =~= Set::<u64>::empty());
            assert(self.main_map@.dom() =~= Set::<u64>::empty());
        }
    }

    pub fn capacity(&self) -> (r: ObjectSize)
        ensures
            r == self.cap(),
    {
        self.capacity
    }

    /// Number of cached objects.
    pub fn len(&self) -> (r: usize)
        requires
            self.state().small_map.len() + self.state().main_map.len() <= usize::MAX,
        ensures
            r == self.state().small_map.len() + self.state().main_map.len(),
    {
        self.small_map.len() + self.main_map.len()
    }

    pub fn current_size(&self) -> (r: ObjectSize)
        ensures
            r == self.used(),
    {
        self.current_size
    }

    pub fn stats(&self) -> (r: &CacheStats)
        ensures
            *r == self.counters(),
    {
        &self.stats
    }
}

/// One step of main-queue eviction gives an accessed entry a second chance: the
/// front entry is evicted (to the ghost queue) only if its access count is 0; an
/// entry with a count of 1 or more stays cached, moved to the back of the main
/// queue with its count one lower.
pub proof fn law_main_second_chance(s: S3State)
    requires
        s3_consistent(s),
        s.main.len() > 0,
    ensures
        ({
            let id = s.main[0];
            let e = s.main_map[id];
            let (n, evicted) = main_step(s);
            &&& evicted <==> e.freq == 0
            &&& e.freq >= 1 ==> {
                &&& n.main_map.contains_key(id)
                &&& n.main_map[id].freq == e.freq - 1
                &&& n.main_map[id].size == e.size
                &&& n.main.last() == id
                &&& n.main.len() == s.main.len()
            }
            &&& e.freq == 0 ==> !n.main_map.contains_key(id) && n.main.len() + 1 == s.main.len()
        }),
{
    let id = s.main[0];
    assert(s.main_map.dom().contains(id));
    if s.main_map[id].freq == 0 {
        lemma_main_step(s);
    }
}

} // verus!
