//! Sieve cache eviction algorithm
//!
//! Sieve is a simple, efficient eviction algorithm that uses a single pass
//! with a "visited" bit, similar to Clock but with a different policy.
use std::collections::HashMap;
use std::collections::VecDeque;
use vstd::prelude::*;

use crate::cache::{CacheResult, InsertResult};
use crate::error::CacheError;
use crate::ordered::{
    lemma_index_of_unique, lemma_lists_index, lemma_lists_without, lemma_sum_same_weights,
    lemma_sum_without, lemma_table_push, lemma_table_remove, lists_exactly, remove_id, sum_over,
    table_weight, without,
};
use crate::request::Request;
use crate::stats::{lemma_advanced_refl, lemma_advanced_trans, CacheStats};
use crate::sweep::{
    lemma_ring, lemma_steps_bound, lemma_swept_none, lemma_swept_step, ring_dist, ring_pos,
    steps_to_unmarked, sweep_start, swept,
};
use crate::{ObjectId, ObjectSize};

verus! {

broadcast use vstd::std_specs::hash::group_hash_axioms;

#[derive(Debug, Clone, Copy, PartialEq, Eq, Structural)]
pub struct SieveEntry {
    pub obj_id: ObjectId,
    pub obj_size: ObjectSize,
    pub visited: bool,
}

/// The queue, the entries and the hand.
pub struct SieveState {
    pub queue: Seq<ObjectId>,
    pub entries: Map<ObjectId, SieveEntry>,
    pub hand: int,
}

/// Bytes of an entry.
pub open spec fn sieve_entry_bytes() -> spec_fn(SieveEntry) -> nat {
    |e: SieveEntry| e.obj_size as nat
}

/// Visited bit of each id.
pub open spec fn visited_bits(entries: Map<ObjectId, SieveEntry>) -> spec_fn(ObjectId) -> bool {
    |k: ObjectId| entries[k].visited
}

/// An entry with its visited bit cleared.
pub open spec fn unvisited() -> spec_fn(SieveEntry) -> SieveEntry {
    |e: SieveEntry| SieveEntry { visited: false, ..e }
}

/// Bytes held.
pub open spec fn sieve_bytes(s: SieveState) -> nat {
    sum_over(s.queue, table_weight(s.entries, sieve_entry_bytes()))
}

/// The queue lists the cached ids, each once, and each entry carries its own id.
pub open spec fn sieve_consistent(s: SieveState) -> bool {
    &&& lists_exactly(s.queue, s.entries.dom())
    &&& forall|k: ObjectId| #[trigger] s.entries.contains_key(k) ==> s.entries[k].obj_id == k
    &&& s.hand >= 0
}

/// One call of `evict`: a sweep of at most one round from the hand.  Visited
/// entries have the bit cleared and are passed over; the first unvisited one is
/// evicted and the hand stays on its slot.  When every entry was visited, the round
/// ends with all bits cleared and nothing evicted.  Gives the state and whether an
/// entry was evicted.
pub open spec fn sieve_sweep(s: SieveState) -> (SieveState, bool) {
    let n = s.queue.len() as int;
    if n == 0 {
        (s, false)
    } else {
        let h = sweep_start(s.hand, n);
        let m = steps_to_unmarked(s.queue, visited_bits(s.entries), h, 0);
        if m < n {
            let p = ring_pos(h, m, n);
            (
                SieveState {
                    queue: s.queue.remove(p),
                    entries: swept(s.entries, s.queue, h, m, unvisited()).remove(s.queue[p]),
                    hand: p,
                },
                true,
            )
        } else {
            (
                SieveState {
                    queue: s.queue,
                    entries: swept(s.entries, s.queue, h, n, unvisited()),
                    hand: ring_pos(h, n - 1, n) + 1,
                },
                false,
            )
        }
    }
}

/// The victim of a sweep that evicts.
pub open spec fn sieve_victim(s: SieveState) -> ObjectId {
    let n = s.queue.len() as int;
    let h = sweep_start(s.hand, n);
    s.queue[ring_pos(h, steps_to_unmarked(s.queue, visited_bits(s.entries), h, 0), n)]
}

/// Whether some queued entry is visited.
pub open spec fn any_visited(s: SieveState) -> bool {
    exists|i: int| 0 <= i < s.queue.len() && #[trigger] s.entries[s.queue[i]].visited
}

/// What a sweep can still do: two per queued entry (clear, then evict), one
/// more while some bit is set.
pub open spec fn sweep_measure(s: SieveState) -> nat {
    2 * s.queue.len() + if any_visited(s) {
        1nat
    } else {
        0nat
    }
}

/// Sweeps repeated until the bytes held are at most `room`: the state left and
/// the number of evictions.
pub open spec fn sieve_make_room(s: SieveState, room: int) -> (SieveState, nat)
    decreases sweep_measure(s),
{
    if s.queue.len() == 0 || sieve_bytes(s) <= room {
        (s, 0)
    } else {
        let (next, evicted) = sieve_sweep(s);
        if sweep_measure(next) < sweep_measure(s) {
            let (r, k) = sieve_make_room(next, room);
            (r, k + if evicted {
                1nat
            } else {
                0nat
            })
        } else {
            (s, 0)
        }
    }
}

/// What a lookup of `id` answers.
pub open spec fn sieve_lookup(s: SieveState, id: ObjectId) -> CacheResult {
    if s.entries.contains_key(id) {
        CacheResult::Hit { obj_size: s.entries[id].obj_size }
    } else {
        CacheResult::Miss
    }
}

/// State after an access to `id`: a cached entry is marked visited.
pub open spec fn sieve_access(s: SieveState, id: ObjectId) -> SieveState {
    if s.entries.contains_key(id) {
        SieveState {
            entries: s.entries.insert(id, SieveEntry { visited: true, ..s.entries[id] }),
            ..s
        }
    } else {
        s
    }
}

/// State after inserting `id` of `size` bytes into a cache of capacity `cap`: room is
/// made, then the object joins the back of the queue unvisited.  Gives the state and
/// the number of evictions.
pub open spec fn sieve_insert(s: SieveState, cap: nat, id: ObjectId, size: ObjectSize) -> (SieveState, nat) {
    let (r, k) = sieve_make_room(s, cap - size);
    (
        SieveState {
            queue: r.queue.push(id),
            entries: r.entries.insert(id, SieveEntry { obj_id: id, obj_size: size, visited: false }),
            ..r
        },
        k,
    )
}

/// State after `id` is removed.
pub open spec fn sieve_drop(s: SieveState, id: ObjectId) -> SieveState {
    SieveState { queue: without(s.queue, id), entries: s.entries.remove(id), ..s }
}

/// One sweep keeps the queue consistent, never adds an entry, keeps sizes, makes
/// progress, and takes off exactly the bytes of what it evicts.
pub proof fn lemma_sieve_sweep(s: SieveState)
    requires
        sieve_consistent(s),
        s.queue.len() > 0,
    ensures
        ({
            let (next, evicted) = sieve_sweep(s);
            &&& sieve_consistent(next)
            &&& sweep_measure(next) < sweep_measure(s)
            &&& forall|k: ObjectId| #[trigger] next.entries.contains_key(k) ==> s.entries.contains_key(k)
                && next.entries[k].obj_size == s.entries[k].obj_size
            &&& evicted ==> s.entries.contains_key(sieve_victim(s))
                && sieve_bytes(next) + s.entries[sieve_victim(s)].obj_size == sieve_bytes(s)
                && next.queue.len() + 1 == s.queue.len()
            &&& !evicted ==> sieve_bytes(next) == sieve_bytes(s) && next.queue == s.queue
        }),
{
    let q = s.queue;
    let t = s.entries;
    let n = q.len() as int;
    let h = sweep_start(s.hand, n);
    lemma_steps_bound(q, visited_bits(t), h, 0);
    let m = steps_to_unmarked(q, visited_bits(t), h, 0);
    let w = table_weight(t, sieve_entry_bytes());
    let ms = if m < n { m } else { n };
    let ts = swept(t, q, h, ms, unvisited());
    assert(ts.dom() =~= t.dom());
    assert forall|k: ObjectId| #[trigger] ts.contains_key(k) implies ts[k].obj_size == t[k].obj_size && ts[k].obj_id == t[k].obj_id by {}
    assert forall|x: int| 0 <= x < q.len() implies w(#[trigger] q[x]) == table_weight(ts, sieve_entry_bytes())(q[x]) by {
        assert(t.contains_key(q[x]));
    }
    lemma_sum_same_weights(q, w, table_weight(ts, sieve_entry_bytes()));
    if m < n {
        lemma_ring(h, m, n);
        let p = ring_pos(h, m, n);
        lemma_table_remove(q, ts, sieve_entry_bytes(), p);
    } else {
        lemma_ring(h, 0, n);
        assert(t[q[ring_pos(h, 0, n)]].visited);
        assert(any_visited(s));
        assert forall|i: int| 0 <= i < q.len() implies !(#[trigger] ts[q[i]].visited) by {
            assert(t.contains_key(q[i]));
            lemma_index_of_unique(q, i);
        }
        if any_visited(sieve_sweep(s).0) {
            let i = choose|i: int| 0 <= i < q.len() && #[trigger] ts[q[i]].visited;
        }
    }
}

pub proof fn lemma_sieve_make_room(s: SieveState, room: int)
    requires
        sieve_consistent(s),
    ensures
        ({
            let (r, k) = sieve_make_room(s, room);
            &&& sieve_consistent(r)
            &&& r.queue.len() == 0 || sieve_bytes(r) <= room
            &&& forall|x: ObjectId| #[trigger] r.entries.contains_key(x) ==> s.entries.contains_key(x)
        }),
    decreases sweep_measure(s),
{
    if s.queue.len() == 0 || sieve_bytes(s) <= room {
    } else {
        lemma_sieve_sweep(s);
        lemma_sieve_make_room(sieve_sweep(s).0, room);
    }
}

/// Sieve cache implementation
pub struct SieveCache {
    capacity: ObjectSize,
    current_size: ObjectSize,
    queue: VecDeque<ObjectId>,
    entries: HashMap<ObjectId, SieveEntry>,
    hand: usize,  // Clock hand position
    stats: CacheStats,
}

impl SieveCache {
    /// The queue, entries and hand as a value.
    pub closed spec fn state(&self) -> SieveState {
        SieveState { queue: self.queue@, entries: self.entries@, hand: self.hand as int }
    }

    pub closed spec fn cap(&self) -> nat {
        self.capacity as nat
    }

    pub closed spec fn used(&self) -> nat {
        self.current_size as nat
    }

    pub closed spec fn counters(&self) -> CacheStats {
        self.stats
    }

    pub open spec fn well_formed(&self) -> bool {
        &&& sieve_consistent(self.state())
        &&& self.used() == sieve_bytes(self.state())
    }

    pub fn new(capacity: ObjectSize) -> (c: Self)
        ensures
            c.well_formed(),
            c.cap() == capacity,
            c.state().queue.len() == 0,
            c.state().entries.is_empty(),
            c.state().hand == 0,
            c.used() == 0,
            c.counters().is_zero(),
    {
        let c = Self {
            capacity,
            current_size: 0,
            queue: VecDeque::new(),
            entries: HashMap::new(),
            hand: 0,
            stats: CacheStats::new(),
        };
        proof {
            assert(c.entries@.dom() =~= Set::<u64>::empty());
        }
        c
    }

    /// One sweep of at most one round from the hand; says whether it evicted.
    fn evict(&mut self) -> (evicted: bool)
        requires
            old(self).well_formed(),
        ensures
            final(self).well_formed(),
            final(self).cap() == old(self).cap(),
            (final(self).state(), evicted) == sieve_sweep(old(self).state()),
            evicted ==> old(self).counters().advanced(final(self).counters(), 0, 0, 0, 1, 0),
            !evicted ==> final(self).counters() == old(self).counters(),
    {
        let queue_len = self.queue.len();
        if queue_len == 0 {
            return false;
        }
        let ghost q = self.queue@;
        let ghost t0 = self.entries@;
        let ghost n = q.len() as int;
        let ghost h = sweep_start(self.hand as int, n);
        let ghost m = steps_to_unmarked(q, visited_bits(t0), h, 0);
        proof {
            lemma_steps_bound(q, visited_bits(t0), h, 0);
            lemma_swept_none(t0, q, h, unvisited());
            lemma_sieve_sweep(self.state());
        }
        // Start from hand position and sweep
        let mut checked: usize = 0;
        while checked < queue_len
            invariant
                queue_len == n,
                self.queue@ == q,
                n == q.len() > 0,
                lists_exactly(q, t0.dom()),
                forall|k: ObjectId| #[trigger] t0.contains_key(k) ==> t0[k].obj_id == k,
                0 <= h < n,
                0 <= checked <= m <= n,
                m == steps_to_unmarked(q, visited_bits(t0), h, 0),
                steps_to_unmarked(q, visited_bits(t0), h, checked as int) == m,
                checked == 0 ==> self.hand == old(self).hand,
                checked > 0 ==> self.hand == ring_pos(h, checked - 1, n) + 1,
                self.entries@ == swept(t0, q, h, checked as int, unvisited()),
                self.current_size == old(self).current_size,
                self.capacity == old(self).capacity,
                self.stats == old(self).stats,
                h == sweep_start(old(self).hand as int, n),
                t0 == old(self).entries@,
                q == old(self).queue@,
                old(self).well_formed(),
            ensures
                checked == n,
                m == n,
                self.hand == ring_pos(h, n - 1, n) + 1,
            decreases queue_len - checked,
        {
            proof {
                lemma_ring(h, checked as int, n);
                if checked > 0 {
                    lemma_ring(h, checked - 1, n);
                }
            }
            if self.hand >= self.queue.len() {
                self.hand = 0;
            }
            let obj_id = self.queue[self.hand];
            let ghost p = self.hand as int;
            proof {
                assert(p == ring_pos(h, checked as int, n));
                lemma_index_of_unique(q, p);
                assert(t0.contains_key(obj_id));
            }
            if let Some(entry) = self.entries.get(&obj_id) {
                let e = *entry;
                if e.visited {
                    // Clear visited bit and move to next
                    proof {
                        lemma_swept_step(t0, q, h, checked as int, unvisited());
                        lemma_steps_bound(q, visited_bits(t0), h, checked as int + 1);
                    }
                    self.entries.insert(obj_id, SieveEntry { visited: false, ..e });
                    self.hand += 1;
                } else {
                    // Evict this entry
                    proof {
                        assert(ring_dist(h, q.index_of(obj_id), n) == checked);
                        assert(e == t0[obj_id]);
                        assert(checked == m);
                        assert(sieve_victim(old(self).state()) == obj_id);
                        lemma_sieve_sweep(old(self).state());
                    }
                    let obj_size = e.obj_size;
                    self.queue.remove(self.hand);
                    self.entries.remove(&obj_id);
                    self.current_size -= obj_size;
                    self.stats.inc_evict();
                    // Don't increment hand, next element is now at this position
                    return true;
                }
            } else {
                // Entry not found, remove from queue
                proof {
                    assert(false);
                }
                self.queue.remove(self.hand);
            }
            checked += 1;
        }
        false
    }

    /// Look `req` up; a hit marks the entry visited.
    pub fn get(&mut self, req: &Request) -> (r: Result<CacheResult, CacheError>)
        requires
            old(self).well_formed(),
        ensures
            final(self).well_formed(),
            final(self).cap() == old(self).cap(),
            final(self).state() == sieve_access(old(self).state(), req.obj_id),
            r == Ok::<CacheResult, CacheError>(sieve_lookup(old(self).state(), req.obj_id)),
            old(self).state().entries.contains_key(req.obj_id) ==> old(self).counters().advanced(final(self).counters(), 1, 1, 0, 0, 0),
            !old(self).state().entries.contains_key(req.obj_id) ==> old(self).counters().advanced(final(self).counters(), 1, 0, 1, 0, 0),
    {
        let ghost s0 = self.stats;
        self.stats.inc_req();
        let ghost s1 = self.stats;
        let found = match self.entries.get(&req.obj_id) {
            Some(e) => Some(*e),
            None => None,
        };
        match found {
            Some(e) => {
                proof {
                    let i = lemma_lists_index(self.queue@, self.entries@.dom(), req.obj_id);
                    assert forall|x: int| 0 <= x < self.queue@.len() implies table_weight(self.entries@, sieve_entry_bytes())(#[trigger] self.queue@[x])
                        == table_weight(self.entries@.insert(req.obj_id, SieveEntry { visited: true, ..e }), sieve_entry_bytes())(self.queue@[x]) by {}
                    lemma_sum_same_weights(self.queue@, table_weight(self.entries@, sieve_entry_bytes()), table_weight(self.entries@.insert(req.obj_id, SieveEntry { visited: true, ..e }), sieve_entry_bytes()));
                    assert(self.entries@.insert(req.obj_id, SieveEntry { visited: true, ..e }).dom() =~= self.entries@.dom());
                }
                self.entries.insert(req.obj_id, SieveEntry { visited: true, ..e });
                self.stats.inc_hit();
                proof {
                    lemma_advanced_trans(s0, s1, self.stats, 1, 0, 0, 0, 0, 0, 1, 0, 0, 0);
                }
                Ok(CacheResult::Hit { obj_size: e.obj_size })
            },
            None => {
                self.stats.inc_miss();
                proof {
                    lemma_advanced_trans(s0, s1, self.stats, 1, 0, 0, 0, 0, 0, 0, 1, 0, 0);
                }
                Ok(CacheResult::Miss)
            },
        }
    }

    /// Insert `req`: an object larger than the capacity is refused; any other joins
    /// the back of the queue after sweeps have made room.
    pub fn insert(&mut self, req: &Request) -> (r: Result<InsertResult, CacheError>)
        requires
            old(self).well_formed(),
        ensures
            final(self).well_formed(),
            final(self).cap() == old(self).cap(),
            req.obj_size > old(self).cap() ==> {
                &&& r == Err::<InsertResult, CacheError>(CacheError::ObjectTooLarge { size: req.obj_size as u64, capacity: old(self).cap() as u64 })
                &&& final(self).state() == old(self).state()
                &&& final(self).counters() == old(self).counters()
            },
            req.obj_size <= old(self).cap() && old(self).state().entries.contains_key(req.obj_id) ==> {
                &&& r == Ok::<InsertResult, CacheError>(InsertResult::Inserted)
                &&& final(self).state() == old(self).state()
                &&& final(self).counters() == old(self).counters()
            },
            req.obj_size <= old(self).cap() && !old(self).state().entries.contains_key(req.obj_id) ==> {
                let (t, k) = sieve_insert(old(self).state(), old(self).cap(), req.obj_id, req.obj_size);
                &&& r == Ok::<InsertResult, CacheError>(InsertResult::Inserted)
                &&& final(self).state() == t
                &&& old(self).counters().advanced(final(self).counters(), 0, 0, 0, k, 0)
            },
    {
        if req.obj_size > self.capacity {
            return Err(CacheError::ObjectTooLarge {
                size: req.obj_size as u64,
                capacity: self.capacity as u64,
            });
        }
        // Already cached: nothing to do
        if self.entries.contains_key(&req.obj_id) {
            return Ok(InsertResult::Inserted);
        }
        let ghost s = self.state();
        let ghost room = self.cap() - req.obj_size;
        let ghost s0 = self.stats;
        let ghost target = sieve_make_room(s, room);
        let ghost mut done: nat = 0;
        proof {
            lemma_sieve_make_room(s, room);
            lemma_advanced_refl(s0);
        }
        // Make space
        while self.current_size as u64 + req.obj_size as u64 > self.capacity as u64
            invariant
                self.well_formed(),
                self.capacity == old(self).capacity,
                room == self.cap() - req.obj_size,
                req.obj_size <= self.cap(),
                sieve_make_room(self.state(), room).0 == target.0,
                sieve_make_room(self.state(), room).1 + done == target.1,
                s0.advanced(self.stats, 0, 0, 0, done, 0),
                forall|x: ObjectId| #[trigger] self.state().entries.contains_key(x) ==> s.entries.contains_key(x),
                !s.entries.contains_key(req.obj_id),
            ensures
                self.used() + req.obj_size <= self.cap(),
            decreases sweep_measure(self.state()),
        {
            let ghost cur = self.state();
            let ghost sc = self.stats;
            proof {
                if cur.queue.len() == 0 {
                    assert(sieve_bytes(cur) == 0);
                }
                lemma_sieve_sweep(cur);
            }
            let evicted = self.evict();
            proof {
                if evicted {
                    lemma_advanced_trans(s0, sc, self.stats, 0, 0, 0, done, 0, 0, 0, 0, 1, 0);
                    done = done + 1;
                }
            }
            if self.current_size as u64 + req.obj_size as u64 <= self.capacity as u64 {
                break;
            }
        }
        proof {
            if self.state().queue.len() == 0 {
                assert(sieve_bytes(self.state()) == 0);
            }
            assert(self.state() == target.0);
            lemma_table_push(self.queue@, self.entries@, sieve_entry_bytes(), req.obj_id, SieveEntry { obj_id: req.obj_id, obj_size: req.obj_size, visited: false });
        }
        let entry = SieveEntry { obj_id: req.obj_id, obj_size: req.obj_size, visited: false };
        self.queue.push_back(req.obj_id);
        self.entries.insert(req.obj_id, entry);
        self.current_size += req.obj_size;
        Ok(InsertResult::Inserted)
    }

    /// Remove a cached object; says whether it was cached.
    pub fn remove(&mut self, obj_id: ObjectId) -> (r: Result<bool, CacheError>)
        requires
            old(self).well_formed(),
        ensures
            final(self).well_formed(),
            final(self).cap() == old(self).cap(),
            final(self).counters() == old(self).counters(),
            final(self).state() == sieve_drop(old(self).state(), obj_id),
            r == Ok::<bool, CacheError>(old(self).state().entries.contains_key(obj_id)),
    {
        let ghost s = self.state();
        if let Some(entry) = self.entries.remove(&obj_id) {
            proof {
                let i = lemma_lists_index(s.queue, s.entries.dom(), obj_id);
                lemma_table_remove(s.queue, s.entries, sieve_entry_bytes(), i);
                lemma_index_of_unique(s.queue, i);
                assert(s.queue.contains(obj_id));
            }
            self.current_size -= entry.obj_size;
            remove_id(&mut self.queue, obj_id);
            Ok(true)
        } else {
            proof {
                assert(self.entries@ =~= s.entries);
                assert(!s.queue.contains(obj_id)) by {
                    if s.queue.contains(obj_id) {
                        let i = choose|i: int| 0 <= i < s.queue.len() && s.queue[i] == obj_id;
                        assert(s.entries.contains_key(s.queue[i]));
                    }
                }
            }
            Ok(false)
        }
    }

    /// Empty the cache, put the hand back to the start, and reset the counters.
    pub fn clear(&mut self)
        requires
            old(self).well_formed(),
        ensures
            final(self).well_formed(),
            final(self).cap() == old(self).cap(),
            final(self).state().queue.len() == 0,
            final(self).state().entries.is_empty(),
            final(self).state().hand == 0,
            final(self).counters().is_zero(),
    {
        self.queue.clear();
        self.entries.clear();
        self.current_size = 0;
        self.hand = 0;
        self.stats.reset();
        proof {
            assert(self.entries@.dom() =~= Set::<u64>::empty());
        }
    }

    pub fn capacity(&self) -> (r: ObjectSize)
        ensures
            r == self.cap(),
    {
        self.capacity
    }

    pub fn size(&self) -> (r: ObjectSize)
        ensures
            r == self.used(),
    {
        self.current_size
    }

    pub fn len(&self) -> (r: usize)
        ensures
            r == self.state().entries.len(),
    {
        self.entries.len()
    }

    pub fn is_empty(&self) -> (r: bool)
        ensures
            r == self.state().entries.is_empty(),
    {
        self.entries.is_empty()
    }

    pub fn stats(&self) -> (r: &CacheStats)
        ensures
            *r == self.counters(),
    {
        &self.stats
    }
}

} // verus!
