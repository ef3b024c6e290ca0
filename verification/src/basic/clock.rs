//! Clock cache (an approximation of LRU using reference bits).
use std::collections::HashMap;
use vstd::prelude::*;

use super::{counted, with_evictions, zero_stats, Cache, CacheStats, ObjId, ObjSize, Request};
use crate::ordered::{
    lemma_index_of_unique, lemma_lists_index, lemma_lists_len, lemma_sum_same_weights,
    lemma_table_push, lemma_table_remove, lemma_table_update, lists_exactly, position_in_vec,
    sum_over, table_weight,
};
use crate::sweep::{
    lemma_ring, lemma_steps_bound, lemma_swept_none, lemma_swept_step, ring_dist, ring_pos,
    steps_to_unmarked, sweep_start, swept,
};

verus! {

broadcast use vstd::std_specs::hash::group_hash_axioms;

/// Bytes of an entry.
pub open spec fn entry_bytes() -> spec_fn((ObjSize, bool)) -> nat {
    |e: (ObjSize, bool)| e.0 as nat
}

/// Reference bit of each id.
pub open spec fn ref_bits(table: Map<ObjId, (ObjSize, bool)>) -> spec_fn(ObjId) -> bool {
    |k: ObjId| table[k].1
}

/// An entry with its reference bit cleared.
pub open spec fn cleared() -> spec_fn((ObjSize, bool)) -> (ObjSize, bool) {
    |e: (ObjSize, bool)| (e.0, false)
}

/// Ring order, entries and hand of a Clock cache.
pub type ClockState = (Seq<ObjId>, Map<ObjId, (ObjSize, bool)>, int);

/// One eviction: sweep from the hand, take the first entry whose bit is clear,
/// and leave the hand on the slot that followed it.
pub open spec fn clock_evict_step(s: ClockState) -> ClockState {
    let (order, table, hand) = s;
    let n = order.len() as int;
    let h = sweep_start(hand, n);
    let m = steps_to_unmarked(order, ref_bits(table), h, 0);
    let p = ring_pos(h, m, n);
    (
        order.remove(p),
        swept(table, order, h, m, cleared()).remove(order[p]),
        if p < n - 1 {
            p
        } else {
            0
        },
    )
}

/// Evictions made, one at a time, until the sizes left sum to at most `room`;
/// the state they leave and how many there were.
pub open spec fn clock_make_room(s: ClockState, room: int) -> (ClockState, nat)
    decreases s.0.len(),
{
    if s.0.len() == 0 || sum_over(s.0, table_weight(s.1, entry_bytes())) <= room {
        (s, 0)
    } else {
        let next = clock_evict_step(s);
        if next.0.len() < s.0.len() {
            let r = clock_make_room(next, room);
            (r.0, r.1 + 1)
        } else {
            (s, 0)
        }
    }
}

pub proof fn lemma_clock_step(s: ClockState)
    requires
        lists_exactly(s.0, s.1.dom()),
        s.0.len() > 0,
        s.2 >= 0,
    ensures
        clock_evict_step(s).0.len() == s.0.len() - 1,
        lists_exactly(clock_evict_step(s).0, clock_evict_step(s).1.dom()),
        clock_evict_step(s).2 >= 0,
        forall|k: ObjId| #[trigger] clock_evict_step(s).1.contains_key(k) ==> s.1.contains_key(k),
        sum_over(s.0, table_weight(s.1, entry_bytes())) >= sum_over(
            clock_evict_step(s).0,
            table_weight(clock_evict_step(s).1, entry_bytes()),
        ),
{
    let (order, table, hand) = s;
    let n = order.len() as int;
    let h = sweep_start(hand, n);
    lemma_steps_bound(order, ref_bits(table), h, 0);
    let m = steps_to_unmarked(order, ref_bits(table), h, 0);
    if m < n {
        lemma_ring(h, m, n);
    }
    let p = ring_pos(h, m, n);
    let ts = swept(table, order, h, m, cleared());
    assert(ts.dom() =~= table.dom());
    lemma_table_remove(order, ts, entry_bytes(), p);
    assert forall|x: int| 0 <= x < order.len() implies table_weight(table, entry_bytes())(
        #[trigger] order[x],
    ) == table_weight(ts, entry_bytes())(order[x]) by {
        assert(table.contains_key(order[x]));
    }
    lemma_sum_same_weights(order, table_weight(table, entry_bytes()), table_weight(ts, entry_bytes()));
}

pub proof fn lemma_clock_make_room(s: ClockState, room: int)
    requires
        lists_exactly(s.0, s.1.dom()),
        s.2 >= 0,
    ensures
        clock_make_room(s, room).0.0.len() + clock_make_room(s, room).1 == s.0.len(),
        lists_exactly(clock_make_room(s, room).0.0, clock_make_room(s, room).0.1.dom()),
        forall|k: ObjId| #[trigger] clock_make_room(s, room).0.1.contains_key(k) ==> s.1.contains_key(k),
    decreases s.0.len(),
{
    if s.0.len() == 0 || sum_over(s.0, table_weight(s.1, entry_bytes())) <= room {
    } else {
        lemma_clock_step(s);
        lemma_clock_make_room(clock_evict_step(s), room);
    }
}

/// Clock cache implementation (approximation of LRU using reference bits)
pub struct ClockCache {
    cache_size: u64,
    occupied_size: u64,
    objects: HashMap<ObjId, (ObjSize, bool)>,  // (size, reference_bit)
    circular_list: Vec<ObjId>,
    hand: usize,  // Clock hand position
    stats: CacheStats,
}

impl ClockCache {
    /// Ids on the ring, in ring order.
    pub closed spec fn order(&self) -> Seq<ObjId> {
        self.circular_list@
    }

    /// Size and reference bit of each held object.
    pub closed spec fn entries(&self) -> Map<ObjId, (ObjSize, bool)> {
        self.objects@
    }

    pub closed spec fn hand(&self) -> int {
        self.hand as int
    }

    pub open spec fn state(&self) -> ClockState {
        (self.order(), self.entries(), self.hand())
    }

    pub closed spec fn capacity(&self) -> nat {
        self.cache_size as nat
    }

    pub closed spec fn occupied(&self) -> nat {
        self.occupied_size as nat
    }

    pub closed spec fn stats(&self) -> CacheStats {
        self.stats
    }

    pub open spec fn well_formed(&self) -> bool {
        &&& lists_exactly(self.order(), self.entries().dom())
        &&& self.occupied() == sum_over(self.order(), table_weight(self.entries(), entry_bytes()))
    }

    pub fn new(cache_size: u64) -> (c: Self)
        ensures
            c.well_formed(),
            c.order() == Seq::<ObjId>::empty(),
            c.hand() == 0,
            c.capacity() == cache_size,
            c.stats() == zero_stats(),
    {
        let c = ClockCache {
            cache_size,
            occupied_size: 0,
            objects: HashMap::new(),
            circular_list: Vec::new(),
            hand: 0,
            stats: CacheStats::default(),
        };
        proof {
            assert(c.objects@.dom() =~= Set::<u64>::empty());
        }
        c
    }

    /// Whether the object with this id is held (`objects.contains_key` in tests).
    pub fn contains(&self, obj_id: ObjId) -> (r: bool)
        ensures
            r == self.entries().contains_key(obj_id),
    {
        self.objects.contains_key(&obj_id)
    }
}

impl Cache for ClockCache {
    open spec fn inv(&self) -> bool {
        self.well_formed()
    }

    open spec fn spec_occupied(&self) -> nat {
        self.occupied()
    }

    open spec fn spec_capacity(&self) -> nat {
        self.capacity()
    }

    open spec fn spec_n_obj(&self) -> nat {
        self.order().len()
    }

    open spec fn spec_holds(&self, id: ObjId) -> bool {
        self.entries().contains_key(id)
    }

    open spec fn spec_stats(&self) -> CacheStats {
        self.stats()
    }

    open spec fn get_step(&self, after: Self, req: Request, hit: bool) -> bool {
        &&& after.capacity() == self.capacity()
        &&& hit == self.entries().contains_key(req.obj_id)
        &&& hit ==> after.order() == self.order() && after.hand() == self.hand()
            && after.entries() == self.entries().insert(req.obj_id, (self.entries()[req.obj_id].0, true))
            && after.stats() == counted(self.stats(), true)
        &&& !hit ==> ({
            let (made, k) = clock_make_room(self.state(), self.capacity() - req.obj_size);
            &&& after.order() == made.0.push(req.obj_id)
            &&& after.entries() == made.1.insert(req.obj_id, (req.obj_size, false))
            &&& after.hand() == made.2
            &&& after.stats() == with_evictions(counted(self.stats(), false), k)
        })
    }

    open spec fn reset_step(&self, after: Self) -> bool {
        &&& after.state() == self.state()
        &&& after.capacity() == self.capacity()
        &&& after.stats() == zero_stats()
    }

    fn get(&mut self, req: &Request) -> (hit: bool)
        ensures
            final(self).capacity() == old(self).capacity(),
            hit ==> final(self).order() == old(self).order() && final(self).hand() == old(self).hand()
                && final(self).entries() == old(self).entries().insert(
                req.obj_id,
                (old(self).entries()[req.obj_id].0, true),
            ) && final(self).stats() == counted(old(self).stats(), true),
            !hit ==> ({
                let (after, k) = clock_make_room(
                    old(self).state(),
                    old(self).capacity() - req.obj_size,
                );
                &&& final(self).order() == after.0.push(req.obj_id)
                &&& final(self).entries() == after.1.insert(req.obj_id, (req.obj_size, false))
                &&& final(self).hand() == after.2
                &&& final(self).stats() == with_evictions(counted(old(self).stats(), false), k)
            }),
    {
        self.stats.n_req += 1;
        if let Some(entry) = self.objects.get(&req.obj_id) {
            // Cache hit - set reference bit
            let e = *entry;
            proof {
                lemma_table_update(
                    self.circular_list@,
                    self.objects@,
                    entry_bytes(),
                    req.obj_id,
                    (e.0, true),
                );
            }
            self.objects.insert(req.obj_id, (e.0, true));
            self.stats.n_hit += 1;
            true
        } else {
            // Cache miss - need to insert
            self.stats.n_miss += 1;
            let ghost s0 = self.stats;
            let ghost room = self.cache_size - req.obj_size;
            let ghost target = clock_make_room(self.state(), room);
            let ghost mut j: nat = 0;
            proof {
                lemma_clock_make_room(self.state(), room);
            }
            while !self.can_insert(req.obj_size)
                invariant
                    self.well_formed(),
                    self.cache_size == old(self).cache_size,
                    req.obj_size <= self.cache_size,
                    self.occupied_size + req.obj_size <= u64::MAX,
                    !self.entries().contains_key(req.obj_id),
                    room == self.cache_size - req.obj_size,
                    clock_make_room(self.state(), room).0 == target.0,
                    clock_make_room(self.state(), room).1 + j == target.1,
                    self.stats == with_evictions(s0, j),
                    s0.n_evict + j + self.order().len() < u64::MAX,
                    target.0.0.len() + target.1 + 1 == s0.n_evict + j + self.order().len() + 1 - s0.n_evict,
                    self.hand() >= 0,
                decreases self.order().len(),
            {
                let ghost st = self.state();
                proof {
                    let n = st.0.len() as int;
                    if n == 0 {
                        assert(false);
                    }
                    let h = sweep_start(st.2, n);
                    lemma_steps_bound(st.0, ref_bits(st.1), h, 0);
                    let m = steps_to_unmarked(st.0, ref_bits(st.1), h, 0);
                    if m < n {
                        lemma_ring(h, m, n);
                    }
                }
                self.evict();
                proof {
                    j = j + 1;
                    lemma_clock_step(st);
                    lemma_clock_make_room(self.state(), room);
                }
            }
            self.insert(req);
            false
        }
    }

    fn insert(&mut self, req: &Request)
        ensures
            final(self).capacity() == old(self).capacity(),
            final(self).stats() == old(self).stats(),
            final(self).hand() == old(self).hand(),
            old(self).entries().contains_key(req.obj_id) ==> final(self).order() == old(
                self,
            ).order() && final(self).entries() == old(self).entries() && final(self).occupied()
                == old(self).occupied(),
            !old(self).entries().contains_key(req.obj_id) ==> final(self).order() == old(
                self,
            ).order().push(req.obj_id) && final(self).entries() == old(self).entries().insert(
                req.obj_id,
                (req.obj_size, false),
            ) && final(self).occupied() == old(self).occupied() + req.obj_size,
    {
        if !self.objects.contains_key(&req.obj_id) {
            proof {
                lemma_table_push(
                    self.circular_list@,
                    self.objects@,
                    entry_bytes(),
                    req.obj_id,
                    (req.obj_size, false),
                );
            }
            self.objects.insert(req.obj_id, (req.obj_size, false));
            self.circular_list.push(req.obj_id);
            self.occupied_size += req.obj_size;
        }
    }

    fn evict(&mut self) -> (r: Option<ObjId>)
        ensures
            final(self).capacity() == old(self).capacity(),
            old(self).order().len() == 0 ==> r is None && final(self).state() == old(self).state()
                && final(self).stats() == old(self).stats(),
            old(self).order().len() > 0 ==> ({
                let n = old(self).order().len() as int;
                let h = sweep_start(old(self).hand(), n);
                let p = ring_pos(h, steps_to_unmarked(old(self).order(), ref_bits(old(self).entries()), h, 0), n);
                &&& r == Some(old(self).order()[p])
                &&& final(self).state() == clock_evict_step(old(self).state())
                &&& final(self).stats() == with_evictions(old(self).stats(), 1)
                &&& final(self).occupied() == old(self).occupied() - old(self).entries()[old(self).order()[p]].0
            }),
    {
        if self.circular_list.is_empty() {
            return None;
        }
        let ghost q = self.circular_list@;
        let ghost t0 = self.objects@;
        let ghost n = q.len() as int;
        let ghost h = sweep_start(self.hand as int, n);
        let ghost m = steps_to_unmarked(q, ref_bits(t0), h, 0);
        let ghost mut s: int = 0;
        proof {
            lemma_steps_bound(q, ref_bits(t0), h, 0);
            lemma_swept_none(t0, q, h, cleared());
        }
        // Sweep clock hand looking for object with reference bit = 0
        loop
            invariant
                self.circular_list@ == q,
                n == q.len() > 0,
                lists_exactly(q, t0.dom()),
                0 <= h < n,
                0 <= s <= m <= n,
                m == steps_to_unmarked(q, ref_bits(t0), h, 0),
                steps_to_unmarked(q, ref_bits(t0), h, s) == m,
                sweep_start(self.hand as int, n) == ring_pos(h, s, n),
                self.objects@ == swept(t0, q, h, s, cleared()),
                self.occupied_size == sum_over(q, table_weight(t0, entry_bytes())),
                self.cache_size == old(self).cache_size,
                self.stats == old(self).stats,
                self.stats.n_evict < u64::MAX,
                h == sweep_start(old(self).hand as int, n),
                t0 == old(self).objects@,
                q == old(self).circular_list@,
                self.occupied_size == old(self).occupied_size,
            decreases n - s,
        {
            if self.hand >= self.circular_list.len() {
                self.hand = 0;
            }
            let obj_id = self.circular_list[self.hand];
            proof {
                lemma_ring(h, if s < n { s } else { 0 }, n);
            }
            if let Some(entry) = self.objects.get(&obj_id) {
                let (obj_size, ref_bit) = *entry;
                proof {
                    if s < n {
                        assert(self.objects@[obj_id] == t0[obj_id]) by {
                            assert(q.index_of(obj_id) == ring_pos(h, s, n)) by {
                                assert(q.contains(obj_id));
                            }
                        }
                    }
                }
                if ref_bit {
                    // Reference bit is set, clear it and move to next
                    proof {
                        assert(s < n) by {
                            if s == n {
                                assert(ring_pos(h, n, n) == h);
                            }
                        }
                        lemma_swept_step(t0, q, h, s, cleared());
                        lemma_steps_bound(q, ref_bits(t0), h, s + 1);
                    }
                    self.objects.insert(obj_id, (obj_size, false));
                    self.hand += 1;
                    proof {
                        s = s + 1;
                    }
                } else {
                    // Reference bit is clear, evict this object
                    let ghost p = self.hand as int;
                    let ghost ts = self.objects@;
                    proof {
                        assert(s == m);
                        assert(ts.dom() =~= t0.dom());
                        lemma_table_remove(q, ts, entry_bytes(), p);
                        assert forall|x: int| 0 <= x < q.len() implies table_weight(t0, entry_bytes())(
                            #[trigger] q[x],
                        ) == table_weight(ts, entry_bytes())(q[x]) by {
                            assert(t0.contains_key(q[x]));
                        }
                        lemma_sum_same_weights(q, table_weight(t0, entry_bytes()), table_weight(ts, entry_bytes()));
                    }
                    self.objects.remove(&obj_id);
                    self.circular_list.remove(self.hand);
                    self.occupied_size -= obj_size;
                    self.stats.n_evict += 1;
                    // Don't increment hand since we removed an element
                    if self.hand >= self.circular_list.len() && !self.circular_list.is_empty() {
                        self.hand = 0;
                    }
                    return Some(obj_id);
                }
            } else {
                proof {
                    assert(false);
                }
                self.hand += 1;
            }
        }
    }

    fn remove(&mut self, obj_id: ObjId) -> (removed: bool)
        ensures
            final(self).capacity() == old(self).capacity(),
            final(self).stats() == old(self).stats(),
            removed ==> ({
                let pos = old(self).order().index_of(obj_id);
                &&& final(self).order() == old(self).order().remove(pos)
                &&& final(self).entries() == old(self).entries().remove(obj_id)
                &&& final(self).hand() == if old(self).hand() > pos {
                    old(self).hand() - 1
                } else if old(self).hand() >= old(self).order().len() - 1 && old(self).order().len() > 1 {
                    0
                } else {
                    old(self).hand()
                }
            }),
            !removed ==> final(self).state() == old(self).state(),
    {
        let ghost q = self.circular_list@;
        let ghost t = self.objects@;
        if let Some(entry) = self.objects.remove(&obj_id) {
            let (obj_size, _) = entry;
            let ghost i = lemma_lists_index(q, t.dom(), obj_id);
            proof {
                lemma_table_remove(q, t, entry_bytes(), i);
                lemma_index_of_unique(q, i);
            }
            self.occupied_size -= obj_size;
            if let Some(pos) = position_in_vec(&self.circular_list, obj_id) {
                proof {
                    assert(q[pos as int] == q[i]);
                }
                self.circular_list.remove(pos);
                // Adjust hand if necessary
                if self.hand > pos {
                    self.hand -= 1;
                } else if self.hand >= self.circular_list.len() && !self.circular_list.is_empty() {
                    self.hand = 0;
                }
            } else {
                proof {
                    assert(q[i] == obj_id);
                }
            }
            true
        } else {
            assert(self.objects@ =~= t);
            false
        }
    }

    fn get_occupied_byte(&self) -> (r: u64) {
        self.occupied_size
    }

    fn get_n_obj(&self) -> (r: usize) {
        proof {
            lemma_lists_len(self.circular_list@, self.objects@.dom());
        }
        self.objects.len()
    }

    fn can_insert(&self, obj_size: ObjSize) -> (r: bool) {
        self.occupied_size + obj_size <= self.cache_size
    }

    fn get_stats(&self) -> (r: &CacheStats) {
        &self.stats
    }

    fn reset_stats(&mut self)
        ensures
            final(self).state() == old(self).state(),
    {
        self.stats = CacheStats::default();
    }
}

} // verus!
