//! CAR (Clock with Adaptive Replacement) implementation
//!
//! CAR combines the CLOCK algorithm's efficient approximate LRU with ARC's adaptive
//! partitioning between short-term and long-term entries.
use std::collections::HashMap;
use std::collections::VecDeque;
use vstd::prelude::*;

use crate::cache::{CacheResult, InsertResult};
use crate::error::CacheError;
use crate::ordered::{
    lemma_lists_len, lemma_lists_push, lemma_lists_remove, lemma_lists_without,
    lemma_pop_front_is_remove, lemma_sum_push, lemma_sum_remove, lemma_sum_same_weights,
    lemma_sum_without, lists_exactly, remove_id, sum_over, table_weight, without, lemma_sum_concat,
    lemma_lists_rotate, lemma_lists_suffix, lemma_two_lists_fit,
};
use crate::request::Request;
use crate::stats::{lemma_advanced_refl, lemma_advanced_trans, CacheStats};
use crate::{ObjectId, ObjectSize};

verus! {

broadcast use vstd::std_specs::hash::group_hash_axioms;

#[derive(Debug, Clone, Copy, PartialEq, Eq, Structural)]
pub struct CarEntry {
    pub obj_id: ObjectId,
    pub obj_size: ObjectSize,
    pub reference_bit: bool,
}

#[derive(Debug, Clone, Copy, PartialEq, Eq, Structural)]
pub enum ListType {
    T1,
    T2,
    B1,
    B2,
}

/// The four lists, the cached entries, the location of every known id, and `p`.
pub struct CarState {
    pub t1: Seq<ObjectId>,
    pub t2: Seq<ObjectId>,
    pub b1: Seq<ObjectId>,
    pub b2: Seq<ObjectId>,
    pub entries: Map<ObjectId, CarEntry>,
    pub location: Map<ObjectId, ListType>,
    pub p: int,
}

/// Bytes of an entry.
pub open spec fn car_entry_bytes() -> spec_fn(CarEntry) -> nat {
    |e: CarEntry| e.obj_size as nat
}

/// Bytes held by the cached entries (T1 and T2).
pub open spec fn car_bytes(s: CarState) -> nat {
    sum_over(s.t1, table_weight(s.entries, car_entry_bytes())) + sum_over(
        s.t2,
        table_weight(s.entries, car_entry_bytes()),
    )
}

/// Ids whose location is `l`.
pub open spec fn at(location: Map<ObjectId, ListType>, l: ListType) -> Set<ObjectId> {
    Set::new(|k: ObjectId| location.contains_key(k) && location[k] == l)
}

/// Each list lists the ids located in it; the cached entries are those of T1 and T2.
pub open spec fn car_consistent(s: CarState) -> bool {
    &&& lists_exactly(s.t1, at(s.location, ListType::T1))
    &&& lists_exactly(s.t2, at(s.location, ListType::T2))
    &&& lists_exactly(s.b1, at(s.location, ListType::B1))
    &&& lists_exactly(s.b2, at(s.location, ListType::B2))
    &&& forall|k: ObjectId| #[trigger] s.entries.contains_key(k) <==> (at(s.location, ListType::T1).contains(k) || at(s.location, ListType::T2).contains(k))
    &&& forall|k: ObjectId| #[trigger] s.entries.contains_key(k) ==> s.entries[k].obj_id == k
}

/// Entries at the front of `q`, from `d` on, whose reference bit is set, before the first clear one.
pub open spec fn marked_run(q: Seq<ObjectId>, entries: Map<ObjectId, CarEntry>, d: int) -> int
    decreases q.len() - d,
{
    if d >= q.len() {
        q.len() as int
    } else if !entries[q[d]].reference_bit {
        d
    } else {
        marked_run(q, entries, d + 1)
    }
}

/// Entries with the reference bits of `keys` cleared.
pub open spec fn bits_cleared(entries: Map<ObjectId, CarEntry>, keys: Seq<ObjectId>) -> Map<ObjectId, CarEntry> {
    Map::new(
        |k: ObjectId| entries.contains_key(k),
        |k: ObjectId|
            if keys.contains(k) {
                CarEntry { reference_bit: false, ..entries[k] }
            } else {
                entries[k]
            },
    )
}

/// A CLOCK pass over `q`: entries with the bit set have it cleared and go to the back;
/// the first with the bit clear is the victim.  If every bit was set, the list comes
/// round to where it was and its front is the victim.  Gives the victim, the list
/// without it, and the entries.
pub open spec fn clock_pass(q: Seq<ObjectId>, entries: Map<ObjectId, CarEntry>) -> (ObjectId, Seq<ObjectId>, Map<ObjectId, CarEntry>) {
    let m = marked_run(q, entries, 0);
    if m < q.len() {
        (q[m], q.subrange(m + 1, q.len() as int) + q.subrange(0, m), bits_cleared(entries, q.subrange(0, m)))
    } else {
        (q[0], q.subrange(1, q.len() as int), bits_cleared(entries, q))
    }
}

/// Ghost ids dropped so that a ghost list and its cache list hold at most `2 * cap`
/// ids, or until the ghost list is empty.
pub open spec fn ghost_excess(ghost_len: nat, live_len: nat, cap: nat) -> int {
    if ghost_len + live_len > 2 * cap {
        if live_len > 2 * cap {
            ghost_len as int
        } else {
            ghost_len + live_len - 2 * cap
        }
    } else {
        0
    }
}

/// Forget the oldest ghosts of B1 and B2 beyond `2 * cap` ids per side.
pub open spec fn trim_ghosts(s: CarState, cap: nat) -> CarState {
    let k1 = ghost_excess(s.b1.len(), s.t1.len(), cap);
    let k2 = ghost_excess(s.b2.len(), s.t2.len(), cap);
    CarState {
        b1: s.b1.subrange(k1, s.b1.len() as int),
        b2: s.b2.subrange(k2, s.b2.len() as int),
        location: s.location.remove_keys(s.b1.subrange(0, k1).to_set()).remove_keys(
            s.b2.subrange(0, k2).to_set(),
        ),
        ..s
    }
}

/// Whether `replace` takes its victim from T1: T1 is over its target, or the missed
/// object was a ghost of B2, or T2 has nothing to give.
pub open spec fn car_from_t1(s: CarState, in_b2: bool) -> bool {
    s.t1.len() > 0 && (s.t1.len() > s.p || in_b2 || s.t2.len() == 0)
}

/// One `replace`: a CLOCK pass over T1 or T2 evicts a victim into the matching ghost
/// list, then the ghost lists are trimmed.
pub open spec fn car_replace(s: CarState, cap: nat, in_b2: bool) -> CarState {
    if car_from_t1(s, in_b2) {
        let (v, rest, e) = clock_pass(s.t1, s.entries);
        trim_ghosts(
            CarState {
                t1: rest,
                entries: e.remove(v),
                b1: s.b1.push(v),
                location: s.location.insert(v, ListType::B1),
                ..s
            },
            cap,
        )
    } else if s.t2.len() > 0 {
        let (v, rest, e) = clock_pass(s.t2, s.entries);
        trim_ghosts(
            CarState {
                t2: rest,
                entries: e.remove(v),
                b2: s.b2.push(v),
                location: s.location.insert(v, ListType::B2),
                ..s
            },
            cap,
        )
    } else {
        trim_ghosts(s, cap)
    }
}

/// The entry one `replace` evicts (when T1 or T2 has one to give).
pub open spec fn car_victim(s: CarState, in_b2: bool) -> ObjectId {
    if car_from_t1(s, in_b2) {
        clock_pass(s.t1, s.entries).0
    } else {
        clock_pass(s.t2, s.entries).0
    }
}

/// `replace` repeated until `size` more bytes fit within `cap`: the state it leaves
/// and the number of evictions, or `None` when it would never finish.
pub open spec fn car_make_room(s: CarState, cap: nat, size: nat, in_b2: bool) -> Option<(CarState, nat)>
    decreases s.t1.len() + s.t2.len(),
{
    if car_bytes(s) + size <= cap {
        Some((s, 0))
    } else if s.t1.len() + s.t2.len() == 0 {
        None
    } else {
        let next = car_replace(s, cap, in_b2);
        if next.t1.len() + next.t2.len() < s.t1.len() + s.t2.len() {
            match car_make_room(next, cap, size, in_b2) {
                Some((r, k)) => Some((r, k + 1)),
                None => None,
            }
        } else {
            None
        }
    }
}

/// The growth (or shrinkage) of `p` on a ghost hit.
pub open spec fn car_delta(b1_len: nat, b2_len: nat) -> nat {
    if b1_len >= b2_len {
        1
    } else {
        b2_len / (if b1_len >= 1 { b1_len } else { 1 })
    }
}

/// `p` after a ghost hit in B1 (grows) or B2 (shrinks).
pub open spec fn car_adapted_p(s: CarState, cap: nat, in_b1: bool, in_b2: bool) -> int {
    let delta = car_delta(s.b1.len(), s.b2.len());
    if in_b1 {
        if s.p + delta <= cap {
            s.p + delta
        } else {
            cap as int
        }
    } else if in_b2 {
        if s.p >= delta {
            s.p - delta
        } else {
            0
        }
    } else {
        s.p
    }
}

/// CAR cache implementation
pub struct CarCache {
    capacity: ObjectSize,
    current_size: ObjectSize,
    p: ObjectSize,  // Adaptive parameter
    /// T1: Short-term cache (frequency = 1)
    t1: VecDeque<ObjectId>,
    /// T2: Long-term cache (frequency >= 2)
    t2: VecDeque<ObjectId>,
    /// B1: Ghost entries from T1
    b1: VecDeque<ObjectId>,
    /// B2: Ghost entries from T2
    b2: VecDeque<ObjectId>,
    entries: HashMap<ObjectId, CarEntry>,
    location: HashMap<ObjectId, ListType>,
    stats: CacheStats,
}

/// A CLOCK pass over `list`, clearing reference bits in `entries` as it goes.
fn clock_evict(list: &mut VecDeque<ObjectId>, entries: &mut HashMap<ObjectId, CarEntry>) -> (r: Option<ObjectId>)
    requires
        old(list)@.no_duplicates(),
        forall|i: int| 0 <= i < old(list)@.len() ==> old(entries)@.contains_key(#[trigger] old(list)@[i]),
    ensures
        old(list)@.len() == 0 ==> r is None && final(list)@ == old(list)@ && final(entries)@ == old(entries)@,
        old(list)@.len() > 0 ==> ({
            let (v, rest, e) = clock_pass(old(list)@, old(entries)@);
            &&& r == Some(v)
            &&& final(list)@ == rest
            &&& final(entries)@ == e
        }),
{
    let ghost q = list@;
    let ghost e0 = entries@;
    let ghost m = marked_run(q, e0, 0);
    // Clock sweep: find first entry with reference_bit = false
    let mut rotations: usize = 0;
    let max_rotations = list.len();
    proof {
        lemma_marked_run_bound(q, e0, 0);
        assert(q.subrange(0, q.len() as int) + q.subrange(0, 0) =~= q);
        assert(bits_cleared(e0, q.subrange(0, 0)) =~= e0);
    }
    while rotations < max_rotations
        invariant
            max_rotations == q.len(),
            rotations <= m <= q.len(),
            m == marked_run(q, e0, 0),
            marked_run(q, e0, rotations as int) == m,
            list@ == q.subrange(rotations as int, q.len() as int) + q.subrange(0, rotations as int),
            entries@ == bits_cleared(e0, q.subrange(0, rotations as int)),
            q.no_duplicates(),
            forall|i: int| 0 <= i < q.len() ==> e0.contains_key(#[trigger] q[i]),
            q == old(list)@,
            e0 == old(entries)@,
        ensures
            rotations == q.len() && m == q.len(),
        decreases max_rotations - rotations,
    {
        let ghost l = list@;
        if let Some(obj_id) = list.pop_front() {
            proof {
                assert(obj_id == q[rotations as int]);
                assert(!q.subrange(0, rotations as int).contains(obj_id));
                lemma_marked_run_bound(q, e0, rotations as int + 1);
            }
            if let Some(entry) = entries.get(&obj_id) {
                let e = *entry;
                if e.reference_bit {
                    // Reset reference bit and move to back
                    entries.insert(obj_id, CarEntry { reference_bit: false, ..e });
                    list.push_back(obj_id);
                    proof {
                        assert(list@ =~= q.subrange(rotations as int + 1, q.len() as int) + q.subrange(0, rotations as int + 1));
                        assert(q.subrange(0, rotations as int + 1) =~= q.subrange(0, rotations as int).push(obj_id));
                        let pre = q.subrange(0, rotations as int);
                        assert forall|k: ObjectId| #[trigger] pre.push(obj_id).contains(k) == (pre.contains(k) || k == obj_id) by {
                            if pre.push(obj_id).contains(k) {
                                let j = choose|j: int| 0 <= j < pre.push(obj_id).len() && pre.push(obj_id)[j] == k;
                                if j < pre.len() {
                                    assert(pre[j] == k);
                                }
                            }
                            if pre.contains(k) {
                                let j = choose|j: int| 0 <= j < pre.len() && pre[j] == k;
                                assert(pre.push(obj_id)[j] == k);
                            }
                            if k == obj_id {
                                assert(pre.push(obj_id)[pre.len() as int] == k);
                            }
                        }
                        assert(entries@ =~= bits_cleared(e0, q.subrange(0, rotations as int + 1)));
                    }
                    rotations += 1;
                } else {
                    // Found victim
                    proof {
                        assert(m == rotations);
                        assert(list@ =~= q.subrange(m + 1, q.len() as int) + q.subrange(0, m));
                    }
                    return Some(obj_id);
                }
            } else {
                proof {
                    assert(false);
                }
            }
        } else {
            proof {
                assert(false);
            }
            break;
        }
    }
    // Fallback: evict first entry
    proof {
        assert(q.subrange(q.len() as int, q.len() as int) + q.subrange(0, q.len() as int) =~= q);
        assert(q.subrange(0, q.len() as int) =~= q);
    }
    let r = list.pop_front();
    r
}

pub proof fn lemma_marked_run_bound(q: Seq<ObjectId>, entries: Map<ObjectId, CarEntry>, d: int)
    requires
        0 <= d <= q.len(),
    ensures
        d <= marked_run(q, entries, d) <= q.len(),
        marked_run(q, entries, d) < q.len() ==> !entries[q[marked_run(q, entries, d)]].reference_bit,
    decreases q.len() - d,
{
    if d < q.len() && entries[q[d]].reference_bit {
        lemma_marked_run_bound(q, entries, d + 1);
    }
}

/// A CLOCK pass takes one listed victim, lists the rest, keeps every size, and
/// takes the victim's bytes off the total.
pub proof fn lemma_clock_pass(q: Seq<ObjectId>, entries: Map<ObjectId, CarEntry>, keys: Set<ObjectId>)
    requires
        lists_exactly(q, keys),
        q.len() > 0,
        forall|i: int| 0 <= i < q.len() ==> entries.contains_key(#[trigger] q[i]),
    ensures
        ({
            let (v, rest, e) = clock_pass(q, entries);
            &&& keys.contains(v)
            &&& lists_exactly(rest, keys.remove(v))
            &&& e.dom() == entries.dom()
            &&& forall|k: ObjectId| #[trigger] e.contains_key(k) ==> e[k].obj_size == entries[k].obj_size && e[k].obj_id == entries[k].obj_id
            &&& forall|k: ObjectId| #[trigger] e.contains_key(k) && !q.contains(k) ==> e[k] == entries[k]
            &&& sum_over(rest, table_weight(e.remove(v), car_entry_bytes())) + entries[v].obj_size == sum_over(q, table_weight(entries, car_entry_bytes()))
        }),
{
    let (v, rest, e) = clock_pass(q, entries);
    let m = marked_run(q, entries, 0);
    lemma_marked_run_bound(q, entries, 0);
    let w = table_weight(entries, car_entry_bytes());
    let idx = if m < q.len() { m } else { 0 };
    assert(v == q[idx]);
    lemma_lists_remove(q, keys, idx);
    lemma_sum_remove(q, idx, w);
    let a = q.subrange(0, idx);
    let b = q.subrange(idx + 1, q.len() as int);
    assert(q.remove(idx) =~= a + b);
    if m < q.len() {
        assert(rest =~= b + a);
        lemma_lists_rotate(a, b, keys.remove(v));
        lemma_sum_concat(a, b, w);
        lemma_sum_concat(b, a, w);
    } else {
        assert(rest =~= q.remove(0));
    }
    assert(e.dom() =~= entries.dom());
    assert forall|i: int| 0 <= i < rest.len() implies w(#[trigger] rest[i]) == table_weight(e.remove(v), car_entry_bytes())(rest[i]) by {
        assert(keys.remove(v).contains(rest[i]));
        assert(keys.contains(rest[i]));
        let j = choose|j: int| 0 <= j < q.len() && q[j] == rest[i];
        assert(entries.contains_key(q[j]));
    }
    lemma_sum_same_weights(rest, w, table_weight(e.remove(v), car_entry_bytes()));
}

pub proof fn lemma_at_remove_keys(location: Map<ObjectId, ListType>, keys: Set<ObjectId>, l: ListType)
    ensures
        at(location.remove_keys(keys), l) == at(location, l).difference(keys),
{
    assert(at(location.remove_keys(keys), l) =~= at(location, l).difference(keys));
}

pub proof fn lemma_at_insert(location: Map<ObjectId, ListType>, k: ObjectId, v: ListType, l: ListType)
    ensures
        at(location.insert(k, v), l) == if v == l {
            at(location, l).insert(k)
        } else {
            at(location, l).remove(k)
        },
{
    assert(at(location.insert(k, v), l) =~= if v == l {
        at(location, l).insert(k)
    } else {
        at(location, l).remove(k)
    });
}

pub proof fn lemma_at_remove(location: Map<ObjectId, ListType>, k: ObjectId, l: ListType)
    ensures
        at(location.remove(k), l) == at(location, l).remove(k),
{
    assert(at(location.remove(k), l) =~= at(location, l).remove(k));
}

proof fn lemma_prefix_within(order: Seq<ObjectId>, keys: Set<ObjectId>, k: int)
    requires
        lists_exactly(order, keys),
        0 <= k <= order.len(),
    ensures
        order.subrange(0, k).to_set().subset_of(keys),
{
    assert forall|x: ObjectId| order.subrange(0, k).to_set().contains(x) implies keys.contains(x) by {
        let j = choose|j: int| 0 <= j < k && order.subrange(0, k)[j] == x;
        assert(order[j] == x);
    }
}

proof fn lemma_set_diff_disjoint(a: Set<ObjectId>, b: Set<ObjectId>)
    requires
        a.disjoint(b),
    ensures
        a.difference(b) == a,
{
    assert(a.difference(b) =~= a);
}

/// Trimming the ghost lists keeps the lists consistent and only forgets ghosts.
pub proof fn lemma_trim(s: CarState, cap: nat)
    requires
        car_consistent(s),
    ensures
        car_consistent(trim_ghosts(s, cap)),
        trim_ghosts(s, cap).t1 == s.t1,
        trim_ghosts(s, cap).t2 == s.t2,
        trim_ghosts(s, cap).entries == s.entries,
        trim_ghosts(s, cap).p == s.p,
        trim_ghosts(s, cap).b1.len() + s.t1.len() <= 2 * cap || trim_ghosts(s, cap).b1.len() == 0,
        forall|k: ObjectId| #[trigger] trim_ghosts(s, cap).location.contains_key(k) ==> s.location.contains_key(k) && trim_ghosts(s, cap).location[k] == s.location[k],
        forall|k: ObjectId| s.location.contains_key(k) && (s.location[k] == ListType::T1 || s.location[k] == ListType::T2) ==> #[trigger] trim_ghosts(s, cap).location.contains_key(k),
{
    let k1 = ghost_excess(s.b1.len(), s.t1.len(), cap);
    let k2 = ghost_excess(s.b2.len(), s.t2.len(), cap);
    let p1 = s.b1.subrange(0, k1).to_set();
    let p2 = s.b2.subrange(0, k2).to_set();
    let l1 = s.location.remove_keys(p1);
    lemma_prefix_within(s.b1, at(s.location, ListType::B1), k1);
    lemma_prefix_within(s.b2, at(s.location, ListType::B2), k2);
    lemma_lists_suffix(s.b1, at(s.location, ListType::B1), k1);
    lemma_lists_suffix(s.b2, at(s.location, ListType::B2), k2);
    lemma_at_remove_keys(s.location, p1, ListType::T1);
    lemma_at_remove_keys(s.location, p1, ListType::T2);
    lemma_at_remove_keys(s.location, p1, ListType::B1);
    lemma_at_remove_keys(s.location, p1, ListType::B2);
    lemma_at_remove_keys(l1, p2, ListType::T1);
    lemma_at_remove_keys(l1, p2, ListType::T2);
    lemma_at_remove_keys(l1, p2, ListType::B1);
    lemma_at_remove_keys(l1, p2, ListType::B2);
    lemma_set_diff_disjoint(at(s.location, ListType::T1), p1);
    lemma_set_diff_disjoint(at(s.location, ListType::T2), p1);
    lemma_set_diff_disjoint(at(s.location, ListType::B2), p1);
    lemma_set_diff_disjoint(at(s.location, ListType::T1), p2);
    lemma_set_diff_disjoint(at(s.location, ListType::T2), p2);
    lemma_set_diff_disjoint(at(s.location, ListType::B1).difference(p1), p2);
}

/// One `replace` keeps consistency, never adds entries, never re-locates an id
/// except the victim (into a ghost list), and removes the victim's bytes.
pub proof fn lemma_car_replace(s: CarState, cap: nat, in_b2: bool)
    requires
        car_consistent(s),
    ensures
        car_consistent(car_replace(s, cap, in_b2)),
        car_replace(s, cap, in_b2).p == s.p,
        car_bytes(car_replace(s, cap, in_b2)) <= car_bytes(s),
        (car_from_t1(s, in_b2) || s.t2.len() > 0) ==> s.entries.contains_key(car_victim(s, in_b2))
            && car_bytes(car_replace(s, cap, in_b2)) + s.entries[car_victim(s, in_b2)].obj_size == car_bytes(s),
        !(car_from_t1(s, in_b2) || s.t2.len() > 0) ==> car_bytes(car_replace(s, cap, in_b2)) == car_bytes(s),
        (car_from_t1(s, in_b2) || s.t2.len() > 0) ==> car_replace(s, cap, in_b2).t1.len() + car_replace(s, cap, in_b2).t2.len() + 1 == s.t1.len() + s.t2.len(),
        !(car_from_t1(s, in_b2) || s.t2.len() > 0) ==> car_replace(s, cap, in_b2).t1.len() + car_replace(s, cap, in_b2).t2.len() == s.t1.len() + s.t2.len(),
        forall|k: ObjectId| #[trigger] car_replace(s, cap, in_b2).entries.contains_key(k) ==> s.entries.contains_key(k),
        forall|k: ObjectId| #[trigger] car_replace(s, cap, in_b2).location.contains_key(k) && (car_replace(s, cap, in_b2).location[k] == ListType::T1 || car_replace(s, cap, in_b2).location[k] == ListType::T2) ==> s.location.contains_key(k) && s.location[k] == car_replace(s, cap, in_b2).location[k],
        forall|k: ObjectId| #[trigger] car_replace(s, cap, in_b2).location.contains_key(k) && s.location.contains_key(k) && (s.location[k] == ListType::B1 || s.location[k] == ListType::B2) ==> car_replace(s, cap, in_b2).location[k] == s.location[k],
        forall|k: ObjectId| #[trigger] car_replace(s, cap, in_b2).location.contains_key(k) ==> s.location.contains_key(k),
{
    let w = table_weight(s.entries, car_entry_bytes());
    if car_from_t1(s, in_b2) || s.t2.len() > 0 {
        let from_t1 = car_from_t1(s, in_b2);
        let (q, src, dst) = if from_t1 { (s.t1, ListType::T1, ListType::B1) } else { (s.t2, ListType::T2, ListType::B2) };
        assert forall|i: int| 0 <= i < q.len() implies s.entries.contains_key(#[trigger] q[i]) by {
            assert(at(s.location, src).contains(q[i]));
        }
        lemma_clock_pass(q, s.entries, at(s.location, src));
        let (v, rest, e) = clock_pass(q, s.entries);
        lemma_lists_len(q, at(s.location, src));
        lemma_lists_len(rest, at(s.location, src).remove(v));
        let loc2 = s.location.insert(v, dst);
        lemma_at_insert(s.location, v, dst, ListType::T1);
        lemma_at_insert(s.location, v, dst, ListType::T2);
        lemma_at_insert(s.location, v, dst, ListType::B1);
        lemma_at_insert(s.location, v, dst, ListType::B2);
        let mid = if from_t1 {
            CarState { t1: rest, entries: e.remove(v), b1: s.b1.push(v), location: loc2, ..s }
        } else {
            CarState { t2: rest, entries: e.remove(v), b2: s.b2.push(v), location: loc2, ..s }
        };
        let other = if from_t1 { s.t2 } else { s.t1 };
        let other_loc = if from_t1 { ListType::T2 } else { ListType::T1 };
        assert(!at(s.location, other_loc).contains(v));
        assert(!at(s.location, dst).contains(v));
        assert(at(s.location, other_loc).remove(v) =~= at(s.location, other_loc));
        if from_t1 {
            assert(at(s.location, ListType::B2).remove(v) =~= at(s.location, ListType::B2));
            lemma_lists_push(s.b1, at(s.location, ListType::B1), v);
        } else {
            assert(at(s.location, ListType::B1).remove(v) =~= at(s.location, ListType::B1));
            lemma_lists_push(s.b2, at(s.location, ListType::B2), v);
        }
        assert forall|k: ObjectId| #[trigger] mid.entries.contains_key(k) <==> (at(mid.location, ListType::T1).contains(k) || at(mid.location, ListType::T2).contains(k)) by {}
        assert forall|i: int| 0 <= i < other.len() implies w(#[trigger] other[i]) == table_weight(mid.entries, car_entry_bytes())(other[i]) by {
            assert(at(s.location, other_loc).contains(other[i]));
            assert(other[i] != v);
        }
        lemma_sum_same_weights(other, w, table_weight(mid.entries, car_entry_bytes()));
        assert(car_consistent(mid));
        lemma_trim(mid, cap);
    } else {
        lemma_trim(s, cap);
    }
}


/// Whether `id` is located in list `l`.
pub open spec fn car_in(s: CarState, id: ObjectId, l: ListType) -> bool {
    s.location.contains_key(id) && s.location[id] == l
}

/// What a lookup of `id` answers.
pub open spec fn car_lookup(s: CarState, id: ObjectId) -> CacheResult {
    if s.entries.contains_key(id) {
        CacheResult::Hit { obj_size: s.entries[id].obj_size }
    } else {
        CacheResult::Miss
    }
}

/// State after an access to `id`: a cached entry gets its reference bit set and,
/// from T1, moves to the back of T2; a hit on a ghost adapts `p`.
pub open spec fn car_access(s: CarState, cap: nat, id: ObjectId) -> CarState {
    if s.entries.contains_key(id) {
        let e = s.entries.insert(id, CarEntry { reference_bit: true, ..s.entries[id] });
        if car_in(s, id, ListType::T1) {
            CarState {
                t1: without(s.t1, id),
                t2: s.t2.push(id),
                entries: e,
                location: s.location.insert(id, ListType::T2),
                ..s
            }
        } else {
            CarState { entries: e, ..s }
        }
    } else {
        CarState {
            p: car_adapted_p(s, cap, car_in(s, id, ListType::B1), car_in(s, id, ListType::B2)),
            ..s
        }
    }
}

/// State after `id` of `size` bytes enters: a former ghost of B1 or B2 enters T2, any
/// other object enters T1, with its reference bit set.
pub open spec fn car_enter(s: CarState, id: ObjectId, size: ObjectSize, in_b1: bool, in_b2: bool) -> CarState {
    let e = s.entries.insert(id, CarEntry { obj_id: id, obj_size: size, reference_bit: true });
    if in_b1 {
        CarState {
            b1: without(s.b1, id),
            t2: s.t2.push(id),
            location: s.location.insert(id, ListType::T2),
            entries: e,
            ..s
        }
    } else if in_b2 {
        CarState {
            b2: without(s.b2, id),
            t2: s.t2.push(id),
            location: s.location.insert(id, ListType::T2),
            entries: e,
            ..s
        }
    } else {
        CarState { t1: s.t1.push(id), location: s.location.insert(id, ListType::T1), entries: e, ..s }
    }
}

/// Inserting `id` of `size` bytes (which fits within `cap`): room is made by
/// `replace`, then the object enters.  Gives the state and the number of evictions,
/// or `None` when making room would never finish.
pub open spec fn car_insert(s: CarState, cap: nat, id: ObjectId, size: ObjectSize) -> Option<(CarState, nat)> {
    let in_b1 = car_in(s, id, ListType::B1);
    let in_b2 = car_in(s, id, ListType::B2);
    match car_make_room(s, cap, size as nat, in_b2) {
        Some((r, k)) => Some((car_enter(r, id, size, in_b1, in_b2), k)),
        None => None,
    }
}

/// State after `id` is removed: a cached entry leaves its list and is forgotten;
/// anything else stays as it is.
pub open spec fn car_drop(s: CarState, id: ObjectId) -> CarState {
    if s.entries.contains_key(id) {
        CarState {
            t1: without(s.t1, id),
            t2: without(s.t2, id),
            entries: s.entries.remove(id),
            location: s.location.remove(id),
            ..s
        }
    } else {
        s
    }
}

/// An id listed in one list is absent from another.
proof fn lemma_not_listed(s: CarState, id: ObjectId, l: ListType, q: Seq<ObjectId>)
    requires
        lists_exactly(q, at(s.location, l)),
        !car_in(s, id, l),
    ensures
        !q.contains(id),
        without(q, id) == q,
{
    if q.contains(id) {
        let i = choose|i: int| 0 <= i < q.len() && q[i] == id;
        assert(at(s.location, l).contains(q[i]));
    }
}

/// Replacing entries without changing their sizes keeps the bytes of a list.
proof fn lemma_same_sizes(q: Seq<ObjectId>, e1: Map<ObjectId, CarEntry>, e2: Map<ObjectId, CarEntry>)
    requires
        forall|i: int| 0 <= i < q.len() ==> e1.contains_key(#[trigger] q[i]) && e2.contains_key(q[i]) && e1[q[i]].obj_size == e2[q[i]].obj_size,
    ensures
        sum_over(q, table_weight(e1, car_entry_bytes())) == sum_over(q, table_weight(e2, car_entry_bytes())),
{
    assert forall|j: int| 0 <= j < q.len() implies table_weight(e1, car_entry_bytes())(#[trigger] q[j]) == table_weight(e2, car_entry_bytes())(q[j]) by {}
    lemma_sum_same_weights(q, table_weight(e1, car_entry_bytes()), table_weight(e2, car_entry_bytes()));
}

/// Making room keeps consistency and `p`, never adds entries or locations, keeps
/// the location of every ghost it does not forget, and leaves room for `size` bytes.
/// Room can always be made for an object that fits: each `replace` evicts one
/// cached object while any is left, and with none left no bytes are held.
pub proof fn lemma_car_make_room_some(s: CarState, cap: nat, size: nat, in_b2: bool)
    requires
        car_consistent(s),
        size <= cap,
    ensures
        car_make_room(s, cap, size, in_b2) is Some,
    decreases s.t1.len() + s.t2.len(),
{
    if car_bytes(s) + size > cap {
        if s.t1.len() + s.t2.len() == 0 {
            assert(s.t1 =~= Seq::<ObjectId>::empty());
            assert(s.t2 =~= Seq::<ObjectId>::empty());
            assert(car_bytes(s) == 0);
        } else {
            lemma_car_replace(s, cap, in_b2);
            let next = car_replace(s, cap, in_b2);
            lemma_car_make_room_some(next, cap, size, in_b2);
        }
    }
}

pub proof fn lemma_car_make_room(s: CarState, cap: nat, size: nat, in_b2: bool)
    requires
        car_consistent(s),
        car_make_room(s, cap, size, in_b2) is Some,
    ensures
        ({
            let r = car_make_room(s, cap, size, in_b2).unwrap().0;
            &&& car_consistent(r)
            &&& r.p == s.p
            &&& car_bytes(r) + size <= cap
            &&& forall|k: ObjectId| #[trigger] r.entries.contains_key(k) ==> s.entries.contains_key(k)
            &&& forall|k: ObjectId| #[trigger] r.location.contains_key(k) ==> s.location.contains_key(k)
            &&& forall|k: ObjectId| #[trigger] r.location.contains_key(k) && (s.location[k] == ListType::B1 || s.location[k] == ListType::B2) ==> r.location[k] == s.location[k]
        }),
    decreases s.t1.len() + s.t2.len(),
{
    if car_bytes(s) + size > cap {
        let next = car_replace(s, cap, in_b2);
        lemma_car_replace(s, cap, in_b2);
        lemma_car_make_room(next, cap, size, in_b2);
    }
}

/// An entering object keeps the lists consistent and adds its bytes.
pub proof fn lemma_car_enter(s: CarState, id: ObjectId, size: ObjectSize, in_b1: bool, in_b2: bool)
    requires
        car_consistent(s),
        !s.entries.contains_key(id),
        !(in_b1 && in_b2),
        s.location.contains_key(id) ==> (s.location[id] == ListType::B1 && in_b1) || (s.location[id] == ListType::B2 && in_b2),
    ensures
        car_consistent(car_enter(s, id, size, in_b1, in_b2)),
        car_bytes(car_enter(s, id, size, in_b1, in_b2)) == car_bytes(s) + size,
        car_enter(s, id, size, in_b1, in_b2).entries.contains_key(id),
        car_enter(s, id, size, in_b1, in_b2).p == s.p,
{
    let r = car_enter(s, id, size, in_b1, in_b2);
    let dst = if in_b1 || in_b2 { ListType::T2 } else { ListType::T1 };
    lemma_at_insert(s.location, id, dst, ListType::T1);
    lemma_at_insert(s.location, id, dst, ListType::T2);
    lemma_at_insert(s.location, id, dst, ListType::B1);
    lemma_at_insert(s.location, id, dst, ListType::B2);
    assert(!at(s.location, ListType::T1).contains(id));
    assert(!at(s.location, ListType::T2).contains(id));
    if !in_b1 {
        assert(!at(s.location, ListType::B1).contains(id));
        assert(at(s.location, ListType::B1).remove(id) =~= at(s.location, ListType::B1));
    }
    if !in_b2 {
        assert(!at(s.location, ListType::B2).contains(id));
        assert(at(s.location, ListType::B2).remove(id) =~= at(s.location, ListType::B2));
    }
    assert(at(s.location, ListType::T1).remove(id) =~= at(s.location, ListType::T1));
    assert(at(s.location, ListType::T2).remove(id) =~= at(s.location, ListType::T2));
    if in_b1 {
        lemma_lists_without(s.b1, at(s.location, ListType::B1), id);
    }
    if in_b2 {
        lemma_lists_without(s.b2, at(s.location, ListType::B2), id);
    }
    if dst == ListType::T2 {
        lemma_lists_push(s.t2, at(s.location, ListType::T2), id);
    } else {
        lemma_lists_push(s.t1, at(s.location, ListType::T1), id);
    }
    let w = table_weight(s.entries, car_entry_bytes());
    let w2 = table_weight(r.entries, car_entry_bytes());
    assert forall|i: int| 0 <= i < s.t1.len() implies s.entries.contains_key(#[trigger] s.t1[i]) && r.entries.contains_key(s.t1[i]) && s.entries[s.t1[i]].obj_size == r.entries[s.t1[i]].obj_size by {
        assert(at(s.location, ListType::T1).contains(s.t1[i]));
    }
    assert forall|i: int| 0 <= i < s.t2.len() implies s.entries.contains_key(#[trigger] s.t2[i]) && r.entries.contains_key(s.t2[i]) && s.entries[s.t2[i]].obj_size == r.entries[s.t2[i]].obj_size by {
        assert(at(s.location, ListType::T2).contains(s.t2[i]));
    }
    lemma_same_sizes(s.t1, s.entries, r.entries);
    lemma_same_sizes(s.t2, s.entries, r.entries);
    if dst == ListType::T2 {
        lemma_sum_push(s.t2, id, w2);
    } else {
        lemma_sum_push(s.t1, id, w2);
    }
}

/// An access keeps the lists consistent, the bytes, the number of cached
/// entries, and `p` within `0 ..= cap`.
pub proof fn lemma_car_access(s: CarState, cap: nat, id: ObjectId)
    requires
        car_consistent(s),
        0 <= s.p <= cap,
    ensures
        car_consistent(car_access(s, cap, id)),
        car_bytes(car_access(s, cap, id)) == car_bytes(s),
        0 <= car_access(s, cap, id).p <= cap,
        car_access(s, cap, id).entries.dom() == s.entries.dom(),
{
    let r = car_access(s, cap, id);
    if s.entries.contains_key(id) {
        assert(r.entries.dom() =~= s.entries.dom());
        assert forall|i: int| 0 <= i < s.t1.len() implies s.entries.contains_key(#[trigger] s.t1[i]) && r.entries.contains_key(s.t1[i]) && s.entries[s.t1[i]].obj_size == r.entries[s.t1[i]].obj_size by {
            assert(at(s.location, ListType::T1).contains(s.t1[i]));
        }
        assert forall|i: int| 0 <= i < s.t2.len() implies s.entries.contains_key(#[trigger] s.t2[i]) && r.entries.contains_key(s.t2[i]) && s.entries[s.t2[i]].obj_size == r.entries[s.t2[i]].obj_size by {
            assert(at(s.location, ListType::T2).contains(s.t2[i]));
        }
        lemma_same_sizes(s.t1, s.entries, r.entries);
        lemma_same_sizes(s.t2, s.entries, r.entries);
        if car_in(s, id, ListType::T1) {
            let w = table_weight(r.entries, car_entry_bytes());
            assert(at(s.location, ListType::T1).contains(id));
            assert(!at(s.location, ListType::T2).contains(id));
            lemma_at_insert(s.location, id, ListType::T2, ListType::T1);
            lemma_at_insert(s.location, id, ListType::T2, ListType::T2);
            lemma_at_insert(s.location, id, ListType::T2, ListType::B1);
            lemma_at_insert(s.location, id, ListType::T2, ListType::B2);
            assert(at(s.location, ListType::B1).remove(id) =~= at(s.location, ListType::B1));
            assert(at(s.location, ListType::B2).remove(id) =~= at(s.location, ListType::B2));
            lemma_lists_without(s.t1, at(s.location, ListType::T1), id);
            lemma_lists_push(s.t2, at(s.location, ListType::T2), id);
            lemma_sum_without(s.t1, at(s.location, ListType::T1), w, id);
            lemma_sum_push(s.t2, id, w);
        }
    }
}

/// Removing a cached entry keeps the lists consistent and takes its bytes off.
pub proof fn lemma_car_drop(s: CarState, id: ObjectId)
    requires
        car_consistent(s),
    ensures
        car_consistent(car_drop(s, id)),
        s.entries.contains_key(id) ==> car_bytes(car_drop(s, id)) + s.entries[id].obj_size == car_bytes(s),
        !car_drop(s, id).entries.contains_key(id),
{
    if s.entries.contains_key(id) {
        let r = car_drop(s, id);
        let w = table_weight(s.entries, car_entry_bytes());
        lemma_at_remove(s.location, id, ListType::T1);
        lemma_at_remove(s.location, id, ListType::T2);
        lemma_at_remove(s.location, id, ListType::B1);
        lemma_at_remove(s.location, id, ListType::B2);
        assert(!at(s.location, ListType::B1).contains(id));
        assert(!at(s.location, ListType::B2).contains(id));
        assert(at(s.location, ListType::B1).remove(id) =~= at(s.location, ListType::B1));
        assert(at(s.location, ListType::B2).remove(id) =~= at(s.location, ListType::B2));
        lemma_lists_without(s.t1, at(s.location, ListType::T1), id);
        lemma_lists_without(s.t2, at(s.location, ListType::T2), id);
        let (q, other, l, lo) = if car_in(s, id, ListType::T1) {
            (s.t1, s.t2, ListType::T1, ListType::T2)
        } else {
            (s.t2, s.t1, ListType::T2, ListType::T1)
        };
        assert(at(s.location, l).contains(id));
        lemma_not_listed(s, id, lo, other);
        lemma_sum_without(q, at(s.location, l), w, id);
        let qw = without(q, id);
        assert forall|i: int| 0 <= i < qw.len() implies s.entries.contains_key(#[trigger] qw[i]) && r.entries.contains_key(qw[i]) && s.entries[qw[i]].obj_size == r.entries[qw[i]].obj_size by {
            assert(at(s.location, l).remove(id).contains(qw[i]));
        }
        assert forall|i: int| 0 <= i < other.len() implies s.entries.contains_key(#[trigger] other[i]) && r.entries.contains_key(other[i]) && s.entries[other[i]].obj_size == r.entries[other[i]].obj_size by {
            assert(at(s.location, lo).contains(other[i]));
        }
        lemma_same_sizes(qw, s.entries, r.entries);
        lemma_same_sizes(other, s.entries, r.entries);
    }
}


impl CarCache {
    /// The lists, entries, locations and target as a value.
    pub closed spec fn state(&self) -> CarState {
        CarState {
            t1: self.t1@,
            t2: self.t2@,
            b1: self.b1@,
            b2: self.b2@,
            entries: self.entries@,
            location: self.location@,
            p: self.p as int,
        }
    }

    pub closed spec fn cap(&self) -> nat {
        self.capacity as nat
    }

    pub closed spec fn used(&self) -> nat {
        self.current_size as nat
    }

    pub closed spec fn counters(&self) -> CacheStats {
        self.stats
    }

    pub open spec fn well_formed(&self) -> bool {
        &&& car_consistent(self.state())
        &&& self.used() == car_bytes(self.state())
        &&& 0 <= self.state().p <= self.cap()
    }

    pub fn new(capacity: ObjectSize) -> (c: Self)
        ensures
            c.well_formed(),
            c.cap() == capacity,
            c.state().t1.len() == 0 && c.state().t2.len() == 0 && c.state().b1.len() == 0
                && c.state().b2.len() == 0,
            c.state().entries.is_empty(),
            c.state().location.is_empty(),
            c.state().p == 0,
            c.used() == 0,
            c.counters().is_zero(),
    {
        let c = Self {
            capacity,
            current_size: 0,
            p: 0,
            t1: VecDeque::new(),
            t2: VecDeque::new(),
            b1: VecDeque::new(),
            b2: VecDeque::new(),
            entries: HashMap::new(),
            location: HashMap::new(),
            stats: CacheStats::new(),
        };
        proof {
            assert(at(c.location@, ListType::T1) =~= Set::empty());
            assert(at(c.location@, ListType::T2) =~= Set::empty());
            assert(at(c.location@, ListType::B1) =~= Set::empty());
            assert(at(c.location@, ListType::B2) =~= Set::empty());
        }
        c
    }

    /// Forget the oldest ghosts while a ghost list and its cache list hold more than
    /// twice the capacity.
    fn maintain_ghost_lists(&mut self)
        requires
        ensures
            final(self).state() == trim_ghosts(old(self).state(), old(self).cap()),
            final(self).capacity == old(self).capacity,
            final(self).current_size == old(self).current_size,
            final(self).stats == old(self).stats,
    {
        let ghost s = self.state();
        let ghost cap = self.cap();
        let ghost k1 = ghost_excess(s.b1.len(), s.t1.len(), cap);
        let ghost k2 = ghost_excess(s.b2.len(), s.t2.len(), cap);
        let max_ghost_size = self.capacity as u128 * 2;
        let ghost l1 = s.location.remove_keys(s.b1.subrange(0, k1).to_set());
        while self.b1.len() > 0 && self.b1.len() as u128 + self.t1.len() as u128 > max_ghost_size
            invariant
                max_ghost_size == 2 * cap,
                cap == self.capacity,
                0 <= k1 <= s.b1.len(),
                k1 == ghost_excess(s.b1.len(), s.t1.len(), cap),
                l1 == s.location.remove_keys(s.b1.subrange(0, k1).to_set()),
                self.b1@.len() > 0 && self.b1@.len() + s.t1.len() > 2 * cap ==> s.b1.len() - self.b1@.len() < k1,
                s.b1.len() - self.b1@.len() <= k1,
                self.b1@.len() <= s.b1.len(),
                s.b1.len() - self.b1@.len() < k1 ==> self.b1@.len() > 0 && self.b1@.len() + s.t1.len() > 2 * cap,
                self.b1@ == s.b1.subrange(s.b1.len() - self.b1@.len(), s.b1.len() as int),
                self.location@ == s.location.remove_keys(s.b1.subrange(0, s.b1.len() - self.b1@.len()).to_set()),
                self.t1@ == s.t1,
                self.t2@ == s.t2,
                self.b2@ == s.b2,
                self.entries@ == s.entries,
                self.p == old(self).p,
                self.capacity == old(self).capacity,
                self.current_size == old(self).current_size,
                self.stats == old(self).stats,
                s == old(self).state(),
            ensures
                self.b1@ == s.b1.subrange(k1, s.b1.len() as int),
                self.location@ == l1,
            decreases self.b1@.len(),
        {
            let ghost b = self.b1@;
            let ghost i = s.b1.len() - b.len();
            if let Some(old_id) = self.b1.pop_front() {
                self.location.remove(&old_id);
                proof {
                    assert(self.b1@ =~= s.b1.subrange(i + 1, s.b1.len() as int));
                    assert(s.b1.subrange(0, i + 1).to_set() =~= s.b1.subrange(0, i).to_set().insert(old_id)) by {
                        assert(s.b1.subrange(0, i + 1) =~= s.b1.subrange(0, i).push(old_id));
                        broadcast use vstd::seq_lib::group_seq_properties;
                    }
                    assert(self.location@ =~= s.location.remove_keys(s.b1.subrange(0, i + 1).to_set()));
                }
            }
        }
        let ghost l2 = l1.remove_keys(s.b2.subrange(0, k2).to_set());
        while self.b2.len() > 0 && self.b2.len() as u128 + self.t2.len() as u128 > max_ghost_size
            invariant
                max_ghost_size == 2 * cap,
                cap == self.capacity,
                0 <= k2 <= s.b2.len(),
                k2 == ghost_excess(s.b2.len(), s.t2.len(), cap),
                l2 == l1.remove_keys(s.b2.subrange(0, k2).to_set()),
                0 <= k1 <= s.b1.len(),
                self.b2@.len() > 0 && self.b2@.len() + s.t2.len() > 2 * cap ==> s.b2.len() - self.b2@.len() < k2,
                s.b2.len() - self.b2@.len() <= k2,
                self.b2@.len() <= s.b2.len(),
                s.b2.len() - self.b2@.len() < k2 ==> self.b2@.len() > 0 && self.b2@.len() + s.t2.len() > 2 * cap,
                self.b2@ == s.b2.subrange(s.b2.len() - self.b2@.len(), s.b2.len() as int),
                self.location@ == l1.remove_keys(s.b2.subrange(0, s.b2.len() - self.b2@.len()).to_set()),
                self.b1@ == s.b1.subrange(k1, s.b1.len() as int),
                self.t1@ == s.t1,
                self.t2@ == s.t2,
                self.entries@ == s.entries,
                self.p == old(self).p,
                self.capacity == old(self).capacity,
                self.current_size == old(self).current_size,
                self.stats == old(self).stats,
                s == old(self).state(),
            ensures
                self.b2@ == s.b2.subrange(k2, s.b2.len() as int),
                self.location@ == l2,
            decreases self.b2@.len(),
        {
            let ghost b = self.b2@;
            let ghost i = s.b2.len() - b.len();
            if let Some(old_id) = self.b2.pop_front() {
                self.location.remove(&old_id);
                proof {
                    assert(self.b2@ =~= s.b2.subrange(i + 1, s.b2.len() as int));
                    assert(s.b2.subrange(0, i + 1).to_set() =~= s.b2.subrange(0, i).to_set().insert(old_id)) by {
                        assert(s.b2.subrange(0, i + 1) =~= s.b2.subrange(0, i).push(old_id));
                        broadcast use vstd::seq_lib::group_seq_properties;
                    }
                    assert(self.location@ =~= l1.remove_keys(s.b2.subrange(0, i + 1).to_set()));
                }
            }
        }
        proof {
            assert(self.state() =~= trim_ghosts(s, cap));
        }
    }

    /// One eviction by CLOCK from T1 (or T2) into its ghost list, then ghost trimming.
    fn replace(&mut self, in_b2: bool)
        requires
            old(self).well_formed(),
        ensures
            final(self).well_formed(),
            final(self).state() == car_replace(old(self).state(), old(self).cap(), in_b2),
            final(self).cap() == old(self).cap(),
            car_from_t1(old(self).state(), in_b2) || old(self).state().t2.len() > 0
                ==> old(self).counters().advanced(final(self).counters(), 0, 0, 0, 1, 0),
            !(car_from_t1(old(self).state(), in_b2) || old(self).state().t2.len() > 0)
                ==> final(self).counters() == old(self).counters(),
    {
        let ghost s = self.state();
        let ghost cap = self.cap();
        proof {
            lemma_car_replace(s, cap, in_b2);
        }
        let t1_len = self.t1.len();
        if t1_len > 0 && (t1_len > self.p as usize || in_b2 || self.t2.len() == 0) {
            // Evict from T1 using CLOCK
            proof {
                assert forall|i: int| 0 <= i < s.t1.len() implies s.entries.contains_key(#[trigger] s.t1[i]) by {
                    assert(at(s.location, ListType::T1).contains(s.t1[i]));
                }
                lemma_clock_pass(s.t1, s.entries, at(s.location, ListType::T1));
            }
            if let Some(victim_id) = clock_evict(&mut self.t1, &mut self.entries) {
                if let Some(entry) = self.entries.remove(&victim_id) {
                    self.current_size -= entry.obj_size;
                    self.b1.push_back(victim_id);
                    self.location.insert(victim_id, ListType::B1);
                    self.stats.inc_evict();
                }
            }
            proof {
                let (v, rest, e) = clock_pass(s.t1, s.entries);
                assert(self.state() =~= CarState {
                    t1: rest,
                    entries: e.remove(v),
                    b1: s.b1.push(v),
                    location: s.location.insert(v, ListType::B1),
                    ..s
                });
            }
        } else {
            // Evict from T2 using CLOCK
            proof {
                assert forall|i: int| 0 <= i < s.t2.len() implies s.entries.contains_key(#[trigger] s.t2[i]) by {
                    assert(at(s.location, ListType::T2).contains(s.t2[i]));
                }
                if s.t2.len() > 0 {
                    lemma_clock_pass(s.t2, s.entries, at(s.location, ListType::T2));
                }
            }
            if let Some(victim_id) = clock_evict(&mut self.t2, &mut self.entries) {
                if let Some(entry) = self.entries.remove(&victim_id) {
                    self.current_size -= entry.obj_size;
                    self.b2.push_back(victim_id);
                    self.location.insert(victim_id, ListType::B2);
                    self.stats.inc_evict();
                }
            }
            proof {
                if s.t2.len() > 0 {
                    let (v, rest, e) = clock_pass(s.t2, s.entries);
                    assert(self.state() =~= CarState {
                        t2: rest,
                        entries: e.remove(v),
                        b2: s.b2.push(v),
                        location: s.location.insert(v, ListType::B2),
                        ..s
                    });
                } else {
                    assert(self.state() =~= s);
                }
            }
        }
        self.maintain_ghost_lists();
    }

    /// Move `p` after a ghost hit: up on B1, down on B2.
    fn adapt(&mut self, in_b1: bool, in_b2: bool)
        requires
            old(self).well_formed(),
        ensures
            final(self).well_formed(),
            final(self).state() == (CarState { p: car_adapted_p(old(self).state(), old(self).cap(), in_b1, in_b2), ..old(self).state() }),
            final(self).cap() == old(self).cap(),
            final(self).counters() == old(self).counters(),
    {
        let b1_len = self.b1.len();
        let b2_len = self.b2.len();
        let delta: usize = if b1_len >= b2_len {
            1
        } else {
            b2_len / (if b1_len >= 1 { b1_len } else { 1 })
        };
        if in_b1 {
            let grown = self.p as u128 + delta as u128;
            self.p = if grown <= self.capacity as u128 { grown as ObjectSize } else { self.capacity };
        } else if in_b2 {
            self.p = if self.p as u128 >= delta as u128 { self.p - delta as ObjectSize } else { 0 };
        }
        proof {
            assert(self.state() =~= (CarState { p: car_adapted_p(old(self).state(), old(self).cap(), in_b1, in_b2), ..old(self).state() }));
        }
    }

    /// Look `req` up: a hit sets the entry's reference bit and promotes it from T1
    /// to T2; a miss on a ghost adapts the target size of T1.
    pub fn get(&mut self, req: &Request) -> (r: Result<CacheResult, CacheError>)
        requires
            old(self).well_formed(),
        ensures
            final(self).well_formed(),
            final(self).cap() == old(self).cap(),
            final(self).state() == car_access(old(self).state(), old(self).cap(), req.obj_id),
            r == Ok::<CacheResult, CacheError>(car_lookup(old(self).state(), req.obj_id)),
            old(self).state().entries.contains_key(req.obj_id) ==> old(self).counters().advanced(final(self).counters(), 1, 1, 0, 0, 0),
            !old(self).state().entries.contains_key(req.obj_id) ==> old(self).counters().advanced(final(self).counters(), 1, 0, 1, 0, 0),
    {
        let ghost s = self.state();
        let ghost s0 = self.stats;
        proof {
            lemma_car_access(s, self.cap(), req.obj_id);
        }
        self.stats.inc_req();
        let ghost s1 = self.stats;
        let found = match self.entries.get(&req.obj_id) {
            Some(e) => Some(*e),
            None => None,
        };
        match found {
            Some(e) => {
                // Set reference bit on hit
                self.entries.insert(req.obj_id, CarEntry { reference_bit: true, ..e });
                self.stats.inc_hit();
                // Promote from T1 to T2 if in T1
                let in_t1 = match self.location.get(&req.obj_id) {
                    Some(l) => *l == ListType::T1,
                    None => false,
                };
                if in_t1 {
                    remove_id(&mut self.t1, req.obj_id);
                    self.t2.push_back(req.obj_id);
                    self.location.insert(req.obj_id, ListType::T2);
                }
                proof {
                    lemma_advanced_trans(s0, s1, self.stats, 1, 0, 0, 0, 0, 0, 1, 0, 0, 0);
                    assert(self.state() =~= car_access(s, self.cap(), req.obj_id));
                }
                Ok(CacheResult::Hit { obj_size: e.obj_size })
            },
            None => {
                self.stats.inc_miss();
                let (in_b1, in_b2) = match self.location.get(&req.obj_id) {
                    Some(l) => (*l == ListType::B1, *l == ListType::B2),
                    None => (false, false),
                };
                if in_b1 || in_b2 {
                    self.adapt(in_b1, in_b2);
                }
                proof {
                    lemma_advanced_trans(s0, s1, self.stats, 1, 0, 0, 0, 0, 0, 0, 1, 0, 0);
                    assert(self.state() =~= car_access(s, self.cap(), req.obj_id));
                }
                Ok(CacheResult::Miss)
            },
        }
    }

    /// Insert `req`: an object larger than the capacity is refused; any other enters
    /// T1 (or T2, when it was a ghost) after `replace` has made room for it.
    pub fn insert(&mut self, req: &Request) -> (r: Result<InsertResult, CacheError>)
        requires
            old(self).well_formed(),
        ensures
            final(self).well_formed(),
            final(self).cap() == old(self).cap(),
            req.obj_size > old(self).cap() ==> {
                &&& r == Err::<InsertResult, CacheError>(CacheError::ObjectTooLarge { size: req.obj_size as u64, capacity: old(self).cap() as u64 })
                &&& final(self).state() == old(self).state()
                &&& final(self).counters() == old(self).counters()
            },
            req.obj_size <= old(self).cap() && old(self).state().entries.contains_key(req.obj_id) ==> {
                &&& r == Ok::<InsertResult, CacheError>(InsertResult::Inserted)
                &&& final(self).state() == old(self).state()
                &&& final(self).counters() == old(self).counters()
            },
            req.obj_size <= old(self).cap() && !old(self).state().entries.contains_key(req.obj_id) ==> {
                &&& car_insert(old(self).state(), old(self).cap(), req.obj_id, req.obj_size) is Some
                &&& {
                let (t, k) = car_insert(old(self).state(), old(self).cap(), req.obj_id, req.obj_size).unwrap();
                &&& r == Ok::<InsertResult, CacheError>(InsertResult::Inserted)
                &&& final(self).state() == t
                &&& old(self).counters().advanced(final(self).counters(), 0, 0, 0, k, 0)
                }
            },
    {
        if req.obj_size > self.capacity {
            return Err(CacheError::ObjectTooLarge {
                size: req.obj_size as u64,
                capacity: self.capacity as u64,
            });
        }
        // Already cached: nothing to do
        if self.entries.contains_key(&req.obj_id) {
            return Ok(InsertResult::Inserted);
        }
        let ghost s = self.state();
        let ghost cap = self.cap();
        let ghost s0 = self.stats;
        let loc = match self.location.get(&req.obj_id) {
            Some(l) => Some(*l),
            None => None,
        };
        let in_b1 = match loc {
            Some(l) => l == ListType::B1,
            None => false,
        };
        let in_b2 = match loc {
            Some(l) => l == ListType::B2,
            None => false,
        };
        let ghost target = car_make_room(s, cap, req.obj_size as nat, in_b2).unwrap();
        let ghost mut done: nat = 0;
        proof {
            lemma_car_make_room_some(s, cap, req.obj_size as nat, in_b2);
            lemma_car_make_room(s, cap, req.obj_size as nat, in_b2);
            lemma_advanced_refl(s0);
        }
        while self.current_size as u64 + req.obj_size as u64 > self.capacity as u64
            invariant
                self.well_formed(),
                self.capacity == old(self).capacity,
                cap == self.cap(),
                car_make_room(self.state(), cap, req.obj_size as nat, in_b2) is Some,
                car_make_room(self.state(), cap, req.obj_size as nat, in_b2).unwrap().0 == target.0,
                car_make_room(self.state(), cap, req.obj_size as nat, in_b2).unwrap().1 + done == target.1,
                s0.advanced(self.stats, 0, 0, 0, done, 0),
            decreases self.t1@.len() + self.t2@.len(),
        {
            let ghost cur = self.state();
            let ghost sc = self.stats;
            proof {
                lemma_car_replace(cur, cap, in_b2);
            }
            self.replace(in_b2);
            proof {
                lemma_advanced_trans(s0, sc, self.stats, 0, 0, 0, done, 0, 0, 0, 0, 1, 0);
                done = done + 1;
            }
        }
        proof {
            assert(self.state() == target.0);
            assert(done == target.1);
            lemma_car_enter(target.0, req.obj_id, req.obj_size, in_b1, in_b2);
            assert(!at(s.location, ListType::T1).contains(req.obj_id));
            assert(!at(s.location, ListType::T2).contains(req.obj_id));
        }
        let entry = CarEntry { obj_id: req.obj_id, obj_size: req.obj_size, reference_bit: true };
        if in_b1 {
            remove_id(&mut self.b1, req.obj_id);
            self.t2.push_back(req.obj_id);
            self.location.insert(req.obj_id, ListType::T2);
        } else if in_b2 {
            remove_id(&mut self.b2, req.obj_id);
            self.t2.push_back(req.obj_id);
            self.location.insert(req.obj_id, ListType::T2);
        } else {
            self.t1.push_back(req.obj_id);
            self.location.insert(req.obj_id, ListType::T1);
        }
        self.entries.insert(req.obj_id, entry);
        self.current_size += req.obj_size;
        proof {
            assert(self.state() =~= car_enter(target.0, req.obj_id, req.obj_size, in_b1, in_b2));
        }
        Ok(InsertResult::Inserted)
    }

    /// Remove a cached object; says whether it was cached.
    pub fn remove(&mut self, obj_id: ObjectId) -> (r: Result<bool, CacheError>)
        requires
            old(self).well_formed(),
        ensures
            final(self).well_formed(),
            final(self).cap() == old(self).cap(),
            final(self).counters() == old(self).counters(),
            final(self).state() == car_drop(old(self).state(), obj_id),
            r == Ok::<bool, CacheError>(old(self).state().entries.contains_key(obj_id)),
    {
        let ghost s = self.state();
        proof {
            lemma_car_drop(s, obj_id);
        }
        if let Some(entry) = self.entries.remove(&obj_id) {
            self.current_size -= entry.obj_size;
            remove_id(&mut self.t1, obj_id);
            remove_id(&mut self.t2, obj_id);
            self.location.remove(&obj_id);
            proof {
                assert(self.state() =~= car_drop(s, obj_id));
            }
            Ok(true)
        } else {
            proof {
                assert(self.entries@ =~= s.entries);
                assert(self.state() =~= s);
            }
            Ok(false)
        }
    }

    /// Empty every list, forget every entry, and reset `p` and the counters.
    pub fn clear(&mut self)
        requires
            old(self).well_formed(),
        ensures
            final(self).well_formed(),
            final(self).cap() == old(self).cap(),
            final(self).state().t1.len() == 0 && final(self).state().t2.len() == 0
                && final(self).state().b1.len() == 0 && final(self).state().b2.len() == 0,
            final(self).state().entries.is_empty(),
            final(self).state().location.is_empty(),
            final(self).state().p == 0,
            final(self).counters().is_zero(),
    {
        self.t1.clear();
        self.t2.clear();
        self.b1.clear();
        self.b2.clear();
        self.entries.clear();
        self.location.clear();
        self.current_size = 0;
        self.p = 0;
        self.stats.reset();
        proof {
            assert(at(self.location@, ListType::T1) =~= Set::empty());
            assert(at(self.location@, ListType::T2) =~= Set::empty());
            assert(at(self.location@, ListType::B1) =~= Set::empty());
            assert(at(self.location@, ListType::B2) =~= Set::empty());
        }
    }

    pub fn capacity(&self) -> (r: ObjectSize)
        ensures
            r == self.cap(),
    {
        self.capacity
    }

    pub fn size(&self) -> (r: ObjectSize)
        ensures
            r == self.used(),
    {
        self.current_size
    }

    pub fn len(&self) -> (r: usize)
        ensures
            r == self.state().entries.len(),
    {
        self.entries.len()
    }

    pub fn is_empty(&self) -> (r: bool)
        ensures
            r == self.state().entries.is_empty(),
    {
        self.entries.is_empty()
    }

    pub fn stats(&self) -> (r: &CacheStats)
        ensures
            *r == self.counters(),
    {
        &self.stats
    }
}

} // verus!
