//! The second-chance sweep shared by the Clock-style caches.
//!
//! The ids sit on a ring in the order of a queue.  A hand starts at a slot
//! and walks forward: an entry whose mark is set has the mark cleared and is
//! passed over; the first entry whose mark is clear is the victim.  If every
//! mark was set, the hand comes back to where it started, whose mark it has
//! cleared by then, and takes that entry.
use vstd::prelude::*;

verus! {

/// Slot reached `d` steps after slot `h` on a ring of `n` slots (`0 <= h < n`, `0 <= d <= n`).
pub open spec fn ring_pos(h: int, d: int, n: int) -> int {
    if h + d < n {
        h + d
    } else {
        h + d - n
    }
}

/// Steps from slot `h` forward to slot `i` on a ring of `n` slots.
pub open spec fn ring_dist(h: int, i: int, n: int) -> int {
    if i >= h {
        i - h
    } else {
        i + n - h
    }
}

/// The slot a sweep starts from: the hand, or slot 0 when the hand is past the end.
pub open spec fn sweep_start(hand: int, n: int) -> int {
    if hand >= n {
        0
    } else {
        hand
    }
}

/// Steps a sweep from slot `h` takes, counting from step `d`, before it meets an
/// entry whose mark is clear; the ring's length if every mark from there on is set.
pub open spec fn steps_to_unmarked(order: Seq<u64>, marked: spec_fn(u64) -> bool, h: int, d: int) -> int
    decreases order.len() - d,
{
    if d >= order.len() {
        order.len() as int
    } else if !marked(order[ring_pos(h, d, order.len() as int)]) {
        d
    } else {
        steps_to_unmarked(order, marked, h, d + 1)
    }
}

/// The table after a sweep from `h` has cleared the entries of its first `m` steps.
pub open spec fn swept<V>(
    table: Map<u64, V>,
    order: Seq<u64>,
    h: int,
    m: int,
    clear: spec_fn(V) -> V,
) -> Map<u64, V> {
    Map::new(
        |k: u64| table.contains_key(k),
        |k: u64|
            if ring_dist(h, order.index_of(k), order.len() as int) < m {
                clear(table[k])
            } else {
                table[k]
            },
    )
}

pub proof fn lemma_ring(h: int, d: int, n: int)
    requires
        0 <= h < n,
        0 <= d < n,
    ensures
        0 <= ring_pos(h, d, n) < n,
        ring_dist(h, ring_pos(h, d, n), n) == d,
        ring_pos(h, d + 1, n) == if ring_pos(h, d, n) + 1 == n {
            0
        } else {
            ring_pos(h, d, n) + 1
        },
{
}

pub proof fn lemma_steps_bound(order: Seq<u64>, marked: spec_fn(u64) -> bool, h: int, d: int)
    requires
        0 <= d <= order.len(),
    ensures
        d <= steps_to_unmarked(order, marked, h, d) <= order.len(),
    decreases order.len() - d,
{
    if d < order.len() && marked(order[ring_pos(h, d, order.len() as int)]) {
        lemma_steps_bound(order, marked, h, d + 1);
    }
}

/// Clearing one more entry extends the sweep by one step.
pub proof fn lemma_swept_step<V>(
    table: Map<u64, V>,
    order: Seq<u64>,
    h: int,
    s: int,
    clear: spec_fn(V) -> V,
)
    requires
        order.no_duplicates(),
        forall|i: int| 0 <= i < order.len() ==> #[trigger] table.contains_key(order[i]),
        forall|x: u64| #[trigger] table.contains_key(x) ==> order.contains(x),
        0 <= h < order.len(),
        0 <= s < order.len(),
    ensures
        ({
            let k = order[ring_pos(h, s, order.len() as int)];
            swept(table, order, h, s, clear).insert(k, clear(table[k])) == swept(
                table,
                order,
                h,
                s + 1,
                clear,
            )
        }),
{
    let n = order.len() as int;
    let p = ring_pos(h, s, n);
    let k = order[p];
    lemma_ring(h, s, n);
    assert(order.index_of(k) == p) by {
        assert(order.contains(k));
    }
    let lhs = swept(table, order, h, s, clear).insert(k, clear(table[k]));
    let rhs = swept(table, order, h, s + 1, clear);
    assert forall|x: u64| lhs.contains_key(x) implies lhs[x] == rhs[x] by {
        if x != k && table.contains_key(x) {
            assert(order.contains(x));
            let j = choose|j: int| 0 <= j < order.len() && order[j] == x;
            assert(order.index_of(x) == j) by {
                assert(order.contains(x));
            }
            assert(j != p);
            if ring_dist(h, j, n) == s {
                assert(ring_pos(h, s, n) == j);
            }
        }
    }
    assert(lhs =~= rhs);
}

pub proof fn lemma_swept_none<V>(table: Map<u64, V>, order: Seq<u64>, h: int, clear: spec_fn(V) -> V)
    requires
        0 <= h < order.len(),
        forall|k: u64| #[trigger] table.contains_key(k) ==> order.contains(k),
    ensures
        swept(table, order, h, 0, clear) == table,
{
    assert forall|k: u64| table.contains_key(k) implies ring_dist(
        h,
        order.index_of(k),
        order.len() as int,
    ) >= 0 by {
        assert(order.contains(k));
    }
    assert(swept(table, order, h, 0, clear) =~= table);
}

} // verus!
