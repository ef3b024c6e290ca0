//! Facts about queues of object ids that index a table of cached objects.
//!
//! Every cache in this crate keeps one or more queues (`VecDeque<u64>` or
//! `Vec<u64>`) of object ids beside a table keyed by id.  The helpers here
//! state when a queue lists exactly the keys of a table, and how the total
//! size of the listed objects changes when the queue changes.
use std::collections::VecDeque;
use vstd::prelude::*;

verus! {

/// Sum of `weight(id)` over the ids of `order`.
pub open spec fn sum_over(order: Seq<u64>, weight: spec_fn(u64) -> nat) -> nat
    decreases order.len(),
{
    if order.len() == 0 {
        0
    } else {
        sum_over(order.drop_last(), weight) + weight(order.last())
    }
}

/// `order` lists every key of `keys` exactly once and nothing else.
pub open spec fn lists_exactly(order: Seq<u64>, keys: Set<u64>) -> bool {
    &&& order.no_duplicates()
    &&& forall|i: int| 0 <= i < order.len() ==> #[trigger] keys.contains(order[i])
    &&& forall|k: u64| #[trigger] keys.contains(k) ==> order.contains(k)
}

pub proof fn lemma_sum_push(order: Seq<u64>, x: u64, weight: spec_fn(u64) -> nat)
    ensures
        sum_over(order.push(x), weight) == sum_over(order, weight) + weight(x),
{
    assert(order.push(x).drop_last() =~= order);
}

pub proof fn lemma_sum_remove(order: Seq<u64>, i: int, weight: spec_fn(u64) -> nat)
    requires
        0 <= i < order.len(),
    ensures
        sum_over(order, weight) == sum_over(order.remove(i), weight) + weight(order[i]),
    decreases order.len(),
{
    if i == order.len() - 1 {
        assert(order.remove(i) =~= order.drop_last());
    } else {
        let shorter = order.drop_last();
        lemma_sum_remove(shorter, i, weight);
        assert(order.remove(i).drop_last() =~= shorter.remove(i));
        assert(order.remove(i).last() == order.last());
    }
}

pub proof fn lemma_sum_same_weights(
    order: Seq<u64>,
    w1: spec_fn(u64) -> nat,
    w2: spec_fn(u64) -> nat,
)
    requires
        forall|j: int| 0 <= j < order.len() ==> w1(#[trigger] order[j]) == w2(order[j]),
    ensures
        sum_over(order, w1) == sum_over(order, w2),
    decreases order.len(),
{
    if order.len() > 0 {
        let shorter = order.drop_last();
        assert forall|j: int| 0 <= j < shorter.len() implies w1(#[trigger] shorter[j]) == w2(
            shorter[j],
        ) by {
            assert(shorter[j] == order[j]);
        }
        lemma_sum_same_weights(shorter, w1, w2);
        assert(w1(order[order.len() - 1]) == w2(order[order.len() - 1]));
    }
}

pub proof fn lemma_lists_push(order: Seq<u64>, keys: Set<u64>, x: u64)
    requires
        lists_exactly(order, keys),
        !keys.contains(x),
    ensures
        lists_exactly(order.push(x), keys.insert(x)),
{
    let o2 = order.push(x);
    assert forall|i: int, j: int|
        0 <= i < o2.len() && 0 <= j < o2.len() && i != j implies o2[i] != o2[j] by {
        if i < order.len() && j < order.len() {
            assert(o2[i] == order[i] && o2[j] == order[j]);
        } else if i < order.len() {
            assert(keys.contains(order[i]));
        } else {
            assert(keys.contains(order[j]));
        }
    }
    assert forall|k: u64| #[trigger] keys.insert(x).contains(k) implies o2.contains(k) by {
        if k == x {
            assert(o2[order.len() as int] == x);
        } else {
            assert(order.contains(k));
            let j = choose|j: int| 0 <= j < order.len() && order[j] == k;
            assert(o2[j] == k);
        }
    }
    assert forall|i: int| 0 <= i < o2.len() implies #[trigger] keys.insert(x).contains(o2[i]) by {
        if i < order.len() {
            assert(o2[i] == order[i]);
        }
    }
}

pub proof fn lemma_lists_remove(order: Seq<u64>, keys: Set<u64>, i: int)
    requires
        lists_exactly(order, keys),
        0 <= i < order.len(),
    ensures
        lists_exactly(order.remove(i), keys.remove(order[i])),
{
    let x = order[i];
    let o2 = order.remove(i);
    order.remove_ensures(i);
    assert forall|a: int, b: int|
        0 <= a < o2.len() && 0 <= b < o2.len() && a != b implies o2[a] != o2[b] by {
        let a1 = if a < i {
            a
        } else {
            a + 1
        };
        let b1 = if b < i {
            b
        } else {
            b + 1
        };
        assert(o2[a] == order[a1] && o2[b] == order[b1]);
    }
    assert forall|j: int| 0 <= j < o2.len() implies #[trigger] keys.remove(x).contains(o2[j]) by {
        let j1 = if j < i {
            j
        } else {
            j + 1
        };
        assert(o2[j] == order[j1]);
        assert(keys.contains(order[j1]));
    }
    assert forall|k: u64| #[trigger] keys.remove(x).contains(k) implies o2.contains(k) by {
        assert(order.contains(k));
        let j = choose|j: int| 0 <= j < order.len() && order[j] == k;
        assert(j != i);
        if j < i {
            assert(o2[j] == k);
        } else {
            assert(o2[j - 1] == k);
        }
    }
}

pub proof fn lemma_lists_len(order: Seq<u64>, keys: Set<u64>)
    requires
        lists_exactly(order, keys),
    ensures
        keys.len() == order.len(),
        keys.finite(),
{
    order.unique_seq_to_set();
    assert(order.to_set() =~= keys);
}

pub proof fn lemma_lists_index(order: Seq<u64>, keys: Set<u64>, k: u64) -> (i: int)
    requires
        lists_exactly(order, keys),
        keys.contains(k),
    ensures
        0 <= i < order.len(),
        order[i] == k,
{
    choose|i: int| 0 <= i < order.len() && order[i] == k
}

/// Removing the front of a queue is removing its element at index 0.
pub proof fn lemma_pop_front_is_remove(order: Seq<u64>)
    requires
        order.len() > 0,
    ensures
        order.subrange(1, order.len() as int) == order.remove(0),
{
    assert(order.subrange(1, order.len() as int) =~= order.remove(0));
}

/// Removing the back of a queue is removing its last element.
pub proof fn lemma_pop_back_is_remove(order: Seq<u64>)
    requires
        order.len() > 0,
    ensures
        order.subrange(0, order.len() - 1) == order.remove(order.len() - 1),
{
    assert(order.subrange(0, order.len() - 1) =~= order.remove(order.len() - 1));
}

/// Index of the first occurrence of `x` in `q`, if any.
pub fn position_of(q: &VecDeque<u64>, x: u64) -> (r: Option<usize>)
    ensures
        match r {
            Some(i) => i < q@.len() && q@[i as int] == x && forall|j: int|
                0 <= j < i ==> q@[j] != x,
            None => !q@.contains(x),
        },
{
    let n = q.len();
    let mut i: usize = 0;
    while i < n
        invariant
            n == q@.len(),
            i <= n,
            forall|j: int| 0 <= j < i ==> q@[j] != x,
        decreases n - i,
    {
        if q[i] == x {
            return Some(i);
        }
        i = i + 1;
    }
    None
}

/// Index of the first occurrence of `x` in `v`, if any.
pub fn position_in_vec(v: &Vec<u64>, x: u64) -> (r: Option<usize>)
    ensures
        match r {
            Some(i) => i < v@.len() && v@[i as int] == x && forall|j: int|
                0 <= j < i ==> v@[j] != x,
            None => !v@.contains(x),
        },
{
    let n = v.len();
    let mut i: usize = 0;
    while i < n
        invariant
            n == v@.len(),
            i <= n,
            forall|j: int| 0 <= j < i ==> v@[j] != x,
        decreases n - i,
    {
        if v[i] == x {
            return Some(i);
        }
        i = i + 1;
    }
    None
}

/// Weight of an id: `f` applied to its entry in `table`.
pub open spec fn table_weight<V>(table: Map<u64, V>, f: spec_fn(V) -> nat) -> spec_fn(u64) -> nat {
    |id: u64| f(table[id])
}

/// Removing the entry listed at index `i` from both a queue and its table.
pub proof fn lemma_table_remove<V>(order: Seq<u64>, table: Map<u64, V>, f: spec_fn(V) -> nat, i: int)
    requires
        lists_exactly(order, table.dom()),
        0 <= i < order.len(),
    ensures
        lists_exactly(order.remove(i), table.remove(order[i]).dom()),
        sum_over(order, table_weight(table, f)) == sum_over(
            order.remove(i),
            table_weight(table.remove(order[i]), f),
        ) + f(table[order[i]]),
{
    let x = order[i];
    lemma_lists_remove(order, table.dom(), i);
    assert(table.remove(x).dom() =~= table.dom().remove(x));
    lemma_sum_remove(order, i, table_weight(table, f));
    let o2 = order.remove(i);
    order.remove_ensures(i);
    assert forall|j: int| 0 <= j < o2.len() implies table_weight(table, f)(#[trigger] o2[j])
        == table_weight(table.remove(x), f)(o2[j]) by {
        assert(o2[j] != x);
    }
    lemma_sum_same_weights(o2, table_weight(table, f), table_weight(table.remove(x), f));
}

/// Appending a new entry to both a queue and its table.
pub proof fn lemma_table_push<V>(order: Seq<u64>, table: Map<u64, V>, f: spec_fn(V) -> nat, x: u64, v: V)
    requires
        lists_exactly(order, table.dom()),
        !table.contains_key(x),
    ensures
        lists_exactly(order.push(x), table.insert(x, v).dom()),
        sum_over(order.push(x), table_weight(table.insert(x, v), f)) == sum_over(
            order,
            table_weight(table, f),
        ) + f(v),
{
    lemma_lists_push(order, table.dom(), x);
    assert(table.insert(x, v).dom() =~= table.dom().insert(x));
    lemma_sum_push(order, x, table_weight(table.insert(x, v), f));
    assert forall|j: int| 0 <= j < order.len() implies table_weight(table, f)(#[trigger] order[j])
        == table_weight(table.insert(x, v), f)(order[j]) by {
        assert(table.contains_key(order[j]));
    }
    lemma_sum_same_weights(order, table_weight(table, f), table_weight(table.insert(x, v), f));
}

/// Replacing the entry of a listed id changes the total by the difference of weights.
pub proof fn lemma_table_update<V>(order: Seq<u64>, table: Map<u64, V>, f: spec_fn(V) -> nat, x: u64, v: V)
    requires
        lists_exactly(order, table.dom()),
        table.contains_key(x),
    ensures
        lists_exactly(order, table.insert(x, v).dom()),
        sum_over(order, table_weight(table.insert(x, v), f)) + f(table[x]) == sum_over(
            order,
            table_weight(table, f),
        ) + f(v),
{
    assert(table.insert(x, v).dom() =~= table.dom());
    let i = lemma_lists_index(order, table.dom(), x);
    lemma_table_remove(order, table, f, i);
    lemma_table_remove(order, table.insert(x, v), f, i);
    assert(table.insert(x, v).remove(x) =~= table.remove(x));
}

/// Moving the entry at index `i` to the back of the queue keeps the table and the total.
pub proof fn lemma_move_to_back<V>(order: Seq<u64>, table: Map<u64, V>, f: spec_fn(V) -> nat, i: int)
    requires
        lists_exactly(order, table.dom()),
        0 <= i < order.len(),
    ensures
        lists_exactly(order.remove(i).push(order[i]), table.dom()),
        sum_over(order.remove(i).push(order[i]), table_weight(table, f)) == sum_over(
            order,
            table_weight(table, f),
        ),
{
    let x = order[i];
    lemma_table_remove(order, table, f, i);
    lemma_table_push(order.remove(i), table.remove(x), f, x, table[x]);
    assert(table.remove(x).insert(x, table[x]) =~= table);
}

/// Number of entries a cache must drop from the front of `order`, one at a time,
/// until the weights left sum to at most `room` (or nothing is left).
pub open spec fn evictions_to_fit(order: Seq<u64>, w: spec_fn(u64) -> nat, room: int) -> nat
    decreases order.len(),
{
    if order.len() == 0 || sum_over(order, w) <= room {
        0
    } else {
        1 + evictions_to_fit(order.subrange(1, order.len() as int), w, room)
    }
}

pub proof fn lemma_evictions_bound(order: Seq<u64>, w: spec_fn(u64) -> nat, room: int)
    ensures
        evictions_to_fit(order, w, room) <= order.len(),
        room >= 0 ==> sum_over(
            order.subrange(evictions_to_fit(order, w, room) as int, order.len() as int),
            w,
        ) <= room,
    decreases order.len(),
{
    if order.len() == 0 || sum_over(order, w) <= room {
        assert(order.subrange(0, order.len() as int) =~= order);
    } else {
        let rest = order.subrange(1, order.len() as int);
        lemma_evictions_bound(rest, w, room);
        let k = evictions_to_fit(rest, w, room);
        assert(rest.subrange(k as int, rest.len() as int) =~= order.subrange(
            (k + 1) as int,
            order.len() as int,
        ));
    }
}

/// `order` with `id` taken out of its place and put at the back.
pub open spec fn moved_to_back(order: Seq<u64>, id: u64) -> Seq<u64> {
    order.remove(order.index_of(id)).push(id)
}

/// The table, as listed by its queue, is the base table restricted to the queue.
pub proof fn lemma_restrict_self<V>(order: Seq<u64>, table: Map<u64, V>)
    requires
        lists_exactly(order, table.dom()),
    ensures
        table == table.restrict(order.to_set()),
{
    assert(table =~= table.restrict(order.to_set()));
}

/// The position of a listed id is the unique index holding it.
pub proof fn lemma_index_of_unique(order: Seq<u64>, i: int)
    requires
        order.no_duplicates(),
        0 <= i < order.len(),
    ensures
        order.index_of(order[i]) == i,
{
    assert(order.contains(order[i]));
}

/// `order` without `x` (unchanged if `x` is not listed).
pub open spec fn without(order: Seq<u64>, x: u64) -> Seq<u64> {
    if order.contains(x) {
        order.remove(order.index_of(x))
    } else {
        order
    }
}

/// Take `x` out of a queue that lists it at most once.
pub fn remove_id(q: &mut VecDeque<u64>, x: u64)
    requires
        old(q)@.no_duplicates(),
    ensures
        final(q)@ == without(old(q)@, x),
{
    let ghost q0 = q@;
    if let Some(pos) = position_of(q, x) {
        proof {
            lemma_index_of_unique(q0, pos as int);
        }
        q.remove(pos);
    }
}

/// Taking a listed key out of a queue and its key set keeps the queue listing the set.
pub proof fn lemma_lists_without(order: Seq<u64>, keys: Set<u64>, x: u64)
    requires
        lists_exactly(order, keys),
    ensures
        lists_exactly(without(order, x), keys.remove(x)),
{
    if order.contains(x) {
        let i = order.index_of(x);
        lemma_lists_remove(order, keys, i);
    } else {
        assert(keys.remove(x) =~= keys);
    }
}

/// A prefix weighs at most the whole.
pub proof fn lemma_sum_prefix(order: Seq<u64>, i: int, w: spec_fn(u64) -> nat)
    requires
        0 <= i <= order.len(),
    ensures
        sum_over(order.take(i), w) <= sum_over(order, w),
        i < order.len() ==> sum_over(order.take(i + 1), w) == sum_over(order.take(i), w) + w(
            order[i],
        ),
    decreases order.len(),
{
    if i < order.len() {
        assert(order.take(i + 1).drop_last() =~= order.take(i));
        lemma_sum_prefix(order.drop_last(), i, w);
        assert(order.drop_last().take(i) =~= order.take(i));
    } else {
        assert(order.take(i) =~= order);
    }
}

/// Moving an entry to the back of a queue keeps the listed set and the total weight.
pub proof fn lemma_move_to_back_in(order: Seq<u64>, keys: Set<u64>, w: spec_fn(u64) -> nat, x: u64)
    requires
        lists_exactly(order, keys),
        keys.contains(x),
    ensures
        lists_exactly(moved_to_back(order, x), keys),
        sum_over(moved_to_back(order, x), w) == sum_over(order, w),
        moved_to_back(order, x) == without(order, x).push(x),
{
    let i = lemma_lists_index(order, keys, x);
    lemma_index_of_unique(order, i);
    lemma_lists_remove(order, keys, i);
    lemma_lists_push(order.remove(i), keys.remove(x), x);
    assert(keys.remove(x).insert(x) =~= keys);
    lemma_sum_remove(order, i, w);
    lemma_sum_push(order.remove(i), x, w);
    assert(order.contains(x));
}

/// Taking a listed entry out of a queue takes its weight off the total.
pub proof fn lemma_sum_without(order: Seq<u64>, keys: Set<u64>, w: spec_fn(u64) -> nat, x: u64)
    requires
        lists_exactly(order, keys),
        keys.contains(x),
    ensures
        sum_over(without(order, x), w) + w(x) == sum_over(order, w),
{
    let i = lemma_lists_index(order, keys, x);
    lemma_index_of_unique(order, i);
    lemma_sum_remove(order, i, w);
    assert(order.contains(x));
}

pub proof fn lemma_sum_concat(a: Seq<u64>, b: Seq<u64>, w: spec_fn(u64) -> nat)
    ensures
        sum_over(a + b, w) == sum_over(a, w) + sum_over(b, w),
    decreases b.len(),
{
    if b.len() == 0 {
        assert(a + b =~= a);
    } else {
        lemma_sum_concat(a, b.drop_last(), w);
        assert((a + b).drop_last() =~= a + b.drop_last());
    }
}

/// Swapping the two parts of a queue keeps what it lists.
pub proof fn lemma_lists_rotate(a: Seq<u64>, b: Seq<u64>, keys: Set<u64>)
    requires
        lists_exactly(a + b, keys),
    ensures
        lists_exactly(b + a, keys),
{
    let ab = a + b;
    let ba = b + a;
    assert forall|i: int| 0 <= i < ba.len() implies ab.contains(#[trigger] ba[i]) by {
        if i < b.len() {
            assert(ab[a.len() + i] == ba[i]);
        } else {
            assert(ab[i - b.len()] == ba[i]);
        }
    }
    assert forall|i: int, j: int| 0 <= i < ba.len() && 0 <= j < ba.len() && i != j implies ba[i] != ba[j] by {
        let i2 = if i < b.len() { a.len() + i } else { i - b.len() };
        let j2 = if j < b.len() { a.len() + j } else { j - b.len() };
        assert(ab[i2] == ba[i] && ab[j2] == ba[j]);
    }
    assert forall|k: u64| #[trigger] keys.contains(k) implies ba.contains(k) by {
        let i = choose|i: int| 0 <= i < ab.len() && ab[i] == k;
        if i < a.len() {
            assert(ba[b.len() + i] == k);
        } else {
            assert(ba[i - a.len()] == k);
        }
    }
    assert forall|i: int| 0 <= i < ba.len() implies #[trigger] keys.contains(ba[i]) by {
        let j = choose|j: int| 0 <= j < ab.len() && ab[j] == ba[i];
        assert(keys.contains(ab[j]));
    }
}

/// Dropping a prefix of a queue drops its ids from the listed set.
pub proof fn lemma_lists_suffix(order: Seq<u64>, keys: Set<u64>, k: int)
    requires
        lists_exactly(order, keys),
        0 <= k <= order.len(),
    ensures
        lists_exactly(order.subrange(k, order.len() as int), keys.difference(order.subrange(0, k).to_set())),
{
    let suf = order.subrange(k, order.len() as int);
    let pre = order.subrange(0, k);
    let ks = keys.difference(pre.to_set());
    assert forall|i: int| 0 <= i < suf.len() implies #[trigger] ks.contains(suf[i]) by {
        assert(suf[i] == order[k + i]);
        if pre.contains(suf[i]) {
            let j = choose|j: int| 0 <= j < pre.len() && pre[j] == suf[i];
            assert(order[j] == order[k + i]);
        }
    }
    assert forall|x: u64| #[trigger] ks.contains(x) implies suf.contains(x) by {
        let j = choose|j: int| 0 <= j < order.len() && order[j] == x;
        if j < k {
            assert(pre[j] == x);
        } else {
            assert(suf[j - k] == x);
        }
    }
    assert forall|i: int, j: int| 0 <= i < suf.len() && 0 <= j < suf.len() && i != j implies suf[i] != suf[j] by {
        assert(suf[i] == order[k + i] && suf[j] == order[k + j]);
    }
}

/// Two queues listing disjoint subsets of a finite set of at most `bound` keys
/// together hold at most `bound` ids.
pub proof fn lemma_two_lists_fit(l1: Seq<u64>, s1: Set<u64>, l2: Seq<u64>, s2: Set<u64>, all: Set<u64>, bound: nat)
    requires
        lists_exactly(l1, s1),
        lists_exactly(l2, s2),
        s1.disjoint(s2),
        s1.subset_of(all),
        s2.subset_of(all),
        all.finite(),
        all.len() <= bound,
    ensures
        l1.len() + l2.len() <= bound,
{
    lemma_lists_len(l1, s1);
    lemma_lists_len(l2, s2);
    vstd::set_lib::lemma_set_disjoint_lens(s1, s2);
    vstd::set_lib::lemma_len_subset(s1.union(s2), all);
}

} // verus!
