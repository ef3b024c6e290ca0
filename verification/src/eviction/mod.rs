//! Cache eviction policies over the crate-wide `Cache` interface.
use std::collections::HashSet;
use std::collections::VecDeque;
use vstd::prelude::*;

pub mod arc;
pub mod car;
pub mod clock;
pub mod fifo;
pub mod lfu;
pub mod lfuda;
pub mod lru;
pub mod mru;
pub mod random;
pub mod s3fifo;
pub mod sieve;
pub mod slru;
pub mod table;
pub mod twoq;

pub use arc::ArcCache;
pub use car::CarCache;
pub use clock::ClockCache;
pub use fifo::FifoCache;
pub use lfu::LfuCache;
pub use lfuda::LfudaCache;
pub use lru::LruCache;
pub use mru::MruCache;
pub use random::RandomCache;
pub use s3fifo::S3FifoCache;
pub use sieve::SieveCache;
pub use slru::SlruCache;
pub use twoq::TwoQCache;

verus! {

/// Weight of an object size in bytes.
pub open spec fn obj_bytes() -> spec_fn(u32) -> nat {
    |s: u32| s as nat
}

/// Admitting object `id` of `size` bytes into a queue cache of capacity `cap` that
/// evicts from the front: the entries dropped from the front until the new object
/// fits, then the new object appended at the back.  Gives the new queue, the new
/// sizes, and how many entries were dropped.
pub open spec fn admit_at_back(
    order: Seq<u64>,
    sizes: Map<u64, u32>,
    cap: nat,
    id: u64,
    size: u32,
) -> (Seq<u64>, Map<u64, u32>, nat) {
    let k = crate::ordered::evictions_to_fit(
        order,
        crate::ordered::table_weight(sizes, obj_bytes()),
        cap - size,
    );
    let kept = order.subrange(k as int, order.len() as int);
    (kept.push(id), sizes.restrict(kept.to_set()).insert(id, size), k)
}

/// The result of an insertion that dropped `k` entries from the front of `order`.
pub open spec fn insert_outcome(order: Seq<u64>, k: nat) -> crate::cache::InsertResult {
    if k == 0 {
        crate::cache::InsertResult::Inserted
    } else {
        crate::cache::InsertResult::Evicted { evicted_id: order[k - 1] }
    }
}

/// A ghost queue and its set after `id` joins the back of the queue: the oldest
/// ghost beyond `limit` is forgotten (the queue held at most `limit` before).
pub open spec fn ghost_push(q: Seq<u64>, set: Set<u64>, id: u64, limit: nat) -> (Seq<u64>, Set<u64>) {
    let q1 = q.push(id);
    let s1 = set.insert(id);
    if q1.len() > limit {
        (q1.remove(0), s1.remove(q1[0]))
    } else {
        (q1, s1)
    }
}

/// Append `id` to a ghost queue and its set, then forget the oldest ghosts while
/// the queue is longer than `limit`.
pub fn push_ghost(q: &mut VecDeque<u64>, set: &mut HashSet<u64>, id: u64, limit: usize)
    requires
        old(q)@.len() <= limit,
    ensures
        (final(q)@, final(set)@) == ghost_push(old(q)@, old(set)@, id, limit as nat),
        final(q)@.len() <= limit,
{
    broadcast use vstd::std_specs::hash::group_hash_axioms;
    q.push_back(id);
    set.insert(id);
    while q.len() > limit
        invariant
            q@.len() <= limit + 1,
            q@.len() > limit ==> q@ == old(q)@.push(id) && set@ == old(set)@.insert(id),
            q@.len() <= limit ==> (q@, set@) == ghost_push(old(q)@, old(set)@, id, limit as nat),
        decreases q@.len(),
    {
        let ghost q0 = q@;
        if let Some(old_id) = q.pop_front() {
            set.remove(&old_id);
            proof {
                assert(q@ =~= q0.remove(0));
            }
        }
    }
}

} // verus!
