//! Request, hit, miss, eviction and insertion counters.
use vstd::prelude::*;

verus! {

/// Cache statistics tracking performance metrics
#[derive(Debug, Clone, Copy)]
pub struct CacheStats {
    n_req: u64,
    n_hit: u64,
    n_miss: u64,
    n_evict: u64,
    n_insert: u64,
}

impl Default for CacheStats {
    fn default() -> (s: Self)
        ensures
            s.is_zero(),
    {
        Self::new()
    }
}

impl CacheStats {
    pub closed spec fn req(&self) -> u64 {
        self.n_req
    }

    pub closed spec fn hit(&self) -> u64 {
        self.n_hit
    }

    pub closed spec fn miss(&self) -> u64 {
        self.n_miss
    }

    pub closed spec fn evict(&self) -> u64 {
        self.n_evict
    }

    pub closed spec fn insert(&self) -> u64 {
        self.n_insert
    }

    /// Every counter at zero.
    pub open spec fn is_zero(&self) -> bool {
        &&& self.req() == 0
        &&& self.hit() == 0
        &&& self.miss() == 0
        &&& self.evict() == 0
        &&& self.insert() == 0
    }

    /// `other` counts the same as `self`, except for `d_req` more requests, `d_hit` more
    /// hits, and so on (each counted with wrap-around).
    pub open spec fn advanced(&self, other: CacheStats, d_req: nat, d_hit: nat, d_miss: nat, d_evict: nat, d_insert: nat) -> bool {
        &&& other.req() == (self.req() + d_req) % 0x1_0000_0000_0000_0000
        &&& other.hit() == (self.hit() + d_hit) % 0x1_0000_0000_0000_0000
        &&& other.miss() == (self.miss() + d_miss) % 0x1_0000_0000_0000_0000
        &&& other.evict() == (self.evict() + d_evict) % 0x1_0000_0000_0000_0000
        &&& other.insert() == (self.insert() + d_insert) % 0x1_0000_0000_0000_0000
    }

    /// Create a new statistics tracker
    pub fn new() -> (s: Self)
        ensures
            s.is_zero(),
    {
        CacheStats { n_req: 0, n_hit: 0, n_miss: 0, n_evict: 0, n_insert: 0 }
    }

    /// Get the total number of requests
    pub fn n_req(&self) -> (r: u64)
        ensures
            r == self.req(),
    {
        self.n_req
    }

    /// Get the number of cache hits
    pub fn n_hit(&self) -> (r: u64)
        ensures
            r == self.hit(),
    {
        self.n_hit
    }

    /// Get the number of cache misses
    pub fn n_miss(&self) -> (r: u64)
        ensures
            r == self.miss(),
    {
        self.n_miss
    }

    /// Get the number of evictions
    pub fn n_evict(&self) -> (r: u64)
        ensures
            r == self.evict(),
    {
        self.n_evict
    }

    /// Get the number of evictions (the count `n_evict` reports)
    pub fn evictions(&self) -> (r: u64)
        ensures
            r == self.evict(),
    {
        self.n_evict
    }

    /// Get the number of insertions
    pub fn n_insert(&self) -> (r: u64)
        ensures
            r == self.insert(),
    {
        self.n_insert
    }

    /// Increment request counter
    pub fn inc_req(&mut self)
        ensures
            old(self).advanced(*final(self), 1, 0, 0, 0, 0),
    {
        self.n_req = self.n_req.wrapping_add(1);
    }

    /// Increment hit counter
    pub fn inc_hit(&mut self)
        ensures
            old(self).advanced(*final(self), 0, 1, 0, 0, 0),
    {
        self.n_hit = self.n_hit.wrapping_add(1);
    }

    /// Increment miss counter
    pub fn inc_miss(&mut self)
        ensures
            old(self).advanced(*final(self), 0, 0, 1, 0, 0),
    {
        self.n_miss = self.n_miss.wrapping_add(1);
    }

    /// Increment eviction counter
    pub fn inc_evict(&mut self)
        ensures
            old(self).advanced(*final(self), 0, 0, 0, 1, 0),
    {
        self.n_evict = self.n_evict.wrapping_add(1);
    }

    /// Increment insertion counter
    pub fn inc_insert(&mut self)
        ensures
            old(self).advanced(*final(self), 0, 0, 0, 0, 1),
    {
        self.n_insert = self.n_insert.wrapping_add(1);
    }

    /// Reset all statistics
    pub fn reset(&mut self)
        ensures
            final(self).is_zero(),
    {
        self.n_req = 0;
        self.n_hit = 0;
        self.n_miss = 0;
        self.n_evict = 0;
        self.n_insert = 0;
    }
}

/// Counting is additive: advancing by one set of amounts and then by another is
/// advancing by their sums.
pub proof fn lemma_advanced_trans(
    a: CacheStats,
    b: CacheStats,
    c: CacheStats,
    r1: nat, h1: nat, m1: nat, e1: nat, i1: nat,
    r2: nat, h2: nat, m2: nat, e2: nat, i2: nat,
)
    requires
        a.advanced(b, r1, h1, m1, e1, i1),
        b.advanced(c, r2, h2, m2, e2, i2),
    ensures
        a.advanced(c, r1 + r2, h1 + h2, m1 + m2, e1 + e2, i1 + i2),
{
    let m: int = 0x1_0000_0000_0000_0000;
    assert(((a.req() + r1) % m + r2) % m == (a.req() + r1 + r2) % m) by {
        vstd::arithmetic::div_mod::lemma_add_mod_noop(a.req() + r1, r2 as int, m);
        vstd::arithmetic::div_mod::lemma_mod_twice(r2 as int, m);
        vstd::arithmetic::div_mod::lemma_add_mod_noop((a.req() + r1) % m, r2 as int, m);
        vstd::arithmetic::div_mod::lemma_mod_twice(a.req() + r1, m);
    }
    assert(((a.hit() + h1) % m + h2) % m == (a.hit() + h1 + h2) % m) by {
        vstd::arithmetic::div_mod::lemma_add_mod_noop(a.hit() + h1, h2 as int, m);
        vstd::arithmetic::div_mod::lemma_mod_twice(h2 as int, m);
        vstd::arithmetic::div_mod::lemma_add_mod_noop((a.hit() + h1) % m, h2 as int, m);
        vstd::arithmetic::div_mod::lemma_mod_twice(a.hit() + h1, m);
    }
    assert(((a.miss() + m1) % m + m2) % m == (a.miss() + m1 + m2) % m) by {
        vstd::arithmetic::div_mod::lemma_add_mod_noop(a.miss() + m1, m2 as int, m);
        vstd::arithmetic::div_mod::lemma_mod_twice(m2 as int, m);
        vstd::arithmetic::div_mod::lemma_add_mod_noop((a.miss() + m1) % m, m2 as int, m);
        vstd::arithmetic::div_mod::lemma_mod_twice(a.miss() + m1, m);
    }
    assert(((a.evict() + e1) % m + e2) % m == (a.evict() + e1 + e2) % m) by {
        vstd::arithmetic::div_mod::lemma_add_mod_noop(a.evict() + e1, e2 as int, m);
        vstd::arithmetic::div_mod::lemma_mod_twice(e2 as int, m);
        vstd::arithmetic::div_mod::lemma_add_mod_noop((a.evict() + e1) % m, e2 as int, m);
        vstd::arithmetic::div_mod::lemma_mod_twice(a.evict() + e1, m);
    }
    assert(((a.insert() + i1) % m + i2) % m == (a.insert() + i1 + i2) % m) by {
        vstd::arithmetic::div_mod::lemma_add_mod_noop(a.insert() + i1, i2 as int, m);
        vstd::arithmetic::div_mod::lemma_mod_twice(i2 as int, m);
        vstd::arithmetic::div_mod::lemma_add_mod_noop((a.insert() + i1) % m, i2 as int, m);
        vstd::arithmetic::div_mod::lemma_mod_twice(a.insert() + i1, m);
    }
}

/// Advancing by nothing leaves the counters as they are.
pub proof fn lemma_advanced_refl(a: CacheStats)
    ensures
        a.advanced(a, 0, 0, 0, 0, 0),
{
    let m: int = 0x1_0000_0000_0000_0000;
    vstd::arithmetic::div_mod::lemma_small_mod(a.req() as nat, m as nat);
    vstd::arithmetic::div_mod::lemma_small_mod(a.hit() as nat, m as nat);
    vstd::arithmetic::div_mod::lemma_small_mod(a.miss() as nat, m as nat);
    vstd::arithmetic::div_mod::lemma_small_mod(a.evict() as nat, m as nat);
    vstd::arithmetic::div_mod::lemma_small_mod(a.insert() as nat, m as nat);
}

/// `after` counts one request more than `before`, and one hit more if `hit`, else
/// one miss more (with wrap-around); the other counters are left to the cache.
pub open spec fn counted_lookup(before: CacheStats, after: CacheStats, hit: bool) -> bool {
    &&& after.req() == (before.req() + 1) % 0x1_0000_0000_0000_0000
    &&& after.hit() == (before.hit() + if hit { 1int } else { 0int }) % 0x1_0000_0000_0000_0000
    &&& after.miss() == (before.miss() + if hit { 0int } else { 1int }) % 0x1_0000_0000_0000_0000
}

/// Requests are hits plus misses: a lookup that counts one request together with
/// exactly one hit or one miss keeps that balance (all counted with wrap-around).
pub proof fn law_lookup_keeps_balance(before: CacheStats, after: CacheStats, hit: bool)
    requires
        before.req() as int == (before.hit() + before.miss()) % 0x1_0000_0000_0000_0000,
        counted_lookup(before, after, hit),
    ensures
        after.req() as int == (after.hit() + after.miss()) % 0x1_0000_0000_0000_0000,
{
    let m: int = 0x1_0000_0000_0000_0000;
    let t: int = before.hit() + before.miss();
    let h: int = if hit { 1 } else { 0 };
    assert((t % m + 1) % m == (t + 1) % m) by {
        vstd::arithmetic::div_mod::lemma_add_mod_noop(t, 1, m);
        vstd::arithmetic::div_mod::lemma_mod_twice(t, m);
    }
    assert(((before.hit() + h) % m + (before.miss() + (1 - h)) % m) % m == (t + 1) % m) by {
        vstd::arithmetic::div_mod::lemma_add_mod_noop(before.hit() + h, before.miss() + (1 - h), m);
    }
}

} // verus!
