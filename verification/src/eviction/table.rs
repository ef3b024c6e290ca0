//! The object table the Clock, LFU, LFUDA, MRU, Random and SLRU caches keep: a
//! `hashbrown::HashMap` from object id to a slot of three numbers (the object's
//! size and two counters whose meaning each cache gives).
use vstd::prelude::*;

verus! {

/// A table from object id to (size, counter, counter), held in a
/// `hashbrown::HashMap`.
#[verifier::external_body]
pub struct ObjectTable {
    map: hashbrown::HashMap<u64, (u32, u64, u64)>,
}

/// What the table holds.
pub uninterp spec fn table_contents(t: ObjectTable) -> Map<u64, (u32, u64, u64)>;

/// `r` lists each entry of `m` exactly once, in some order.
pub open spec fn lists_entries(r: Seq<(u64, (u32, u64, u64))>, m: Map<u64, (u32, u64, u64)>) -> bool {
    &&& forall|i: int| 0 <= i < r.len() ==> #[trigger] m.contains_key(r[i].0) && m[r[i].0] == r[i].1
    &&& forall|k: u64| #[trigger] m.contains_key(k) ==> exists|i: int| 0 <= i < r.len() && r[i].0 == k
    &&& forall|i: int, j: int| 0 <= i < j < r.len() ==> #[trigger] r[i].0 != #[trigger] r[j].0
}

impl ObjectTable {
    /// `hashbrown::HashMap::new`: an empty table.
    #[verifier::external_body]
    pub fn new() -> (table: Self)
        ensures
            table_contents(table).dom() == Set::<u64>::empty(),
    {
        ObjectTable { map: hashbrown::HashMap::new() }
    }

    /// `hashbrown::HashMap::get`: the slot of `k`, if it has one.
    #[verifier::external_body]
    pub fn get(&self, k: u64) -> (r: Option<(u32, u64, u64)>)
        ensures
            r == (if table_contents(*self).contains_key(k) {
                Some(table_contents(*self)[k])
            } else {
                None
            }),
    {
        self.map.get(&k).copied()
    }

    /// `hashbrown::HashMap::contains_key`.
    #[verifier::external_body]
    pub fn contains_key(&self, k: u64) -> (r: bool)
        ensures
            r == table_contents(*self).contains_key(k),
    {
        self.map.contains_key(&k)
    }

    /// `hashbrown::HashMap::insert`: sets the slot of `k`, and gives the slot it
    /// replaced.
    #[verifier::external_body]
    pub fn insert(&mut self, k: u64, v: (u32, u64, u64)) -> (r: Option<(u32, u64, u64)>)
        ensures
            table_contents(*final(self)) == table_contents(*old(self)).insert(k, v),
            r == (if table_contents(*old(self)).contains_key(k) {
                Some(table_contents(*old(self))[k])
            } else {
                None
            }),
    {
        self.map.insert(k, v)
    }

    /// `hashbrown::HashMap::remove`: drops the slot of `k`, and gives it.
    #[verifier::external_body]
    pub fn remove(&mut self, k: u64) -> (r: Option<(u32, u64, u64)>)
        ensures
            table_contents(*final(self)) == table_contents(*old(self)).remove(k),
            r == (if table_contents(*old(self)).contains_key(k) {
                Some(table_contents(*old(self))[k])
            } else {
                None
            }),
    {
        self.map.remove(&k)
    }

    /// `hashbrown::HashMap::len`: the number of slots.
    #[verifier::external_body]
    pub fn len(&self) -> (r: usize)
        ensures
            r == table_contents(*self).len(),
    {
        self.map.len()
    }

    /// `hashbrown::HashMap::is_empty`.
    #[verifier::external_body]
    pub fn is_empty(&self) -> (r: bool)
        ensures
            r == table_contents(*self).dom().is_empty(),
    {
        self.map.is_empty()
    }

    /// `hashbrown::HashMap::iter`, collected: every entry once, in the map's own
    /// order (which is left unsaid).
    #[verifier::external_body]
    pub fn entries(&self) -> (r: Vec<(u64, (u32, u64, u64))>)
        ensures
            lists_entries(r@, table_contents(*self)),
    {
        self.map.iter().map(|(k, v)| (*k, *v)).collect()
    }
}

/// `hashbrown::HashMap::clear`: drops every slot of `table`.
#[verifier::external_body]
pub fn clear_table(table: &mut ObjectTable)
    ensures
        table_contents(*final(table)).dom() == Set::<u64>::empty(),
{
    table.map.clear()
}

} // verus!
