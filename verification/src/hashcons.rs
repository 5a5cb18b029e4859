//! A hash-consing table from encoded e-nodes to class ids, kept in an
//! `FxHashMap` of the `rustc-hash` crate.
use vstd::prelude::*;

use rustc_hash::{FxBuildHasher, FxHashMap};

verus! {

#[verifier::external_type_specification]
#[verifier::external_body]
pub struct ExFxBuildHasher(FxBuildHasher);

/// An e-node encoded as a tuple of integers: a tag naming the node's kind
/// and operator, a constant, and up to three ids.
pub type NodeKey = (u8, i64, usize, usize, usize);

/// A hash table from encoded e-nodes to class ids.
pub struct NodeTable {
    map: FxHashMap<NodeKey, usize>,
}

/// The entries of a node table.
pub closed spec fn table_contents(t: NodeTable) -> Map<NodeKey, usize> {
    t.map@
}

impl NodeTable {
    /// An empty table.
    pub(crate) fn empty() -> (r: NodeTable)
        ensures
            forall|k: NodeKey| !(#[trigger] table_contents(r).contains_key(k)),
    {
        let map: FxHashMap<NodeKey, usize> = FxHashMap::default();
        NodeTable { map }
    }

    /// The id stored under `key`: `HashMap::get` on the `FxHashMap`, which
    /// behaves as a map because its hasher is deterministic.
    #[verifier::external_body]
    pub(crate) fn get(&self, key: NodeKey) -> (r: Option<usize>)
        ensures
            r == (if table_contents(*self).contains_key(key) {
                Some(table_contents(*self)[key])
            } else {
                None
            }),
    {
        self.map.get(&key).copied()
    }

    /// Stores `id` under `key` and returns what was stored there before:
    /// `HashMap::insert`. A hash map holds finitely many entries.
    #[verifier::external_body]
    pub(crate) fn insert(&mut self, key: NodeKey, id: usize) -> (r: Option<usize>)
        ensures
            table_contents(*final(self)) == table_contents(*old(self)).insert(key, id),
            table_contents(*final(self)).dom().finite(),
            r == (if table_contents(*old(self)).contains_key(key) {
                Some(table_contents(*old(self))[key])
            } else {
                None
            }),
    {
        self.map.insert(key, id)
    }

    /// Removes the entry under `key` and returns it: `HashMap::remove`.
    #[verifier::external_body]
    pub(crate) fn remove(&mut self, key: NodeKey) -> (r: Option<usize>)
        ensures
            table_contents(*final(self)) == table_contents(*old(self)).remove(key),
            r == (if table_contents(*old(self)).contains_key(key) {
                Some(table_contents(*old(self))[key])
            } else {
                None
            }),
    {
        self.map.remove(&key)
    }

    /// The number of entries: `HashMap::len`.
    #[verifier::external_body]
    pub(crate) fn len(&self) -> (n: usize)
        ensures
            n == table_contents(*self).len(),
    {
        self.map.len()
    }

    /// The entries, each once, in the order in which `HashMap::iter` walks
    /// them; nothing is stated of that order.
    #[verifier::external_body]
    pub(crate) fn entries(&self) -> (r: Vec<(NodeKey, usize)>)
        ensures
            r@.len() == table_contents(*self).len(),
            forall|i: int|
                0 <= i < r@.len() ==> table_contents(*self).contains_key(#[trigger] r@[i].0)
                    && table_contents(*self)[r@[i].0] == r@[i].1,
            forall|i: int, j: int|
                0 <= i < r@.len() && 0 <= j < r@.len() && i != j ==> #[trigger] r@[i].0
                    != #[trigger] r@[j].0,
            forall|k: NodeKey|
                #[trigger] table_contents(*self).contains_key(k) ==> exists|i: int|
                    0 <= i < r@.len() && #[trigger] r@[i].0 == k,
    {
        self.map.iter().map(|(k, v)| (*k, *v)).collect()
    }
}

} // verus!
