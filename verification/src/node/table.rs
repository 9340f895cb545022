//! The hash table of a store, kept in a `hashbrown` map.
//!
//! Keys are tuples of integers, so that equality and hashing of keys are those
//! of the standard library. What a table holds is named by a spec function;
//! the methods below say how they read and change it.

use vstd::prelude::*;

use crate::node::Node;

verus! {

/// A map from tuples of integers to nodes.
#[verifier::external_body]
pub struct NodeTable {
    map: hashbrown::HashMap<(u8, u64, u64, u64, u64), Node>,
}

/// What a [`NodeTable`] holds.
pub uninterp spec fn node_table_contents(t: NodeTable) -> Map<(u8, u64, u64, u64, u64), Node>;

impl NodeTable {
    /// An empty table, from `hashbrown::HashMap::new`: it holds nothing.
    #[verifier::external_body]
    pub fn new() -> (table: NodeTable)
        ensures
            node_table_contents(table).dom().is_empty(),
    {
        NodeTable { map: hashbrown::HashMap::new() }
    }

    /// Looks a key up with `hashbrown::HashMap::get`: the node stored under
    /// the key, if there is one.
    #[verifier::external_body]
    pub fn get(&self, key: (u8, u64, u64, u64, u64)) -> (r: Option<Node>)
        ensures
            r == (if node_table_contents(*self).dom().contains(key) {
                Some(node_table_contents(*self)[key])
            } else {
                None
            }),
    {
        self.map.get(&key).copied()
    }

    /// Stores a node under a key with `hashbrown::HashMap::insert`, which
    /// replaces whatever the key held and leaves the other keys alone.
    #[verifier::external_body]
    pub fn insert(&mut self, key: (u8, u64, u64, u64, u64), value: Node)
        ensures
            node_table_contents(*final(self)) == node_table_contents(*old(self)).insert(
                key,
                value,
            ),
    {
        self.map.insert(key, value);
    }
}

} // verus!
