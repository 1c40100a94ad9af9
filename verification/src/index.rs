//! The node index of the map: coordinate keys to nodes, backed by a
//! `hashbrown::HashMap`. The index is held behind an opaque struct; each
//! operation the library uses is a small trusted wrapper whose contract
//! states, over the index's abstract contents, what `hashbrown` documents
//! for the corresponding `HashMap` method.

use vstd::prelude::*;
use crate::node::Node;

verus! {

/// A map from coordinate keys to nodes, backed by `hashbrown::HashMap`.
#[verifier::external_body]
pub struct NodeIndex {
    inner: hashbrown::HashMap<u128, Node>,
}

/// The abstract contents of a node index.
pub uninterp spec fn entries(index: NodeIndex) -> Map<u128, Node>;

/// The contents of an index with no nodes.
pub open spec fn no_entries() -> Map<u128, Node> {
    Map::empty()
}

impl NodeIndex {
    /// Relies on `hashbrown::HashMap::new`: creates an empty map.
    #[verifier::external_body]
    pub fn empty() -> (index: NodeIndex)
        ensures
            entries(index) == no_entries(),
    {
        NodeIndex { inner: hashbrown::HashMap::new() }
    }

    /// Relies on `hashbrown::HashMap::insert`: binds the key to the value,
    /// replacing any previous binding.
    #[verifier::external_body]
    pub fn insert(&mut self, key: u128, node: Node)
        ensures
            entries(*final(self)) == entries(*old(self)).insert(key, node),
    {
        self.inner.insert(key, node);
    }

    /// Relies on `hashbrown::HashMap::get`: returns the value bound to the
    /// key, if any. The node is handed out by value.
    #[verifier::external_body]
    pub fn get(&self, key: u128) -> (r: Option<Node>)
        ensures
            match r {
                Some(node) => entries(*self).contains_key(key) && entries(*self)[key] == node,
                None => !entries(*self).contains_key(key),
            },
    {
        self.inner.get(&key).cloned()
    }

    /// Relies on `hashbrown::HashMap::remove`: unbinds the key.
    #[verifier::external_body]
    pub fn remove(&mut self, key: u128)
        ensures
            entries(*final(self)) == entries(*old(self)).remove(key),
    {
        self.inner.remove(&key);
    }
}

} // verus!
