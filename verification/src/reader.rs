//! What the tree needs of its surroundings: keys, values and a store of nodes.
use std::collections::HashMap;
use vstd::prelude::*;

use crate::hash::HashValue;
use crate::node_type::{LeafNode, Node, NodeKey, NodeKeyView, NodeView, Version};
use crate::sorted::precedes;

verus! {

/// `Key` defines the types of data key that can be stored in a Jellyfish Merkle tree.
pub trait Key: Clone + Send + Sync {
    /// A clone is the key that it was taken from. Where that is not proved, an empty body claims it.
    proof fn clone_is_faithful(original: Self, copy: Self)
        requires
            cloned(original, copy),
        ensures
            original == copy,
    ;
}

impl Key for u64 {
    proof fn clone_is_faithful(original: Self, copy: Self) {
    }
}

impl Key for HashValue {
    proof fn clone_is_faithful(original: Self, copy: Self) {
    }
}

/// `Value` defines the types of data that can be stored in a Jellyfish Merkle tree.
pub trait Value: Clone + Send + Sync {

}

/// Node batch that will be written into db atomically with other batches.
pub type NodeBatch<K> = HashMap<NodeKey, Node<K>>;

/// Key-Value batch that will be written into db atomically with other batches.
pub type StateValueBatch<K, V> = HashMap<(K, Version), V>;

/// A failure of the store, in the store's own words.
#[derive(Debug, Clone, PartialEq, Eq)]
pub struct StorageError {
    pub message: String,
}

/// The root of the state at `version` is missing, probably pruned.
#[derive(Debug, Clone, Copy, PartialEq, Eq)]
pub struct MissingRootError {
    pub version: Version,
}

/// Why an operation on the tree failed.
#[derive(Debug, PartialEq, Eq)]
pub enum TreeError {
    /// There is no node under a key that the tree refers to.
    MissingNode(NodeKey),
    /// The root could not be read.
    MissingRoot(MissingRootError),
    /// There is no root node for the version.
    RootNotFound(Version),
    /// The tree is deeper than a key is long.
    RanOutOfNibbles,
    /// The tree has cyclic graph inside.
    CyclicGraph,
    /// The key up to which a range is to be proved is not in the tree.
    RightmostKeyMissing,
    /// The store failed.
    Storage(StorageError),
}

/// Whether all nodes of a store were written at one version.
pub open spec fn one_version<K>(nodes: Map<NodeKeyView, NodeView<K>>) -> bool {
    forall|a: NodeKeyView, b: NodeKeyView|
        nodes.contains_key(a) && nodes.contains_key(b) ==> #[trigger] a.version
            == #[trigger] b.version
}

/// Whether `r` is what becomes of `read`, the answer of the storage for `node_key`, where a node has to
/// be there.
pub open spec fn is_node_of<K>(
    node_key: NodeKeyView,
    read: Result<Option<Node<K>>, StorageError>,
    r: Result<Node<K>, TreeError>,
) -> bool {
    match read {
        Ok(Some(node)) => r == Ok::<Node<K>, TreeError>(node),
        Ok(None) => r matches Err(TreeError::MissingNode(missing)) && missing@ == node_key,
        Err(error) => r == Err::<Node<K>, TreeError>(TreeError::Storage(error)),
    }
}

/// The node that the storage answered with for `node_key`, if it did, or why there is none.
pub fn node_of<K>(node_key: &NodeKey, read: Result<Option<Node<K>>, StorageError>) -> (r: Result<
    Node<K>,
    TreeError,
>)
    ensures
        is_node_of(node_key@, read, r),
        match read {
            Ok(Some(node)) => r matches Ok(found) && found == node,
            Ok(None) => r matches Err(TreeError::MissingNode(missing)) && missing@ == node_key@,
            Err(error) => r matches Err(TreeError::Storage(e)) && e == error,
        },
{
    match read {
        Ok(Some(node)) => Ok(node),
        Ok(None) => Err(TreeError::MissingNode(node_key.clone())),
        Err(error) => Err(TreeError::Storage(error)),
    }
}

/// `TreeReader` defines the interface between
/// [`JellyfishMerkleTree`](crate::tree::JellyfishMerkleTree)
/// and underlying storage holding nodes.
pub trait TreeReader<K> {
    /// The nodes that the storage holds. What a storage that does not say so holds is left open.
    open spec fn nodes(&self) -> Map<NodeKeyView, NodeView<K>> {
        vstd::pervasive::arbitrary()
    }

    /// Whether reading the node under `key` can fail with `error`: it can, unless the storage says
    /// that it cannot.
    open spec fn may_fail_with(&self, key: NodeKeyView, error: StorageError) -> bool {
        true
    }

    /// Gets node given a node key. Returns error if the node does not exist.
    fn get_node(&self, node_key: &NodeKey) -> (r: Result<Node<K>, TreeError>)
        ensures
            match r {
                Ok(node) => self.nodes().contains_key(node_key@) && self.nodes()[node_key@]
                    == node@,
                Err(TreeError::MissingNode(missing)) => missing@ == node_key@
                    && !self.nodes().contains_key(node_key@),
                Err(TreeError::Storage(error)) => self.may_fail_with(node_key@, error),
                Err(_) => false,
            },
            exists|read: Result<Option<Node<K>>, StorageError>|
                call_ensures(Self::get_node_option, (self, node_key), read) && is_node_of(
                    node_key@,
                    read,
                    r,
                ),
    {
        node_of(node_key, self.get_node_option(node_key))
    }

    /// Gets node given a node key. Returns `None` if the node does not exist.
    fn get_node_option(&self, node_key: &NodeKey) -> (r: Result<Option<Node<K>>, StorageError>)
        ensures
            match r {
                Ok(Some(node)) => self.nodes().contains_key(node_key@) && self.nodes()[node_key@]
                    == node@,
                Ok(None) => !self.nodes().contains_key(node_key@),
                Err(error) => self.may_fail_with(node_key@, error),
            },
    ;

    /// Gets the rightmost leaf. Note that this assumes we are in the process of restoring the tree
    /// and all nodes are at the same version.
    fn get_rightmost_leaf(&self) -> (r: Result<Option<(NodeKey, LeafNode<K>)>, StorageError>)
        ensures
            match r {
                Ok(Some((node_key, leaf))) => {
                    &&& self.nodes().contains_key(node_key@)
                    &&& self.nodes()[node_key@] == NodeView::Leaf(leaf)
                    &&& one_version(self.nodes()) ==> forall|k: NodeKeyView, other: LeafNode<K>|
                        self.nodes().contains_key(k) && #[trigger] self.nodes()[k]
                            == NodeView::Leaf(other) ==> other.account_key == leaf.account_key
                            || #[trigger] precedes(
                            other.account_key.nibbles(),
                            leaf.account_key.nibbles(),
                        )
                },
                Ok(None) => one_version(self.nodes()) ==> forall|k: NodeKeyView| #[trigger]
                    self.nodes().contains_key(k) ==> !(self.nodes()[k] is Leaf),
                Err(error) => exists|k: NodeKeyView| self.may_fail_with(k, error),
            },
    ;
}

/// Writes nodes into storage.
pub trait TreeWriter<K>: Send + Sync {
    /// Writes a node batch into storage.
    fn write_node_batch(&self, node_batch: &NodeBatch<K>) -> (r: Result<(), StorageError>);
}

/// Writes values into storage.
pub trait StateValueWriter<K, V>: Send + Sync {
    /// Writes a kv batch into storage.
    fn write_kv_batch(&self, kv_batch: &StateValueBatch<K, V>) -> (r: Result<(), StorageError>);
}

} // verus!
