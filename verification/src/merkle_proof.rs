//! Proofs that a key is, or is not, in a tree with a given root hash.
use vstd::prelude::*;

use crate::hash::HashValue;
use crate::node_type::LeafNode;

verus! {

/// The leaf that a proof ends at.
#[derive(Clone, Copy, Debug, PartialEq, Eq)]
pub struct SparseMerkleLeafNode {
    pub key: HashValue,
    pub value_hash: HashValue,
}

impl SparseMerkleLeafNode {
    /// The leaf that `leaf` stands for in a proof.
    pub open spec fn of<K>(leaf: LeafNode<K>) -> Self {
        SparseMerkleLeafNode { key: leaf.account_key, value_hash: leaf.value_hash }
    }

    pub fn new(key: HashValue, value_hash: HashValue) -> (r: Self)
        ensures
            r == (SparseMerkleLeafNode { key, value_hash }),
    {
        SparseMerkleLeafNode { key, value_hash }
    }
}

/// A proof that can be used to authenticate an element in a sparse Merkle tree given trusted root
/// hash.
#[derive(Clone, Debug, PartialEq, Eq)]
pub struct SparseMerkleProof {
    /// The leaf at the end of the path, if there is one.
    pub leaf: Option<SparseMerkleLeafNode>,
    /// All siblings in this proof, including the default ones. Siblings are ordered from the bottom
    /// level to the root level.
    pub siblings: Vec<HashValue>,
}

impl SparseMerkleProof {
    pub fn new(leaf: Option<SparseMerkleLeafNode>, siblings: Vec<HashValue>) -> (r: Self)
        ensures
            r.leaf == leaf,
            r.siblings@ == siblings@,
    {
        SparseMerkleProof { leaf, siblings }
    }

    /// The siblings, from the bottom level to the root level.
    pub fn siblings(&self) -> (r: &Vec<HashValue>)
        ensures
            r@ == self.siblings@,
    {
        &self.siblings
    }
}

/// A proof that a list of keys from the leftmost one on is in a sparse Merkle tree: the siblings on
/// the right of the path to the last of them.
#[derive(Clone, Debug, PartialEq, Eq)]
pub struct SparseMerkleRangeProof {
    /// The siblings on the right, from the bottom level to the root level.
    pub right_siblings: Vec<HashValue>,
}

impl SparseMerkleRangeProof {
    pub fn new(right_siblings: Vec<HashValue>) -> (r: Self)
        ensures
            r.right_siblings@ == right_siblings@,
    {
        SparseMerkleRangeProof { right_siblings }
    }
}

} // verus!
