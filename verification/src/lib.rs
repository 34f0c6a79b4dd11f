//! A Jellyfish Merkle tree: a versioned sparse Merkle tree with sixteen children to a node.
//!
//! The tree maps 256-bit keys to the hashes of values. Its nodes live in a store that is only read
//! here, through [`TreeReader`]. An update, [`JellyfishMerkleTree::batch_put_value_set`], returns the
//! root hash of the new version and a [`TreeUpdateBatch`] with the nodes to write and the nodes that
//! become stale; once the store has committed the batch, the new version can be read. A read,
//! [`JellyfishMerkleTree::get_with_proof`], comes with a proof against the root hash.
//!
//! What the functions do is stated in terms of the nodes themselves, in [`update`] for writes and in
//! [`lookup`] for reads. What that means for the keys and values that a tree holds is stated in
//! [`content`], and proved in [`laws`], [`read_laws`], [`write_laws`], [`prune_laws`], [`batch_laws`],
//! [`count_laws`] and [`cache_laws`]. What it means for calls, from arguments to results, is proved in
//! [`call_laws`] for reads, in [`put_laws`], [`cached_put_laws`] and [`list_laws`] for writes, in
//! [`way_laws`] for stores with missing nodes, and in [`node_laws`] and [`hash`] for nodes and hashes.
pub mod batch;
pub mod batch_laws;
pub mod cache_laws;
pub mod cached_put_laws;
pub mod call_laws;
pub mod content;
pub mod count_laws;
mod create;
pub mod hash;
mod insert;
pub mod laws;
pub mod list_laws;
pub mod lists;
pub mod lookup;
pub mod merkle_proof;
pub mod mock_tree_store;
pub mod nibble;
pub mod node_laws;
pub mod node_type;
mod parallel;
mod probe;
pub mod prune_laws;
pub mod put_laws;
pub mod ranges;
pub mod read_laws;
pub mod reader;
pub mod sorted;
pub mod tree;
pub mod update;
pub mod way_laws;
pub mod write_laws;

pub use crate::batch::{NodeStats, StaleNodeIndex, TreeUpdateBatch};
pub use crate::hash::HashValue;
pub use crate::ranges::NibbleRangeIterator;
pub use crate::reader::{
    Key, MissingRootError, NodeBatch, StateValueBatch, StateValueWriter, StorageError, TreeError,
    TreeReader, TreeWriter, Value,
};
pub use crate::tree::{JellyfishMerkleTree, NodeHashes};
