//! The Jellyfish Merkle tree: updates and reads.
use std::marker::PhantomData;
use vstd::prelude::*;

use crate::batch::{lemma_absorb_none, TreeUpdateBatch};
use crate::create::batch_create_subtree;
use crate::hash::HashValue;
use crate::lookup::{
    for_each_bit, is_answer, is_lookup_error, is_range_proof_of, lemma_siblings_len, lookup,
    lookup_at, on_way, right_siblings, Answer,
};
use crate::merkle_proof::{SparseMerkleLeafNode, SparseMerkleProof, SparseMerkleRangeProof};
use crate::nibble::{Nibble, NibblePath, ROOT_NIBBLE_HEIGHT};
use crate::node_type::{copy_value_index, Node, NodeKey, NodeKeyView, Version};
use crate::ranges::all_under;
use crate::reader::{Key, MissingRootError, TreeError, TreeReader};
use crate::sorted::{lemma_sorted_set, sorted_set, SortedMap};
use crate::update::{
    complete, fails, insert_changes, lemma_changes_wf, misses, updatable, update_changes,
    updated_root, KeyValue, Store, Update,
};

verus! {

/// The hashes of nodes by their path.
pub type NodeHashes = SortedMap<NibblePath, HashValue>;

/// How an update with these hashes is made.
pub open spec fn update_of(version: Version, hash_cache: Option<&NodeHashes>) -> Update {
    Update {
        version,
        hashes: match hash_cache {
            Some(hashes) => Some(hashes.map()),
            None => None,
        },
    }
}

/// Whether the hashes are in order, if there are any.
pub open spec fn cache_wf(hash_cache: Option<&NodeHashes>) -> bool {
    match hash_cache {
        Some(hashes) => hashes.wf(),
        None => true,
    }
}

/// The Jellyfish Merkle tree data structure.
pub struct JellyfishMerkleTree<'a, R, K> {
    pub reader: &'a R,
    pub phantom_value: PhantomData<K>,
}

impl<'a, R, K> JellyfishMerkleTree<'a, R, K> where R: 'a + TreeReader<K> + Sync, K: Key {
    /// Creates a `JellyfishMerkleTree` backed by the given [`TreeReader`].
    pub fn new(reader: &'a R) -> (r: Self)
        ensures
            *r.reader == *reader,
    {
        Self { reader, phantom_value: PhantomData }
    }

    /// The nodes that the tree is made of.
    pub open spec fn store(&self) -> Store<K> {
        self.reader.nodes()
    }

    /// For each value set:
    /// Returns the new nodes and values in a batch after applying `value_set`. For
    /// example, if after transaction `T_i` the committed state of tree in the persistent storage
    /// looks like the following structure:
    ///
    /// ```text
    ///              S_i
    ///             /   \
    ///            .     .
    ///           .       .
    ///          /         \
    ///         o           x
    ///        / \
    ///       A   B
    ///        storage (disk)
    /// ```
    ///
    /// where `A` and `B` denote the states of two adjacent accounts, and `x` is a sibling subtree
    /// of the path from root to A and B in the tree. Then a `value_set` produced by the next
    /// transaction `T_{i+1}` modifies other accounts `C` and `D` exist in the subtree under `x`, a
    /// new partial tree will be constructed in memory and the structure will be:
    ///
    /// ```text
    ///                 S_i      |      S_{i+1}
    ///                /   \     |     /       \
    ///               .     .    |    .         .
    ///              .       .   |   .           .
    ///             /         \  |  /             \
    ///            /           x | /               x'
    ///           o<-------------+-               / \
    ///          / \             |               C   D
    ///         A   B            |
    ///           storage (disk) |    cache (memory)
    /// ```
    ///
    /// With this design, we are able to query the global state in persistent storage and
    /// generate the proposed tree delta based on a specific root hash and `value_set`. For
    /// example, if we want to execute another transaction `T_{i+1}'`, we can use the tree `S_i` in
    /// storage and apply the `value_set` of transaction `T_{i+1}`. Then if the storage commits
    /// the returned batch, the state `S_{i+1}` is ready to be read from the tree by calling
    /// [`get_with_proof`](Self::get_with_proof). Anything inside
    /// the batch is not reachable from public interfaces before being committed.
    pub fn batch_put_value_set<'b>(
        &self,
        value_set: Vec<(HashValue, &'b (HashValue, K))>,
        node_hashes: Option<&NodeHashes>,
        persisted_version: Option<Version>,
        version: Version,
    ) -> (r: Result<(HashValue, TreeUpdateBatch<K>), TreeError>)
        requires
            value_set@.len() <= usize::MAX / 2,
            cache_wf(node_hashes),
            updatable(
                self.store(),
                update_of(version, node_hashes),
                persisted_version,
                sorted_set(value_set@),
            ),
        ensures
            match r {
                Ok((root_hash, batch)) => {
                    let u = update_of(version, node_hashes);
                    let kvs = sorted_set(value_set@);
                    &&& persisted_version is Some ==> complete(
                        self.store(),
                        NodeKeyView::root(persisted_version.unwrap()),
                        kvs,
                    )
                    &&& root_hash == updated_root(self.store(), u, persisted_version, kvs).hash()
                    &&& batch@ == update_changes(self.store(), u, persisted_version, kvs)
                },
                Err(TreeError::MissingNode(missing)) => persisted_version is Some && misses(
                    self.store(),
                    NodeKeyView::root(persisted_version.unwrap()),
                    sorted_set(value_set@),
                    missing@,
                ),
                Err(TreeError::Storage(error)) => persisted_version is Some && fails(
                    self.reader,
                    NodeKeyView::root(persisted_version.unwrap()),
                    sorted_set(value_set@),
                    error,
                ),
                Err(_) => false,
            },
    {
        let ghost u = update_of(version, node_hashes);
        let deduped_and_sorted_kvs = dedup_and_sort(&value_set);
        let kvs = deduped_and_sorted_kvs.as_slice();
        let mut batch: TreeUpdateBatch<K> = TreeUpdateBatch::new();
        proof {
            lemma_sorted_set(value_set@);
            assert(all_under(kvs@, Seq::empty())) by {
                reveal(all_under);
            }
        }
        match persisted_version {
            Some(persisted_version) => {
                proof {
                    let root = NodeKeyView::root(persisted_version);
                    lemma_changes_wf(self.store(), u, root, kvs@);
                    lemma_absorb_none(insert_changes(self.store(), u, root, kvs@));
                }
                match self.batch_insert_at(
                    NodeKey::new_empty_path(persisted_version),
                    version,
                    kvs,
                    0,
                    node_hashes,
                    &mut batch,
                ) {
                    Ok((_root_node_key, root_node)) => Ok((root_node.hash(), batch)),
                    Err(error) => Err(error),
                }
            },
            None => {
                let (_root_node_key, root_node) = batch_create_subtree(
                    NodeKey::new_empty_path(version),
                    version,
                    kvs,
                    0,
                    node_hashes,
                    &mut batch,
                );
                Ok((root_node.hash(), batch))
            },
        }
    }

    /// This is a convenient function that calls
    /// [`batch_put_value_set`](Self::batch_put_value_set) without the node hash
    /// cache and assuming the base version is the immediate previous version.
    pub fn put_value_set_test<'b>(
        &self,
        value_set: Vec<(HashValue, &'b (HashValue, K))>,
        version: Version,
    ) -> (r: Result<(HashValue, TreeUpdateBatch<K>), TreeError>)
        requires
            value_set@.len() <= usize::MAX / 2,
            updatable(
                self.store(),
                update_of(version, None),
                previous_version(version),
                sorted_set(value_set@),
            ),
        ensures
            match r {
                Ok((root_hash, batch)) => {
                    let u = update_of(version, None);
                    let kvs = sorted_set(value_set@);
                    &&& version > 0 ==> complete(
                        self.store(),
                        NodeKeyView::root((version - 1) as Version),
                        kvs,
                    )
                    &&& root_hash == updated_root(
                        self.store(),
                        u,
                        previous_version(version),
                        kvs,
                    ).hash()
                    &&& batch@ == update_changes(self.store(), u, previous_version(version), kvs)
                },
                Err(TreeError::MissingNode(missing)) => version > 0 && misses(
                    self.store(),
                    NodeKeyView::root((version - 1) as Version),
                    sorted_set(value_set@),
                    missing@,
                ),
                Err(TreeError::Storage(error)) => version > 0 && fails(
                    self.reader,
                    NodeKeyView::root((version - 1) as Version),
                    sorted_set(value_set@),
                    error,
                ),
                Err(_) => false,
            },
    {
        self.batch_put_value_set(value_set, None, version.checked_sub(1), version)
    }

    /// Returns the value (if applicable) and the corresponding merkle proof.
    pub fn get_with_proof(&self, key: HashValue, version: Version) -> (r: Answer<K>)
        ensures
            is_answer(self.reader, key, version, r),
    {
        let ghost found = lookup_at(self.store(), version, key);
        // Empty tree just returns proof with no sibling hash.
        let mut next_node_key: NodeKey = NodeKey::new_empty_path(version);
        let mut siblings: Vec<HashValue> = Vec::new();
        // We limit the number of loops here deliberately to avoid potential cyclic graph bugs
        // in the tree structure.
        let mut nibble_depth: usize = 0;
        proof {
            let rest = lookup(self.store(), next_node_key@, key, 0);
            assert(rest.below(siblings@) =~~= rest);
        }
        while nibble_depth <= ROOT_NIBBLE_HEIGHT
            invariant
                nibble_depth <= 64,
                next_node_key@.path.len() == nibble_depth,
                nibble_depth == 0 ==> next_node_key@ == NodeKeyView::root(version),
                forall|k: NodeKeyView| #[trigger]
                    on_way(self.store(), next_node_key@, key, nibble_depth as nat, k) ==> on_way(
                        self.store(),
                        NodeKeyView::root(version),
                        key,
                        0,
                        k,
                    ),
                found == lookup_at(self.store(), version, key),
                found == lookup(
                    self.store(),
                    next_node_key@,
                    key,
                    nibble_depth as nat,
                ).below(siblings@),
            decreases 65 - nibble_depth,
        {
            let next_node: Node<K> = match self.reader.get_node(&next_node_key) {
                Ok(node) => node,
                Err(error) => {
                    proof {
                        assert(NodeKeyView::root(version).path.len() == 0);
                        assert(on_way(
                            self.store(),
                            next_node_key@,
                            key,
                            nibble_depth as nat,
                            next_node_key@,
                        ));
                    }
                    return Err(lookup_failure(nibble_depth, version, error));
                },
            };
            match next_node {
                Node::Internal(internal_node) => {
                    if nibble_depth >= ROOT_NIBBLE_HEIGHT {
                        return Err(TreeError::RanOutOfNibbles);
                    }
                    let queried_child_index: Nibble = key.get_nibble(nibble_depth);
                    let (child_node_key, mut siblings_in_internal) =
                        internal_node.get_child_with_siblings(
                        &next_node_key,
                        queried_child_index,
                    );
                    let ghost above = siblings@;
                    let ghost beside = siblings_in_internal@;
                    siblings.append(&mut siblings_in_internal);
                    match child_node_key {
                        Some(node_key) => {
                            proof {
                                let rest = lookup(
                                    self.store(),
                                    node_key@,
                                    key,
                                    (nibble_depth + 1) as nat,
                                );
                                assert(rest.below(beside).below(above) =~~= rest.below(siblings@));
                                assert forall|k: NodeKeyView| #[trigger]
                                    on_way(
                                        self.store(),
                                        node_key@,
                                        key,
                                        (nibble_depth + 1) as nat,
                                        k,
                                    ) implies on_way(
                                    self.store(),
                                    NodeKeyView::root(version),
                                    key,
                                    0,
                                    k,
                                ) by {
                                    assert(on_way(
                                        self.store(),
                                        next_node_key@,
                                        key,
                                        nibble_depth as nat,
                                        k,
                                    ));
                                }
                            }
                            next_node_key = node_key;
                        },
                        None => {
                            let bottom_up = reversed(&siblings);
                            return Ok((None, SparseMerkleProof::new(None, bottom_up)));
                        },
                    }
                },
                Node::Leaf(leaf_node) => {
                    let value = if leaf_node.account_key() == key {
                        Some((leaf_node.value_hash(), copy_value_index(leaf_node.value_index())))
                    } else {
                        None
                    };
                    let leaf = SparseMerkleLeafNode::new(
                        leaf_node.account_key(),
                        leaf_node.value_hash(),
                    );
                    assert(siblings@ + Seq::<HashValue>::empty() =~= siblings@);
                    let bottom_up = reversed(&siblings);
                    return Ok((value, SparseMerkleProof::new(Some(leaf), bottom_up)));
                },
            }
            nibble_depth += 1;
        }
        Err(TreeError::CyclicGraph)
    }

    /// Gets the proof that shows a list of keys up to `rightmost_key_to_prove` exist at `version`.
    pub fn get_range_proof(
        &self,
        rightmost_key_to_prove: HashValue,
        version: Version,
    ) -> (r: Result<SparseMerkleRangeProof, TreeError>)
        ensures
            exists|answer: Answer<K>| #[trigger]
                is_answer(self.reader, rightmost_key_to_prove, version, answer)
                    && is_range_proof_of(rightmost_key_to_prove, answer, r),
            ({
                let found = lookup_at(self.store(), version, rightmost_key_to_prove);
                match r {
                    Ok(shown) => {
                        &&& found.value(rightmost_key_to_prove) is Some
                        &&& shown.right_siblings@ == right_siblings(
                            rightmost_key_to_prove,
                            found.siblings(),
                        ).reverse()
                    },
                    Err(TreeError::RightmostKeyMissing) => found.ends() && found.value(
                        rightmost_key_to_prove,
                    ) is None,
                    Err(error) => is_lookup_error(
                        self.reader,
                        rightmost_key_to_prove,
                        version,
                        error,
                    ),
                }
            }),
    {
        let answer = self.get_with_proof(rightmost_key_to_prove, version);
        let ghost read = answer;
        let r = range_proof_of(rightmost_key_to_prove, answer);
        proof {
            assert(is_answer(self.reader, rightmost_key_to_prove, version, read));
            let found = lookup_at(self.store(), version, rightmost_key_to_prove);
            lemma_siblings_len(
                self.store(),
                NodeKeyView::root(version),
                rightmost_key_to_prove,
                0,
            );
            assert(found.siblings().reverse().reverse() =~= found.siblings());
        }
        r
    }

    /// The hash of the value that is found under `key`.
    pub fn get(&self, key: HashValue, version: Version) -> (r: Result<Option<HashValue>, TreeError>)
        ensures
            ({
                let found = lookup_at(self.store(), version, key);
                match r {
                    Ok(value_hash) => found.ends() && value_hash == match found.value(key) {
                        Some(value) => Some(value.0),
                        None => None,
                    },
                    Err(error) => is_lookup_error(self.reader, key, version, error),
                }
            }),
    {
        match self.get_with_proof(key, version) {
            Ok((Some(value), _)) => Ok(Some(value.0)),
            Ok((None, _)) => Ok(None),
            Err(error) => Err(error),
        }
    }

    /// The root node of the tree at `version`.
    fn get_root_node(&self, version: Version) -> (r: Result<Node<K>, TreeError>)
        ensures
            match r {
                Ok(node) => self.store().contains_key(NodeKeyView::root(version))
                    && self.store()[NodeKeyView::root(version)] == node@,
                Err(error) => is_root_error(self.reader, version, error),
            },
    {
        root_of(version, self.get_root_node_option(version))
    }

    /// The root node of the tree at `version`, if there is one.
    fn get_root_node_option(&self, version: Version) -> (r: Result<Option<Node<K>>, TreeError>)
        ensures
            is_root_read(self.reader, version, r),
    {
        let root_node_key = NodeKey::new_empty_path(version);
        match self.reader.get_node_option(&root_node_key) {
            Ok(node) => Ok(node),
            Err(error) => Err(TreeError::Storage(error)),
        }
    }

    /// The root hash of the tree at `version`.
    pub fn get_root_hash(&self, version: Version) -> (r: Result<HashValue, TreeError>)
        ensures
            match r {
                Ok(hash) => self.store().contains_key(NodeKeyView::root(version)) && hash
                    == self.store()[NodeKeyView::root(version)].hash(),
                Err(error) => is_root_error(self.reader, version, error),
            },
            exists|read: Result<Option<Node<K>>, TreeError>| #[trigger]
                is_root_read(self.reader, version, read) && is_hash_of(version, read, r),
    {
        let read = self.get_root_node_option(version);
        let ghost answer = read;
        assert(is_root_read(self.reader, version, answer));
        match root_of(version, read) {
            Ok(node) => Ok(node.hash()),
            Err(error) => Err(error),
        }
    }

    /// The root hash of the tree at `version`, if there is such a tree.
    pub fn get_root_hash_option(&self, version: Version) -> (r: Result<
        Option<HashValue>,
        TreeError,
    >)
        ensures
            match r {
                Ok(Some(hash)) => self.store().contains_key(NodeKeyView::root(version)) && hash
                    == self.store()[NodeKeyView::root(version)].hash(),
                Ok(None) => !self.store().contains_key(NodeKeyView::root(version)),
                Err(TreeError::Storage(error)) => self.reader.may_fail_with(
                    NodeKeyView::root(version),
                    error,
                ),
                Err(_) => false,
            },
            exists|read: Result<Option<Node<K>>, TreeError>| #[trigger]
                is_root_read(self.reader, version, read) && is_hash_option_of(read, r),
    {
        let read = self.get_root_node_option(version);
        let ghost answer = read;
        assert(is_root_read(self.reader, version, answer));
        hash_option_of(read)
    }

    /// The number of leaves of the tree at `version`.
    pub fn get_leaf_count(&self, version: Version) -> (r: Result<usize, TreeError>)
        ensures
            match r {
                Ok(count) => self.store().contains_key(NodeKeyView::root(version)) && count
                    == self.store()[NodeKeyView::root(version)].leaf_count(),
                Err(error) => is_root_error(self.reader, version, error),
            },
    {
        match self.get_root_node(version) {
            Ok(node) => Ok(node.leaf_count()),
            Err(error) => Err(error),
        }
    }
}

/// Whether reading the root of the tree at `version`, which has to be there, can fail with `error`.
pub open spec fn is_root_error<K, R: TreeReader<K>>(
    reader: &R,
    version: Version,
    error: TreeError,
) -> bool {
    let root = NodeKeyView::root(version);
    match error {
        TreeError::RootNotFound(missing) => missing == version && !reader.nodes().contains_key(
            root,
        ),
        TreeError::Storage(e) => reader.may_fail_with(root, e),
        _ => false,
    }
}

/// Whether `read` is an answer of the store for the root of the tree at `version`.
pub open spec fn is_root_read<K, R: TreeReader<K>>(
    reader: &R,
    version: Version,
    read: Result<Option<Node<K>>, TreeError>,
) -> bool {
    let root = NodeKeyView::root(version);
    match read {
        Ok(Some(node)) => reader.nodes().contains_key(root) && reader.nodes()[root] == node@,
        Ok(None) => !reader.nodes().contains_key(root),
        Err(TreeError::Storage(error)) => reader.may_fail_with(root, error),
        Err(_) => false,
    }
}

/// Whether `r` is the root hash that follows from `read`, the answer of the store for the root.
pub open spec fn is_hash_option_of<K>(
    read: Result<Option<Node<K>>, TreeError>,
    r: Result<Option<HashValue>, TreeError>,
) -> bool {
    match read {
        Ok(Some(node)) => r == Ok::<Option<HashValue>, TreeError>(Some(node@.hash())),
        Ok(None) => r == Ok::<Option<HashValue>, TreeError>(None),
        Err(error) => r == Err::<Option<HashValue>, TreeError>(error),
    }
}

/// Whether `r` is the root hash that follows from `read`, the answer of the store for the root of the
/// tree at `version`, which has to be there.
pub open spec fn is_hash_of<K>(
    version: Version,
    read: Result<Option<Node<K>>, TreeError>,
    r: Result<HashValue, TreeError>,
) -> bool {
    match read {
        Ok(Some(node)) => r == Ok::<HashValue, TreeError>(node@.hash()),
        Ok(None) => r == Err::<HashValue, TreeError>(TreeError::RootNotFound(version)),
        Err(error) => r == Err::<HashValue, TreeError>(error),
    }
}

/// The root that the store answered with, or why there is none.
pub fn root_of<K>(version: Version, read: Result<Option<Node<K>>, TreeError>) -> (r: Result<
    Node<K>,
    TreeError,
>)
    ensures
        r == match read {
            Ok(Some(node)) => Ok::<Node<K>, TreeError>(node),
            Ok(None) => Err(TreeError::RootNotFound(version)),
            Err(error) => Err(error),
        },
{
    match read {
        Ok(Some(node)) => Ok(node),
        Ok(None) => Err(TreeError::RootNotFound(version)),
        Err(error) => Err(error),
    }
}

/// The hash of the root that the store answered with.
pub fn hash_option_of<K>(read: Result<Option<Node<K>>, TreeError>) -> (r: Result<
    Option<HashValue>,
    TreeError,
>)
    ensures
        is_hash_option_of(read, r),
        match read {
            Ok(Some(node)) => r matches Ok(Some(hash)) && hash == node@.hash(),
            Ok(None) => r matches Ok(None),
            Err(error) => r matches Err(e) && e == error,
        },
{
    match read {
        Ok(Some(node)) => Ok(Some(node.hash())),
        Ok(None) => Ok(None),
        Err(error) => Err(error),
    }
}

/// What is reported when reading the node at `nibble_depth` on the way to a key failed with `error`: that
/// the root is missing, if it is the root, and else the error itself.
pub fn lookup_failure(nibble_depth: usize, version: Version, error: TreeError) -> (r: TreeError)
    ensures
        r == if nibble_depth == 0 {
            TreeError::MissingRoot(MissingRootError { version })
        } else {
            error
        },
{
    if nibble_depth == 0 {
        TreeError::MissingRoot(MissingRootError { version })
    } else {
        error
    }
}

/// The range proof up to `key` that follows from the answer to reading `key`.
pub fn range_proof_of<K>(key: HashValue, answer: Answer<K>) -> (r: Result<
    SparseMerkleRangeProof,
    TreeError,
>)
    ensures
        is_range_proof_of(key, answer, r),
{
    let (account, shown) = match answer {
        Ok(found) => found,
        Err(error) => {
            return Err(error);
        },
    };
    if account.is_none() {
        return Err(TreeError::RightmostKeyMissing);
    }
    let top_down = reversed(shown.siblings());
    let ghost hashes = for_each_bit(top_down@);
    let mut right: Vec<HashValue> = Vec::new();
    let mut i: usize = 0;
    assert(hashes.take(0) =~= Seq::empty());
    while i < top_down.len() && i < HashValue::LENGTH_IN_BITS
        invariant
            i <= hashes.len(),
            hashes == for_each_bit(top_down@),
            right@ == right_siblings(key, hashes.take(i as int)),
        decreases hashes.len() - i,
    {
        assert(hashes.take(i + 1).drop_last() =~= hashes.take(i as int));
        // We only need to keep the siblings on the right.
        if !key.bit(i) {
            right.push(top_down[i]);
        }
        i += 1;
    }
    assert(hashes.take(i as int) =~= hashes);
    Ok(SparseMerkleRangeProof::new(reversed(&right)))
}

/// The version before `version`, if there is one.
pub open spec fn previous_version(version: Version) -> Option<Version> {
    if version == 0 {
        None
    } else {
        Some((version - 1) as Version)
    }
}

/// The pairs of a value set in the order of their keys. Of several pairs with one key the last one
/// counts.
pub(crate) fn dedup_and_sort<'b, K>(value_set: &Vec<KeyValue<'b, K>>) -> (r: Vec<KeyValue<'b, K>>)
    ensures
        r@ == sorted_set(value_set@),
{
    let mut kvs: SortedMap<HashValue, &'b (HashValue, K)> = SortedMap::new();
    let mut i: usize = 0;
    assert(value_set@.take(0) =~= Seq::empty());
    while i < value_set.len()
        invariant
            i <= value_set@.len(),
            kvs.wf(),
            kvs.entries@ == sorted_set(value_set@.take(i as int)),
        decreases value_set@.len() - i,
    {
        assert(value_set@.take(i + 1).drop_last() =~= value_set@.take(i as int));
        kvs.insert(value_set[i].0, value_set[i].1);
        i += 1;
    }
    assert(value_set@.take(i as int) =~= value_set@);
    kvs.entries
}

/// The hashes in reverse order.
fn reversed(hashes: &Vec<HashValue>) -> (r: Vec<HashValue>)
    ensures
        r@ == hashes@.reverse(),
{
    let mut r: Vec<HashValue> = Vec::new();
    let mut i: usize = hashes.len();
    while i > 0
        invariant
            i <= hashes@.len(),
            r@.len() == hashes@.len() - i,
            forall|j: int| 0 <= j < r@.len() ==> r@[j] == hashes@[hashes@.len() - 1 - j],
        decreases i,
    {
        i -= 1;
        r.push(hashes[i]);
    }
    assert(r@ =~= hashes@.reverse());
    r
}

} // verus!
