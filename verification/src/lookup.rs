//! What reading a key from a tree gives.
use vstd::prelude::*;

use crate::hash::{lemma_nibble_range, HashValue};
use crate::merkle_proof::{SparseMerkleLeafNode, SparseMerkleProof, SparseMerkleRangeProof};
use crate::node_type::{descend, lemma_descend, LeafNode, NodeKeyView, NodeView, Version};
use crate::reader::{StorageError, TreeError, TreeReader};
use crate::update::{child_key, Store};

verus! {

/// What comes of reading a key: the hash of its value and where the value is to be found, if the key is
/// there, with a proof.
pub type Answer<K> = Result<(Option<(HashValue, (K, Version))>, SparseMerkleProof), TreeError>;

/// Where the way down from a node towards a key ends. The hashes are those of the subtrees beside
/// the way, from the top.
#[verifier::ext_equal]
pub ghost enum Lookup<K> {
    /// At a node that the store does not hold.
    Missing(NodeKeyView),
    /// At an internal node that lies deeper than keys reach.
    TooDeep,
    /// Where there is nothing below.
    Nothing(Seq<HashValue>),
    /// At a leaf.
    Leaf(LeafNode<K>, Seq<HashValue>),
}

impl<K> Lookup<K> {
    /// The way with `above` beside its beginning.
    pub open spec fn below(self, above: Seq<HashValue>) -> Self {
        match self {
            Lookup::Nothing(siblings) => Lookup::Nothing(above + siblings),
            Lookup::Leaf(leaf, siblings) => Lookup::Leaf(leaf, above + siblings),
            _ => self,
        }
    }

    /// The hashes of the subtrees beside the way, from the top.
    pub open spec fn siblings(self) -> Seq<HashValue> {
        match self {
            Lookup::Nothing(siblings) => siblings,
            Lookup::Leaf(_, siblings) => siblings,
            _ => Seq::empty(),
        }
    }

    /// The leaf at the end of the way.
    pub open spec fn leaf(self) -> Option<LeafNode<K>> {
        match self {
            Lookup::Leaf(leaf, _) => Some(leaf),
            _ => None,
        }
    }

    /// What is found under `key`: the hash of the value, and where the value is to be found.
    pub open spec fn value(self, key: HashValue) -> Option<(HashValue, (K, Version))> {
        match self {
            Lookup::Leaf(leaf, _) => if leaf.account_key == key {
                Some((leaf.value_hash, leaf.value_index))
            } else {
                None
            },
            _ => None,
        }
    }

    /// Whether the way could be gone to its end.
    pub open spec fn ends(self) -> bool {
        self is Nothing || self is Leaf
    }
}

/// The way down from the node at `node_key`, which lies at `depth`, towards `key`.
pub open spec fn lookup<K>(
    store: Store<K>,
    node_key: NodeKeyView,
    key: HashValue,
    depth: nat,
) -> Lookup<K>
    decreases 64 - depth,
{
    if !store.contains_key(node_key) {
        Lookup::Missing(node_key)
    } else {
        match store[node_key] {
            NodeView::Leaf(leaf) => Lookup::Leaf(leaf, Seq::empty()),
            NodeView::Internal(slots) => if depth >= 64 {
                Lookup::TooDeep
            } else {
                let (child, siblings) = descend(slots, key.nibble_at(depth as int) as int, 0, 16);
                match child {
                    None => Lookup::Nothing(siblings),
                    Some(i) => lookup(
                        store,
                        child_key(node_key, slots[i].unwrap(), i as u8),
                        key,
                        depth + 1,
                    ).below(siblings),
                }
            },
        }
    }
}

/// The way down from the root of the tree at `version` towards `key`.
pub open spec fn lookup_at<K>(store: Store<K>, version: Version, key: HashValue) -> Lookup<K> {
    lookup(store, NodeKeyView::root(version), key, 0)
}

/// Whether `proof` shows where the way ends: the leaf, and the hashes beside the way, from the bottom.
pub open spec fn is_proof_of<K>(found: Lookup<K>, shown: SparseMerkleProof) -> bool {
    &&& shown.siblings@ == found.siblings().reverse()
    &&& shown.leaf == match found.leaf() {
        Some(leaf) => Some(SparseMerkleLeafNode::of(leaf)),
        None => None,
    }
}

/// Whether the node under `k` is asked for on the way down from the node at `node_key`, which lies at
/// `depth`, towards `key`.
pub open spec fn on_way<K>(
    store: Store<K>,
    node_key: NodeKeyView,
    key: HashValue,
    depth: nat,
    k: NodeKeyView,
) -> bool
    decreases 64 - depth,
{
    k == node_key || (store.contains_key(node_key) && match store[node_key] {
        NodeView::Leaf(_) => false,
        NodeView::Internal(slots) => depth < 64 && match descend(
            slots,
            key.nibble_at(depth as int) as int,
            0,
            16,
        ).0 {
            None => false,
            Some(i) => on_way(
                store,
                child_key(node_key, slots[i].unwrap(), i as u8),
                key,
                depth + 1,
                k,
            ),
        },
    })
}

/// Whether reading `key` from the tree at `version` can fail with `error`. The root is reported as
/// missing exactly where it is missing or cannot be read; any other node that is missing or cannot be
/// read is reported as such.
pub open spec fn is_lookup_error<K, R: TreeReader<K>>(
    reader: &R,
    key: HashValue,
    version: Version,
    error: TreeError,
) -> bool {
    let root = NodeKeyView::root(version);
    let found = lookup_at(reader.nodes(), version, key);
    match error {
        TreeError::MissingRoot(missing) => missing.version == version && (
        !reader.nodes().contains_key(root) || exists|e: StorageError|
            reader.may_fail_with(root, e)),
        TreeError::MissingNode(missing) => found == Lookup::<K>::Missing(missing@) && missing@
            != root,
        TreeError::RanOutOfNibbles => found is TooDeep,
        TreeError::Storage(e) => exists|k: NodeKeyView|
            k != root && #[trigger] on_way(reader.nodes(), root, key, 0, k)
                && reader.may_fail_with(k, e),
        _ => false,
    }
}

/// Whether `answer` is an answer to reading `key` from the tree at `version`.
pub open spec fn is_answer<K, R: TreeReader<K>>(
    reader: &R,
    key: HashValue,
    version: Version,
    answer: Answer<K>,
) -> bool {
    let found = lookup_at(reader.nodes(), version, key);
    match answer {
        Ok((value, shown)) => {
            &&& found.ends()
            &&& value == found.value(key)
            &&& is_proof_of(found, shown)
        },
        Err(error) => is_lookup_error(reader, key, version, error),
    }
}

/// Whether `r` is the range proof up to `key` that follows from `answer`, the answer to reading `key`:
/// the error of the answer if it is one, an error if the key is not there, and else the siblings on
/// the right, of which there is at most one for each bit of the key.
pub open spec fn is_range_proof_of<K>(
    key: HashValue,
    answer: Answer<K>,
    r: Result<SparseMerkleRangeProof, TreeError>,
) -> bool {
    match answer {
        Err(error) => r == Err::<SparseMerkleRangeProof, TreeError>(error),
        Ok((None, _)) => r == Err::<SparseMerkleRangeProof, TreeError>(
            TreeError::RightmostKeyMissing,
        ),
        Ok((Some(_), shown)) => r matches Ok(range) && range.right_siblings@ == right_siblings(
            key,
            for_each_bit(shown.siblings@.reverse()),
        ).reverse(),
    }
}

/// The first of the hashes, as far as a key has bits.
pub open spec fn for_each_bit(hashes: Seq<HashValue>) -> Seq<HashValue> {
    if hashes.len() <= 256 {
        hashes
    } else {
        hashes.take(256)
    }
}

/// Those of the hashes beside the way to `key`, from the top, that lie on the right of it.
pub open spec fn right_siblings(key: HashValue, siblings: Seq<HashValue>) -> Seq<HashValue>
    decreases siblings.len(),
{
    if siblings.len() == 0 {
        Seq::empty()
    } else {
        let above = right_siblings(key, siblings.drop_last());
        if key.bit_at(siblings.len() - 1) {
            above
        } else {
            above.push(siblings.last())
        }
    }
}

/// There is at most one hash for each bit of a key beside the way to it.
pub proof fn lemma_siblings_len<K>(
    store: Store<K>,
    node_key: NodeKeyView,
    key: HashValue,
    depth: nat,
)
    requires
        depth <= 64,
    ensures
        lookup(store, node_key, key, depth).siblings().len() <= 4 * (64 - depth),
    decreases 64 - depth,
{
    if store.contains_key(node_key) {
        if let NodeView::Internal(slots) = store[node_key] {
            if depth < 64 {
                lemma_nibble_range(key, depth as int);
                let n = key.nibble_at(depth as int) as int;
                lemma_descend(slots, n, 0, 16);
                if let Some(i) = descend(slots, n, 0, 16).0 {
                    lemma_siblings_len(
                        store,
                        child_key(node_key, slots[i].unwrap(), i as u8),
                        key,
                        depth + 1,
                    );
                }
            }
        }
    }
}

} // verus!
