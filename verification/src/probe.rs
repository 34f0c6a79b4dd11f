//! Telling beforehand whether an update can be made.
use vstd::prelude::*;

use crate::hash::HashValue;
use crate::laws::lemma_knows;
use crate::nibble::{Nibble, NibblePath};
use crate::node_type::{
    is_leaf_child, logical_children, Child, InternalNode, LeafNode, Node, NodeKey, NodeKeyView,
    Version,
};
use crate::ranges::{
    all_under, bucket, lemma_between_ranges, lemma_last_range, nibble_after, nibble_ranges,
    range_nibble,
};
use crate::reader::{Key, TreeError, TreeReader};
use crate::sorted::{lemma_sorted_set, sorted, sorted_set};
use crate::tree::{cache_wf, dedup_and_sort, update_of, JellyfishMerkleTree, NodeHashes};
use crate::update::{
    child_complete, child_insertable, complete, fails, first_children_complete, insertable,
    inserted, inserted_child, knows_built, leaf_bucket, lemma_built_depth, lemma_knows_below,
    lemma_range_step, lemma_rising, lemma_separable_below, misses, one_key, separable, updatable,
    KeyValue,
};

verus! {

/// The leaf that is referred to.
spec fn leaf_at<K>(leaf: Option<&LeafNode<K>>) -> Option<LeafNode<K>> {
    match leaf {
        Some(leaf) => Some(*leaf),
        None => None,
    }
}

/// Tells whether `leaf` differs from each other key at `depth` or below.
fn is_separable<'b, K>(leaf: &LeafNode<K>, kvs: &[KeyValue<'b, K>], depth: usize) -> (r: bool)
    ensures
        r == separable(Some(*leaf), kvs@, depth as nat),
{
    let key: HashValue = leaf.account_key;
    let mut i: usize = 0;
    while i < kvs.len()
        invariant
            i <= kvs@.len(),
            key == leaf.account_key,
            forall|k: int| 0 <= k < i && (#[trigger] kvs@[k]).0 != key ==> exists|j: int|
                depth <= j < 64 && #[trigger] kvs@[k].0.nibble_at(j) != key.nibble_at(j),
        decreases kvs@.len() - i,
    {
        if kvs[i].0 != key {
            let mut differs: bool = false;
            let mut j: usize = depth;
            while j < 64
                invariant
                    i < kvs@.len(),
                    depth <= j,
                    differs ==> exists|d: int|
                        depth <= d < 64 && #[trigger] kvs@[i as int].0.nibble_at(d)
                            != key.nibble_at(d),
                    !differs ==> forall|d: int|
                        depth <= d < 64 && d < j ==> #[trigger] kvs@[i as int].0.nibble_at(d)
                            == key.nibble_at(d),
                decreases 64 - j,
            {
                if kvs[i].0.nibble(j) != key.nibble(j) {
                    assert(kvs@[i as int].0.nibble_at(j as int) != key.nibble_at(j as int));
                    differs = true;
                }
                j += 1;
            }
            if !differs {
                proof {
                    reveal(separable);
                    assert(kvs@[i as int].0 != leaf.account_key);
                }
                return false;
            }
        }
        i += 1;
    }
    reveal(separable);
    true
}

/// Tells whether the hash of each new node below the subtree that holds `kvs`, and `leaf` if it is given,
/// is among the known ones.
#[verifier::loop_isolation(false)]
fn knows_new_nodes<'b, K>(
    path: &NibblePath,
    version: Version,
    leaf: Option<&LeafNode<K>>,
    kvs: &[KeyValue<'b, K>],
    depth: usize,
    hash_cache: Option<&NodeHashes>,
) -> (r: bool)
    requires
        path@.len() == depth,
        kvs@.len() > 0,
        sorted(kvs@),
        all_under(kvs@, path@),
        separable(leaf_at(leaf), kvs@, depth as nat),
        cache_wf(hash_cache),
    ensures
        r == knows_built(update_of(version, hash_cache), leaf_at(leaf), kvs@, path@),
    decreases 64 - depth,
{
    let ghost u = update_of(version, hash_cache);
    let ghost old_leaf = leaf_at(leaf);
    let hashes: &NodeHashes = match hash_cache {
        Some(hashes) => hashes,
        None => {
            proof {
                lemma_knows(u, old_leaf, kvs@, path@);
            }
            return true;
        },
    };
    let single: bool = kvs.len() == 1 && match leaf {
        Some(leaf) => leaf.account_key == kvs[0].0,
        None => true,
    };
    assert(single == one_key(old_leaf, kvs@));
    if single {
        reveal(knows_built);
        return true;
    }
    proof {
        lemma_built_depth(old_leaf, kvs@, path@);
        lemma_rising(kvs@, path@);
    }
    let ranges = nibble_ranges(kvs, depth);
    let mut i: usize = 0;
    while i < ranges.len()
        invariant
            i <= ranges.len(),
            0 <= nibble_after(kvs@, depth as nat, ranges@, i as int) <= 16,
            forall|m: u8|
                m < nibble_after(kvs@, depth as nat, ranges@, i as int) && #[trigger] bucket(
                    kvs@,
                    depth as nat,
                    m,
                ).len() > 0 ==> u.knows(path@.push(m)) && knows_built(
                    u,
                    leaf_bucket(old_leaf, depth as nat, m),
                    bucket(kvs@, depth as nat, m),
                    path@.push(m),
                ),
        decreases ranges.len() - i,
    {
        let (left, right) = ranges[i];
        let ghost n = range_nibble(kvs@, depth as nat, ranges@, i as int);
        let ghost lo = nibble_after(kvs@, depth as nat, ranges@, i as int);
        proof {
            lemma_range_step(kvs@, path@, ranges@, i as int);
            lemma_separable_below(old_leaf, kvs@, depth as nat, n);
        }
        let child_index: Nibble = kvs[left].0.get_nibble(depth);
        let mut below: NibblePath = path.clone();
        below.push(child_index);
        let group: &[KeyValue<'b, K>] = vstd::slice::slice_subrange(kvs, left, right + 1);
        assert(group@ == bucket(kvs@, depth as nat, n));
        assert(bucket(kvs@, depth as nat, n).len() > 0);
        if hashes.get(&below).is_none() {
            proof {
                if knows_built(u, old_leaf, kvs@, path@) {
                    lemma_knows_below(u, old_leaf, kvs@, path@, n);
                }
            }
            return false;
        }
        let leaf_below: Option<&LeafNode<K>> = match leaf {
            Some(leaf) => {
                if leaf.account_key.get_nibble(depth) == child_index {
                    Some(leaf)
                } else {
                    None
                }
            },
            None => None,
        };
        assert(leaf_at(leaf_below) == leaf_bucket(old_leaf, depth as nat, n));
        if !knows_new_nodes(&below, version, leaf_below, group, depth + 1, hash_cache) {
            proof {
                if knows_built(u, old_leaf, kvs@, path@) {
                    lemma_knows_below(u, old_leaf, kvs@, path@, n);
                }
            }
            return false;
        }
        proof {
            assert forall|m: u8|
                m < n + 1 && #[trigger] bucket(kvs@, depth as nat, m).len() > 0 implies u.knows(
                path@.push(m),
            ) && knows_built(
                u,
                leaf_bucket(old_leaf, depth as nat, m),
                bucket(kvs@, depth as nat, m),
                path@.push(m),
            ) by {
                if lo <= m < n {
                    assert(bucket(kvs@, depth as nat, m).len() == 0);
                }
            }
        }
        i += 1;
    }
    proof {
        lemma_between_ranges(kvs@, depth as nat, ranges@, i as int);
        lemma_last_range(kvs@, depth as nat, ranges@);
        reveal(knows_built);
    }
    true
}

/// What is known of a child beforehand: whether there is one, and whether it is a leaf.
spec fn kind_of(child: Option<Child>) -> Option<bool> {
    match child {
        Some(child) => Some(child.node_type is Leaf),
        None => None,
    }
}

/// Whether `kinds` is what is known beforehand of the children `slots`.
spec fn are_kinds(kinds: Seq<Option<bool>>, slots: Seq<Option<Child>>) -> bool {
    kinds.len() == 16 && forall|m: int| 0 <= m < 16 ==> #[trigger] kinds[m] == kind_of(slots[m])
}

/// Tells whether children of these kinds are such that an internal node can have them.
fn is_logical(kinds: &Vec<Option<bool>>, Ghost(slots): Ghost<Seq<Option<Child>>>) -> (r: bool)
    requires
        are_kinds(kinds@, slots),
    ensures
        r == logical_children(slots),
{
    let mut first: Option<usize> = None;
    let mut several: bool = false;
    let mut i: usize = 0;
    while i < 16
        invariant
            i <= 16,
            are_kinds(kinds@, slots),
            match first {
                None => !several && forall|j: int| 0 <= j < i ==> #[trigger] slots[j] is None,
                Some(f) => {
                    &&& f < i
                    &&& slots[f as int] is Some
                    &&& if several {
                        exists|j: int| 0 <= j < i && j != f && #[trigger] slots[j] is Some
                    } else {
                        forall|j: int| 0 <= j < i && j != f ==> #[trigger] slots[j] is None
                    }
                },
            },
        decreases 16 - i,
    {
        assert(kinds@[i as int] == kind_of(slots[i as int]));
        if kinds[i].is_some() {
            if first.is_none() {
                first = Some(i);
            } else {
                several = true;
            }
        }
        i += 1;
    }
    match first {
        None => false,
        Some(f) => {
            assert(kinds@[f as int] == kind_of(slots[f as int]));
            let leaf: bool = match kinds[f] {
                Some(leaf) => leaf,
                None => false,
            };
            if several {
                proof {
                    let other = choose|j: int|
                        0 <= j < 16 && j != f && #[trigger] slots[j] is Some;
                    assert forall|i: int| 0 <= i < 16 && is_leaf_child(#[trigger] slots[i]) implies
                        exists|j: int| 0 <= j < 16 && j != i && #[trigger] slots[j] is Some by {
                        if i == f {
                            assert(slots[other] is Some);
                        } else {
                            assert(slots[f as int] is Some);
                        }
                    }
                }
                true
            } else {
                proof {
                    if leaf {
                        assert(is_leaf_child(slots[f as int]));
                    }
                }
                !leaf
            }
        },
    }
}

impl<'a, R, K> JellyfishMerkleTree<'a, R, K> where R: 'a + TreeReader<K> + Sync, K: Key {
    /// Tells whether `kvs` can be put below the node at `node_key`, and, if they can, whether that
    /// leaves a leaf there.
    #[verifier::loop_isolation(false)]
    fn probe_at<'b>(
        &self,
        node_key: NodeKey,
        version: Version,
        kvs: &[KeyValue<'b, K>],
        depth: usize,
        hash_cache: Option<&NodeHashes>,
    ) -> (r: Result<Option<bool>, TreeError>)
        requires
            node_key@.path.len() == depth,
            sorted(kvs@),
            all_under(kvs@, node_key@.path),
            cache_wf(hash_cache),
        ensures
            ({
                let u = update_of(version, hash_cache);
                match r {
                    Ok(Some(leaf)) => {
                        &&& insertable(self.store(), u, node_key@, kvs@)
                        &&& complete(self.store(), node_key@, kvs@)
                        &&& leaf == (inserted(self.store(), u, node_key@, kvs@) is Leaf)
                    },
                    Ok(None) => !insertable(self.store(), u, node_key@, kvs@),
                    Err(TreeError::MissingNode(missing)) => misses(
                        self.store(),
                        node_key@,
                        kvs@,
                        missing@,
                    ),
                    Err(TreeError::Storage(error)) => fails(self.reader, node_key@, kvs@, error),
                    Err(_) => false,
                }
            }),
        decreases 64 - depth,
    {
        let ghost u = update_of(version, hash_cache);
        let ghost store = self.store();
        let ghost key = node_key@;
        let ghost path = node_key@.path;
        let internal_node: InternalNode = match self.reader.get_node(&node_key) {
            Ok(Node::Internal(internal_node)) => internal_node,
            Ok(Node::Leaf(leaf)) => {
                if kvs.len() == 0 || !is_separable(&leaf, kvs, depth) || !knows_new_nodes(
                    node_key.nibble_path(),
                    version,
                    Some(&leaf),
                    kvs,
                    depth,
                    hash_cache,
                ) {
                    return Ok(None);
                }
                let single: bool = kvs.len() == 1 && leaf.account_key == kvs[0].0;
                proof {
                    if !one_key(Some(leaf), kvs@) {
                        lemma_built_depth(Some(leaf), kvs@, path);
                    }
                }
                return Ok(Some(single));
            },
            Err(error) => {
                return Err(error);
            },
        };
        if depth >= 64 {
            return Ok(None);
        }
        let ghost slots = internal_node@;
        proof {
            lemma_rising(kvs@, path);
        }
        let mut kinds: Vec<Option<bool>> = Vec::new();
        let mut m: usize = 0;
        while m < 16
            invariant
                m <= 16,
                kinds@.len() == m,
                forall|j: int| 0 <= j < m ==> #[trigger] kinds@[j] == kind_of(slots[j]),
            decreases 16 - m,
        {
            kinds.push(
                match internal_node.child(Nibble::new(m as u8)) {
                    Some(child) => Some(child.is_leaf()),
                    None => None,
                },
            );
            m += 1;
        }
        let ranges = nibble_ranges(kvs, depth);
        let mut i: usize = 0;
        while i < ranges.len()
            invariant
                i <= ranges.len(),
                0 <= nibble_after(kvs@, depth as nat, ranges@, i as int) <= 16,
                kinds@.len() == 16,
                forall|m: int|
                    0 <= m < 16 ==> #[trigger] kinds@[m] == kind_of(
                        if m < nibble_after(kvs@, depth as nat, ranges@, i as int) {
                            inserted_child(store, u, key, slots, kvs@, m as u8)
                        } else {
                            slots[m]
                        },
                    ),
                first_children_complete(
                    store,
                    key,
                    slots,
                    kvs@,
                    nibble_after(kvs@, depth as nat, ranges@, i as int) as nat,
                ),
                forall|m: u8|
                    m < nibble_after(kvs@, depth as nat, ranges@, i as int) && #[trigger] bucket(
                        kvs@,
                        depth as nat,
                        m,
                    ).len() > 0 ==> child_insertable(store, u, key, slots, kvs@, m),
            decreases ranges.len() - i,
        {
            let (left, right) = ranges[i];
            let ghost n = range_nibble(kvs@, depth as nat, ranges@, i as int);
            let ghost lo = nibble_after(kvs@, depth as nat, ranges@, i as int);
            proof {
                lemma_range_step(kvs@, path, ranges@, i as int);
                assert forall|m: u8|
                    m < n && #[trigger] bucket(kvs@, depth as nat, m).len() > 0 implies
                    child_complete(store, key, slots, kvs@, m) by {
                    if lo <= m {
                        assert(bucket(kvs@, depth as nat, m).len() == 0);
                    }
                }
                assert(first_children_complete(store, key, slots, kvs@, n as nat));
            }
            let child_index: Nibble = kvs[left].0.get_nibble(depth);
            let group: &[KeyValue<'b, K>] = vstd::slice::slice_subrange(kvs, left, right + 1);
            assert(group@ == bucket(kvs@, depth as nat, n));
            assert(bucket(kvs@, depth as nat, n).len() > 0);
            let new_key: NodeKey = node_key.gen_child_node_key(version, child_index);
            if let Some(hashes) = hash_cache {
                if hashes.get(new_key.nibble_path()).is_none() {
                    assert(!child_insertable(store, u, key, slots, kvs@, n));
                    return Ok(None);
                }
            }
            assert(u.knows(path.push(n)));
            let leaf: bool = match internal_node.child(child_index) {
                Some(child) => {
                    let child_node_key = node_key.gen_child_node_key(child.version, child_index);
                    match self.probe_at(child_node_key, version, group, depth + 1, hash_cache) {
                        Ok(Some(leaf)) => leaf,
                        Ok(None) => {
                            assert(!child_insertable(store, u, key, slots, kvs@, n));
                            return Ok(None);
                        },
                        Err(error) => {
                            return Err(error);
                        },
                    }
                },
                None => {
                    assert(separable(None::<LeafNode<K>>, group@, (depth + 1) as nat)) by {
                        reveal(separable);
                    }
                    if !knows_new_nodes::<K>(
                        new_key.nibble_path(),
                        version,
                        None,
                        group,
                        depth + 1,
                        hash_cache,
                    ) {
                        assert(!child_insertable(store, u, key, slots, kvs@, n));
                        return Ok(None);
                    }
                    proof {
                        if !one_key(None::<LeafNode<K>>, group@) {
                            lemma_built_depth(None::<LeafNode<K>>, group@, path.push(n));
                        }
                    }
                    group.len() == 1
                },
            };
            let ghost before = kinds@;
            kinds.set(child_index.value as usize, Some(leaf));
            proof {
                assert(child_insertable(store, u, key, slots, kvs@, n));
                assert(child_complete(store, key, slots, kvs@, n));
                assert(kinds@[n as int] == kind_of(
                    inserted_child(store, u, key, slots, kvs@, n),
                ));
                assert forall|m: int| 0 <= m < 16 implies #[trigger] kinds@[m] == kind_of(
                    if m < n + 1 {
                        inserted_child(store, u, key, slots, kvs@, m as u8)
                    } else {
                        slots[m]
                    },
                ) by {
                    if m != n {
                        assert(kinds@[m] == before[m]);
                        if lo <= m < n {
                            assert(bucket(kvs@, depth as nat, m as u8).len() == 0);
                        }
                    }
                }
                assert forall|m: u8|
                    m < n + 1 && #[trigger] bucket(kvs@, depth as nat, m).len() > 0 implies
                    child_complete(store, key, slots, kvs@, m) && child_insertable(
                    store,
                    u,
                    key,
                    slots,
                    kvs@,
                    m,
                ) by {
                    if lo <= m < n {
                        assert(bucket(kvs@, depth as nat, m).len() == 0);
                    }
                }
            }
            i += 1;
        }
        let ghost new_slots = inserted(store, u, key, kvs@)->Internal_0;
        proof {
            lemma_between_ranges(kvs@, depth as nat, ranges@, i as int);
            lemma_last_range(kvs@, depth as nat, ranges@);
            let lo = nibble_after(kvs@, depth as nat, ranges@, i as int);
            assert forall|m: int| 0 <= m < 16 implies #[trigger] kinds@[m] == kind_of(
                new_slots[m],
            ) by {
                assert(new_slots[m] == inserted_child(store, u, key, slots, kvs@, m as u8));
                if m >= lo {
                    assert(bucket(kvs@, depth as nat, m as u8).len() == 0);
                }
            }
            assert forall|m: u8|
                m < 16 && #[trigger] bucket(kvs@, depth as nat, m).len() > 0 implies
                child_complete(store, key, slots, kvs@, m) && child_insertable(
                store,
                u,
                key,
                slots,
                kvs@,
                m,
            ) by {
                if m >= lo {
                    assert(bucket(kvs@, depth as nat, m).len() == 0);
                }
            }
            assert(complete(store, key, kvs@));
        }
        if is_logical(&kinds, Ghost(new_slots)) {
            Ok(Some(false))
        } else {
            Ok(None)
        }
    }

    /// Tells whether `value_set` can be applied: the nodes that are asked for make up a tree, the hash
    /// of each new node is known if `node_hashes` are given, and a tree comes of it. Where a node is
    /// missing or the store fails, that is told in its place.
    pub fn is_updatable<'b>(
        &self,
        value_set: &Vec<(HashValue, &'b (HashValue, K))>,
        node_hashes: Option<&NodeHashes>,
        persisted_version: Option<Version>,
        version: Version,
    ) -> (r: Result<bool, TreeError>)
        requires
            cache_wf(node_hashes),
        ensures
            match r {
                Ok(can) => can == updatable(
                    self.store(),
                    update_of(version, node_hashes),
                    persisted_version,
                    sorted_set(value_set@),
                ),
                Err(TreeError::MissingNode(missing)) => persisted_version is Some && misses(
                    self.store(),
                    NodeKeyView::root(persisted_version.unwrap()),
                    sorted_set(value_set@),
                    missing@,
                ),
                Err(TreeError::Storage(error)) => persisted_version is Some && fails(
                    self.reader,
                    NodeKeyView::root(persisted_version.unwrap()),
                    sorted_set(value_set@),
                    error,
                ),
                Err(_) => false,
            },
    {
        let deduped_and_sorted_kvs = dedup_and_sort(value_set);
        let kvs = deduped_and_sorted_kvs.as_slice();
        proof {
            lemma_sorted_set(value_set@);
            assert(all_under(kvs@, Seq::empty())) by {
                reveal(all_under);
            }
            assert(separable(None::<LeafNode<K>>, kvs@, 0)) by {
                reveal(separable);
            }
        }
        match persisted_version {
            Some(persisted_version) => match self.probe_at(
                NodeKey::new_empty_path(persisted_version),
                version,
                kvs,
                0,
                node_hashes,
            ) {
                Ok(kind) => Ok(kind.is_some()),
                Err(error) => Err(error),
            },
            None => Ok(
                kvs.len() > 0 && knows_new_nodes::<K>(
                    &NibblePath::new_empty(),
                    version,
                    None,
                    kvs,
                    0,
                    node_hashes,
                ),
            ),
        }
    }
}

} // verus!
