//! What holds of calls whatever the store holds: which nodes are asked for, what is found at the end of the
//! way, and which node is reported as missing.
use vstd::prelude::*;

use crate::batch::TreeUpdateBatch;
use crate::hash::{lemma_nibble_range, HashValue};
use crate::lookup::{lookup, on_way, Lookup};
use crate::merkle_proof::SparseMerkleProof;
use crate::node_type::{
    descend, lemma_descend, Child, LeafNode, NodeKey, NodeKeyView, NodeView, Version,
};
use crate::put_laws::{lemma_fails_somewhere, names};
use crate::laws::lemma_last_counts;
use crate::ranges::{bucket, lemma_bucket};
use crate::reader::{Key, StorageError, TreeError, TreeReader};
use crate::sorted::{agree, lemma_sorted_set, precedes, sorted_set};
use crate::tree::{JellyfishMerkleTree, NodeHashes};
use crate::update::{
    child_complete, child_key, child_misses, complete, has_key, misses, KeyValue, Store,
};

verus! {

/// Whether the way to a key with nibble `n` at this depth goes on at child `m`: at the child of that nibble,
/// or, if there is none, at a leaf that stands in its place.
pub open spec fn goes_to(slots: Seq<Option<Child>>, n: u8, m: u8) -> bool {
    &&& m < 16
    &&& slots[m as int] is Some
    &&& m == n || (slots[n as int] is None && slots[m as int].unwrap().node_type is Leaf)
}

/// Whether `way` leads down from its first node towards `key`, where that node lies at `depth`: each node but
/// the last is an internal node of the store, and the next one is the child at which the way goes on.
pub open spec fn is_way<K>(store: Store<K>, key: HashValue, depth: nat, way: Seq<NodeKeyView>) -> bool {
    &&& way.len() > 0
    &&& forall|i: int|
        0 <= i < way.len() - 1 ==> is_step(
            store,
            #[trigger] way[i],
            key.nibble_at(depth + i),
            way[i + 1],
        )
}

/// Whether the way goes from the node at `from` to the node at `to`, for a key with nibble `n` there.
pub open spec fn is_step<K>(store: Store<K>, from: NodeKeyView, n: u8, to: NodeKeyView) -> bool {
    &&& store.contains_key(from)
    &&& store[from] matches NodeView::Internal(slots) && exists|m: u8| #[trigger]
        goes_to(slots, n, m) && to == (NodeKeyView {
            version: slots[m as int].unwrap().version,
            path: from.path.push(m),
        })
}

/// The way that a lookup goes.
proof fn lemma_way<K>(store: Store<K>, node_key: NodeKeyView, key: HashValue, depth: nat) -> (way: Seq<
    NodeKeyView,
>)
    requires
        depth <= 64,
    ensures
        is_way(store, key, depth, way),
        way[0] == node_key,
        way.len() <= 65 - depth,
        match lookup(store, node_key, key, depth) {
            Lookup::Missing(missing) => way.last() == missing && !store.contains_key(missing),
            Lookup::TooDeep => way.len() == 65 - depth && store.contains_key(way.last())
                && store[way.last()] is Internal,
            Lookup::Nothing(_) => {
                &&& way.len() <= 64 - depth
                &&& store.contains_key(way.last())
                &&& store[way.last()] matches NodeView::Internal(slots)
                    && slots[key.nibble_at(depth + way.len() - 1) as int] is None
            },
            Lookup::Leaf(leaf, _) => store.contains_key(way.last()) && store[way.last()]
                == NodeView::Leaf(leaf),
        },
    decreases 64 - depth,
{
    let here = seq![node_key];
    assert(is_way(store, key, depth, here));
    if store.contains_key(node_key) {
        match store[node_key] {
            NodeView::Internal(slots) => {
                if depth < 64 {
                    let n = key.nibble_at(depth as int);
                    lemma_nibble_range(key, depth as int);
                    lemma_descend(slots, n as int, 0, 16);
                    match descend(slots, n as int, 0, 16).0 {
                        Some(i) => {
                            let next = child_key(node_key, slots[i].unwrap(), i as u8);
                            let rest = lemma_way(store, next, key, depth + 1);
                            let way = here + rest;
                            assert(goes_to(slots, n, i as u8));
                            assert forall|j: int| 0 <= j < way.len() - 1 implies is_step(
                                store,
                                #[trigger] way[j],
                                key.nibble_at(depth + j),
                                way[j + 1],
                            ) by {
                                if j > 0 {
                                    assert(is_step(
                                        store,
                                        rest[j - 1],
                                        key.nibble_at(depth + 1 + (j - 1)),
                                        rest[j],
                                    ));
                                }
                            }
                            assert(way.last() == rest.last());
                            way
                        },
                        None => here,
                    }
                } else {
                    here
                }
            },
            NodeView::Leaf(_) => here,
        }
    } else {
        here
    }
}

/// Whatever the store holds, a read that does not fail has gone down from the root to a leaf that is in the
/// store, or to an internal node of the store that has nothing where the key would be. In the first case
/// the leaf is shown, and its value is given exactly if the leaf's key is the key; in the second case no
/// leaf is shown and no value is given. So nothing is told of a key on whose way a node is missing.
pub proof fn lemma_get_with_proof_way<'a, R: TreeReader<K> + Sync, K: Key>(
    tree: &JellyfishMerkleTree<'a, R, K>,
    key: HashValue,
    version: Version,
    value: Option<(HashValue, (K, Version))>,
    shown: SparseMerkleProof,
) -> (way: Seq<NodeKeyView>)
    requires
        call_ensures(
            JellyfishMerkleTree::<'a, R, K>::get_with_proof,
            (tree, key, version),
            Ok::<(Option<(HashValue, (K, Version))>, SparseMerkleProof), TreeError>((value, shown)),
        ),
    ensures
        ({
            let store = tree.reader.nodes();
            &&& is_way(store, key, 0, way)
            &&& way[0] == (NodeKeyView { version, path: Seq::empty() })
            &&& store.contains_key(way.last())
            &&& match store[way.last()] {
                NodeView::Leaf(leaf) => {
                    &&& shown.leaf matches Some(end) && end.key == leaf.account_key
                        && end.value_hash == leaf.value_hash
                    &&& value == if leaf.account_key == key {
                        Some((leaf.value_hash, leaf.value_index))
                    } else {
                        None
                    }
                },
                NodeView::Internal(slots) => {
                    &&& way.len() <= 64
                    &&& slots[key.nibble_at(way.len() - 1) as int] is None
                    &&& shown.leaf is None
                    &&& value is None
                },
            }
        }),
{
    lemma_way(tree.reader.nodes(), NodeKeyView::root(version), key, 0)
}

/// Whatever the store holds, a read reports as missing the first node on the way to the key that the store
/// does not have, unless that is the root; and that it ran out of nibbles only if it went through more
/// internal nodes than a key has nibbles. It reports that the root is missing only if it is, or cannot be
/// read, and an error of the store only if another node on the way cannot be read. It never reports
/// anything else.
pub proof fn lemma_get_with_proof_error_way<'a, R: TreeReader<K> + Sync, K: Key>(
    tree: &JellyfishMerkleTree<'a, R, K>,
    key: HashValue,
    version: Version,
    error: TreeError,
) -> (way: Seq<NodeKeyView>)
    requires
        call_ensures(
            JellyfishMerkleTree::<'a, R, K>::get_with_proof,
            (tree, key, version),
            Err::<(Option<(HashValue, (K, Version))>, SparseMerkleProof), TreeError>(error),
        ),
    ensures
        ({
            let store = tree.reader.nodes();
            &&& is_way(store, key, 0, way)
            &&& way[0] == (NodeKeyView { version, path: Seq::empty() })
            &&& match error {
                TreeError::MissingNode(missing) => way.last() == missing@ && !store.contains_key(
                    missing@,
                ) && way.len() > 1,
                TreeError::RanOutOfNibbles => way.len() == 65 && store.contains_key(way.last())
                    && store[way.last()] is Internal,
                TreeError::MissingRoot(missing) => missing.version == version && (
                !store.contains_key(way[0]) || exists|e: StorageError|
                    tree.reader.may_fail_with(way[0], e)),
                TreeError::Storage(e) => way.len() > 1 && tree.reader.may_fail_with(way.last(), e),
                _ => false,
            }
        }),
{
    let store = tree.reader.nodes();
    let root = NodeKeyView::root(version);
    if let TreeError::Storage(e) = error {
        let k = choose|k: NodeKeyView|
            k != root && #[trigger] on_way(store, root, key, 0, k) && tree.reader.may_fail_with(k, e);
        lemma_way_to(store, root, key, 0, k)
    } else {
        lemma_way(store, root, key, 0)
    }
}

/// The way to a node that is asked for.
proof fn lemma_way_to<K>(
    store: Store<K>,
    node_key: NodeKeyView,
    key: HashValue,
    depth: nat,
    k: NodeKeyView,
) -> (way: Seq<NodeKeyView>)
    requires
        depth <= 64,
        on_way(store, node_key, key, depth, k),
    ensures
        is_way(store, key, depth, way),
        way[0] == node_key,
        way.last() == k,
        k != node_key ==> way.len() > 1,
    decreases 64 - depth,
{
    let here = seq![node_key];
    assert(is_way(store, key, depth, here));
    if k == node_key {
        here
    } else {
        let slots = store[node_key]->Internal_0;
        let n = key.nibble_at(depth as int);
        lemma_nibble_range(key, depth as int);
        lemma_descend(slots, n as int, 0, 16);
        let i = descend(slots, n as int, 0, 16).0.unwrap();
        let next = child_key(node_key, slots[i].unwrap(), i as u8);
        let rest = lemma_way_to(store, next, key, depth + 1, k);
        let way = here + rest;
        assert(goes_to(slots, n, i as u8));
        assert forall|j: int| 0 <= j < way.len() - 1 implies is_step(
            store,
            #[trigger] way[j],
            key.nibble_at(depth + j),
            way[j + 1],
        ) by {
            if j > 0 {
                assert(is_step(store, rest[j - 1], key.nibble_at(depth + 1 + (j - 1)), rest[j]));
            }
        }
        assert(way.last() == rest.last());
        way
    }
}

/// Whether `way` leads down from its first node, which lies at `depth`, to the place of `key`, nibble by
/// nibble: each node but the last is an internal node of the store, and the next one is its child at the
/// nibble of the key.
pub open spec fn is_straight_way<K>(
    store: Store<K>,
    key: HashValue,
    depth: nat,
    way: Seq<NodeKeyView>,
) -> bool {
    &&& 0 < way.len() <= 65 - depth
    &&& forall|i: int|
        0 <= i < way.len() - 1 ==> is_straight_step(
            store,
            #[trigger] way[i],
            key.nibble_at(depth + i),
            way[i + 1],
        )
}

/// Whether the node at `to` is the child at nibble `n` of the node at `from`.
pub open spec fn is_straight_step<K>(
    store: Store<K>,
    from: NodeKeyView,
    n: u8,
    to: NodeKeyView,
) -> bool {
    &&& store.contains_key(from)
    &&& store[from] matches NodeView::Internal(slots) && slots[n as int] matches Some(child) && to == (
        NodeKeyView { version: child.version, path: from.path.push(n) })
}

/// Where no node is missing, there is a node at the end of each straight way to one of the keys.
proof fn lemma_complete_way<'b, K>(
    store: Store<K>,
    key: NodeKeyView,
    kvs: Seq<KeyValue<'b, K>>,
    at: HashValue,
    way: Seq<NodeKeyView>,
)
    requires
        complete(store, key, kvs),
        has_key(kvs, at),
        way.len() > 0,
        way[0] == key,
        key.path.len() <= 64,
        is_straight_way(store, at, key.path.len(), way),
    ensures
        store.contains_key(way.last()),
    decreases way.len(),
{
    if way.len() > 1 {
        let d = key.path.len();
        let n = at.nibble_at(d as int);
        let rest = way.drop_first();
        assert(is_straight_step(store, way[0], at.nibble_at(d as int + 0), way[1]));
        lemma_nibble_range(at, d as int);
        lemma_bucket_has(kvs, d, at);
        let slots = store[key]->Internal_0;
        assert(child_complete(store, key, slots, kvs, n));
        assert forall|i: int| 0 <= i < rest.len() - 1 implies is_straight_step(
            store,
            #[trigger] rest[i],
            at.nibble_at(d + 1 + i),
            rest[i + 1],
        ) by {
            assert(is_straight_step(store, way[i + 1], at.nibble_at(d + (i + 1)), way[i + 2]));
        }
        assert(rest[0] == child_key(key, slots[n as int].unwrap(), n));
        lemma_complete_way(store, rest[0], bucket(kvs, d, n), at, rest);
        assert(rest.last() == way.last());
    }
}

/// A key is among those of its bucket.
proof fn lemma_bucket_has<V>(kvs: Seq<(HashValue, V)>, depth: nat, key: HashValue)
    requires
        has_key(kvs, key),
    ensures
        has_key(bucket(kvs, depth, key.nibble_at(depth as int)), key),
        bucket(kvs, depth, key.nibble_at(depth as int)).len() > 0,
{
    let n = key.nibble_at(depth as int);
    let b = bucket(kvs, depth, n);
    lemma_bucket(kvs, depth, n);
    let i = choose|i: int| 0 <= i < kvs.len() && (#[trigger] kvs[i]).0 == key;
    assert(b.contains(kvs[i]));
    let j = choose|j: int| 0 <= j < b.len() && b[j] == kvs[i];
    assert(b[j].0 == key);
}

/// A missing node is at the end of a straight way to one of the keys.
proof fn lemma_missing_way<'b, K>(
    store: Store<K>,
    key: NodeKeyView,
    kvs: Seq<KeyValue<'b, K>>,
    missing: NodeKeyView,
) -> (r: (HashValue, Seq<NodeKeyView>))
    requires
        misses(store, key, kvs, missing),
        kvs.len() > 0,
        key.path.len() <= 64,
    ensures
        has_key(kvs, r.0),
        is_straight_way(store, r.0, key.path.len(), r.1),
        r.1[0] == key,
        r.1.last() == missing,
        !store.contains_key(missing),
    decreases 64 - key.path.len(),
{
    let here = seq![key];
    if !store.contains_key(key) {
        assert(kvs[0].0 == kvs[0].0);
        assert(is_straight_way(store, kvs[0].0, key.path.len(), here));
        (kvs[0].0, here)
    } else {
        let d = key.path.len();
        let slots = store[key]->Internal_0;
        let n = choose|n: u8|
            n < 16 && #[trigger] bucket(kvs, d, n).len() > 0 && child_misses(
                store,
                key,
                slots,
                kvs,
                n,
                missing,
            );
        let next = child_key(key, slots[n as int].unwrap(), n);
        let below = bucket(kvs, d, n);
        let (at, rest) = lemma_missing_way(store, next, below, missing);
        lemma_bucket(kvs, d, n);
        let i = choose|i: int| 0 <= i < below.len() && (#[trigger] below[i]).0 == at;
        assert(below.contains(below[i]));
        let j = choose|j: int| 0 <= j < kvs.len() && kvs[j] == below[i];
        assert(kvs[j].0 == at);
        assert(at.nibble_at(d as int) == n);
        let way = here + rest;
        assert forall|x: int| 0 <= x < way.len() - 1 implies is_straight_step(
            store,
            #[trigger] way[x],
            at.nibble_at(d + x),
            way[x + 1],
        ) by {
            if x > 0 {
                assert(is_straight_step(
                    store,
                    rest[x - 1],
                    at.nibble_at(d + 1 + (x - 1)),
                    rest[x],
                ));
            }
        }
        assert(way.last() == rest.last());
        (at, way)
    }
}

/// Whatever the store holds, a call that writes on top of a base and does not fail has found a node at the
/// end of each straight way from the root of the base to a key of the value set. A subtree that is missing
/// is never taken for an empty one.
pub proof fn lemma_put_way<'a, 'b, R: TreeReader<K> + Sync, K: Key>(
    tree: &JellyfishMerkleTree<'a, R, K>,
    value_set: Vec<KeyValue<'b, K>>,
    node_hashes: Option<&NodeHashes>,
    base: Version,
    version: Version,
    root_hash: HashValue,
    batch: TreeUpdateBatch<K>,
    key: HashValue,
    way: Seq<NodeKeyView>,
)
    requires
        call_ensures(
            JellyfishMerkleTree::<'a, R, K>::batch_put_value_set,
            (tree, value_set, node_hashes, Some(base), version),
            Ok::<(HashValue, TreeUpdateBatch<K>), TreeError>((root_hash, batch)),
        ),
        names(value_set@, key),
        is_straight_way(tree.reader.nodes(), key, 0, way),
        way[0] == (NodeKeyView { version: base, path: Seq::empty() }),
    ensures
        tree.reader.nodes().contains_key(way.last()),
{
    lemma_last_counts(value_set@, key);
    assert(has_key(value_set@, key) == names(value_set@, key));
    lemma_complete_way(
        tree.reader.nodes(),
        NodeKeyView::root(base),
        sorted_set(value_set@),
        key,
        way,
    );
}

/// Whatever the store holds, a node that a call reports as missing is one that the store does not have, at
/// the end of a straight way from the root of the base to a key of the value set. A call without a base
/// never fails.
pub proof fn lemma_put_missing<'a, 'b, R: TreeReader<K> + Sync, K: Key>(
    tree: &JellyfishMerkleTree<'a, R, K>,
    value_set: Vec<KeyValue<'b, K>>,
    node_hashes: Option<&NodeHashes>,
    base: Option<Version>,
    version: Version,
    error: TreeError,
) -> (r: (HashValue, Seq<NodeKeyView>))
    requires
        call_ensures(
            JellyfishMerkleTree::<'a, R, K>::batch_put_value_set,
            (tree, value_set, node_hashes, base, version),
            Err::<(HashValue, TreeUpdateBatch<K>), TreeError>(error),
        ),
        value_set@.len() > 0,
    ensures
        base is Some,
        match error {
            TreeError::MissingNode(missing) => {
                let (key, way) = r;
                &&& names(value_set@, key)
                &&& is_straight_way(tree.reader.nodes(), key, 0, way)
                &&& way[0] == (NodeKeyView { version: base.unwrap(), path: Seq::empty() })
                &&& way.last() == missing@
                &&& !tree.reader.nodes().contains_key(missing@)
            },
            TreeError::Storage(e) => exists|k: NodeKeyView| tree.reader.may_fail_with(k, e),
            _ => false,
        },
{
    let kvs = sorted_set(value_set@);
    lemma_sorted_set(value_set@);
    if let TreeError::MissingNode(missing) = error {
        let r = lemma_missing_way(
            tree.reader.nodes(),
            NodeKeyView::root(base.unwrap()),
            kvs,
            missing@,
        );
        lemma_last_counts(value_set@, r.0);
        assert(has_key(value_set@, r.0) == names(value_set@, r.0));
        r
    } else {
        if let TreeError::Storage(e) = error {
            lemma_fails_somewhere(tree.reader, NodeKeyView::root(base.unwrap()), kvs, e);
        }
        (value_set@[0].0, Seq::empty())
    }
}

/// Where all nodes of a store are of one version, a call for the rightmost leaf gives a leaf of the store that
/// no other leaf lies on the right of: any other one has a smaller nibble where their keys first differ. If
/// it gives none, there is no leaf.
pub proof fn lemma_rightmost_leaf<R: TreeReader<K>, K>(
    reader: &R,
    version: Version,
    r: Result<Option<(NodeKey, LeafNode<K>)>, StorageError>,
)
    requires
        call_ensures(R::get_rightmost_leaf, (reader,), r),
        forall|k: NodeKeyView| #[trigger] reader.nodes().contains_key(k) ==> k.version == version,
    ensures
        match r {
            Ok(Some((node_key, leaf))) => {
                &&& reader.nodes().contains_key(node_key@)
                &&& reader.nodes()[node_key@] == NodeView::Leaf(leaf)
                &&& forall|k: NodeKeyView, other: LeafNode<K>|
                    reader.nodes().contains_key(k) && #[trigger] reader.nodes()[k] == NodeView::Leaf(
                        other,
                    ) ==> other.account_key == leaf.account_key || #[trigger] is_left_of(
                        other.account_key,
                        leaf.account_key,
                    )
            },
            Ok(None) => forall|k: NodeKeyView| #[trigger]
                reader.nodes().contains_key(k) ==> !(reader.nodes()[k] is Leaf),
            Err(error) => exists|k: NodeKeyView| reader.may_fail_with(k, error),
        },
{
    if let Ok(Some((node_key, leaf))) = r {
        assert forall|k: NodeKeyView, other: LeafNode<K>|
            reader.nodes().contains_key(k) && #[trigger] reader.nodes()[k] == NodeView::Leaf(
                other,
            ) implies other.account_key == leaf.account_key || #[trigger] is_left_of(
            other.account_key,
            leaf.account_key,
        ) by {
            let a = other.account_key.nibbles();
            let b = leaf.account_key.nibbles();
            if other.account_key != leaf.account_key {
                assert(precedes(a, b));
                let i = choose|i: int| #[trigger]
                    agree(a, b, i) && i < b.len() && (i == a.len() || a[i] < b[i]);
                assert forall|j: int| 0 <= j < i implies #[trigger] other.account_key.nibble_at(j)
                    == leaf.account_key.nibble_at(j) by {
                    assert(a[j] == b[j]);
                }
                assert(a[i] < b[i]);
                assert(other.account_key.nibble_at(i) < leaf.account_key.nibble_at(i));
            }
        }
    }
}

/// Whether `a` has the smaller nibble where two keys first differ.
pub open spec fn is_left_of(a: HashValue, b: HashValue) -> bool {
    exists|i: int|
        0 <= i < 64 && #[trigger] a.nibble_at(i) < b.nibble_at(i) && forall|j: int|
            0 <= j < i ==> #[trigger] a.nibble_at(j) == b.nibble_at(j)
}

} // verus!
