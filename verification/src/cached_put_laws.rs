//! What holds of calls that write with hashes that are known beforehand.
use vstd::prelude::*;

use crate::batch::{Changes, NodeEntry, TreeUpdateBatch};
use crate::cache_laws::{lemma_cached_hashes, uncached};
use crate::content::{content_hash, lemma_child_holds, lemma_holds_keys, part, tree_holds, Content};
use crate::hash::HashValue;
use crate::laws::{lemma_last_counts, lemma_update};
use crate::node_type::{leaf_count_upto, Child, LeafNode, NodeKeyView, NodeView, Version};
use crate::put_laws::{
    is_committed, is_put_in, lemma_batch_view, lemma_committed_batch, lemma_entry_of_child,
    lemma_put_in, lemma_put_in_unique, makes_tree, names, starts_from,
};
use crate::ranges::{all_under, bucket, has_prefix};
use crate::reader::{Key, TreeError, TreeReader};
use crate::sorted::{lemma_map_entries, lemma_sorted_set, sorted, sorted_set, Digits};
use crate::tree::{update_of, JellyfishMerkleTree, NodeHashes};
use crate::update::{
    built, built_changes, built_child, built_entries, built_entries_below, child_changes, child_key,
    has_key, insert_changes, insert_changes_below, inserted, inserted_child, leaf_bucket,
    lemma_bucket_sorted, lemma_changes_below_wf, lemma_child_changes_wf, moved_entry, moved_path,
    one_key, outdated, updatable, update_changes, KeyValue, Store, Update,
};
use crate::write_laws::{
    child_holds, lemma_bucket_keys, lemma_built_changes_holds, lemma_built_places,
    lemma_child_places, lemma_insert_holds_internal, lemma_insert_holds_leaf, lemma_insert_places,
    lemma_lies_under, lemma_outdated_holds, lemma_prefix_below, lies_under, truthful, under,
    updated,
};

verus! {

/// What an update with the caller's hashes knows of a path.
proof fn lemma_known_hash(version: Version, hashes: &NodeHashes, i: int)
    requires
        hashes.wf(),
        0 <= i < hashes.entries@.len(),
    ensures
        update_of(version, Some(hashes)).hashes is Some,
        update_of(version, Some(hashes)).hashes.unwrap().contains_key(hashes.entries@[i].0@),
        update_of(version, Some(hashes)).hashes.unwrap()[hashes.entries@[i].0@]
            == hashes.entries@[i].1,
{
    lemma_map_entries(*hashes);
}

/// If the hashes that a caller hands in have the hash of each node that a call without any hashes writes, by
/// the path of the node, a call with them returns the same root hash and the same batch. It does not
/// matter what else they have.
pub proof fn lemma_put_with_hashes<'a, 'b, R: TreeReader<K> + Sync, K: Key>(
    tree: &JellyfishMerkleTree<'a, R, K>,
    value_set: Vec<KeyValue<'b, K>>,
    hashes: &NodeHashes,
    base: Option<Version>,
    version: Version,
    plain_root: HashValue,
    plain: TreeUpdateBatch<K>,
    root_hash: HashValue,
    batch: TreeUpdateBatch<K>,
)
    requires
        call_ensures(
            JellyfishMerkleTree::<'a, R, K>::batch_put_value_set,
            (tree, value_set, None::<&NodeHashes>, base, version),
            Ok::<(HashValue, TreeUpdateBatch<K>), TreeError>((plain_root, plain)),
        ),
        call_ensures(
            JellyfishMerkleTree::<'a, R, K>::batch_put_value_set,
            (tree, value_set, Some(hashes), base, version),
            Ok::<(HashValue, TreeUpdateBatch<K>), TreeError>((root_hash, batch)),
        ),
        updatable(tree.reader.nodes(), update_of(version, None), base, sorted_set(value_set@)),
        hashes.wf(),
        forall|i: int, j: int|
            0 <= i < plain.node_batch@.len() && 0 <= j < plain.node_batch@[i]@.len() ==> has_hash(
                hashes,
                (#[trigger] plain.node_batch@[i]@[j]).0@.path,
                plain.node_batch@[i]@[j].1@.hash(),
            ),
    ensures
        root_hash == plain_root,
        batch@ == plain@,
        batch.node_batch@.len() == plain.node_batch@.len(),
        forall|i: int|
            0 <= i < batch.node_batch@.len() ==> (#[trigger] batch.node_batch@[i])@.len()
                == plain.node_batch@[i]@.len(),
        forall|i: int, j: int|
            0 <= i < batch.node_batch@.len() && 0 <= j < batch.node_batch@[i]@.len() ==> (
            #[trigger] batch.node_batch@[i]@[j]).0@ == plain.node_batch@[i]@[j].0@
                && batch.node_batch@[i]@[j].1@ == plain.node_batch@[i]@[j].1@,
        batch.num_new_leaves == plain.num_new_leaves,
        batch.num_stale_leaves == plain.num_stale_leaves,
        updatable(
            tree.reader.nodes(),
            update_of(version, Some(hashes)),
            base,
            sorted_set(value_set@),
        ),
{
    let store = tree.reader.nodes();
    let u = update_of(version, Some(hashes));
    let kvs = sorted_set(value_set@);
    assert(uncached(u) == update_of(version, None));
    let c = update_changes(store, uncached(u), base, kvs);
    lemma_batch_view(plain);
    assert forall|e: NodeEntry<K>| #[trigger] c.holds(e) implies u.hashes.unwrap().contains_key(
        e.0.path,
    ) && u.hashes.unwrap()[e.0.path] == e.1.hash() by {
        assert(plain@.holds(e));
        let (i, j) = choose|i: int, j: int|
            0 <= i < plain.node_batch@.len() && 0 <= j < plain.node_batch@[i]@.len() && e == (
                (#[trigger] plain.node_batch@[i]@[j]).0@,
                plain.node_batch@[i]@[j].1@,
            );
        assert(has_hash(
            hashes,
            plain.node_batch@[i]@[j].0@.path,
            plain.node_batch@[i]@[j].1@.hash(),
        ));
        let m = choose|m: int|
            0 <= m < hashes.entries@.len() && (#[trigger] hashes.entries@[m]).0@ == e.0.path
                && hashes.entries@[m].1 == e.1.hash();
        lemma_known_hash(version, hashes, m);
    }
    lemma_cached_hashes(store, u, base, kvs);
    assert(batch@.nodes.len() == batch.node_batch@.len());
    assert(plain@.nodes.len() == plain.node_batch@.len());
    assert forall|i: int| 0 <= i < batch.node_batch@.len() implies (
    #[trigger] batch.node_batch@[i])@.len() == plain.node_batch@[i]@.len() by {
        assert(batch@.nodes[i].len() == plain@.nodes[i].len());
    }
    assert forall|i: int, j: int|
        0 <= i < batch.node_batch@.len() && 0 <= j < batch.node_batch@[i]@.len() implies (
    #[trigger] batch.node_batch@[i]@[j]).0@ == plain.node_batch@[i]@[j].0@
        && batch.node_batch@[i]@[j].1@ == plain.node_batch@[i]@[j].1@ by {
        assert(batch@.nodes[i][j] == plain@.nodes[i][j]);
    }
    assert(batch@.new_leaves == plain@.new_leaves && batch@.stale_leaves == plain@.stale_leaves);
}

/// Whether `part` is what `content` has below `path`.
pub open spec fn is_part_below<K>(content: Content<K>, path: Seq<u8>, part: Content<K>) -> bool {
    &&& forall|k: HashValue| #[trigger]
        part.contains_key(k) <==> content.contains_key(k) && has_prefix(k, path)
    &&& forall|k: HashValue| #[trigger] part.contains_key(k) ==> part[k] == content[k]
}

/// If each hash that a caller hands in is the hash of what the new version is to hold below its path, then,
/// once the batch is committed, the tree at the new version holds what the tree at the base version holds
/// with the pairs put into it, and the hash of that is the root hash that the call returned.
pub proof fn lemma_put_with_true_hashes<'a, 'b, R: TreeReader<K> + Sync, K: Key>(
    tree: &JellyfishMerkleTree<'a, R, K>,
    value_set: Vec<KeyValue<'b, K>>,
    hashes: &NodeHashes,
    base: Option<Version>,
    version: Version,
    content: Content<K>,
    new: Content<K>,
    root_hash: HashValue,
    batch: TreeUpdateBatch<K>,
    after: Store<K>,
)
    requires
        call_ensures(
            JellyfishMerkleTree::<'a, R, K>::batch_put_value_set,
            (tree, value_set, Some(hashes), base, version),
            Ok::<(HashValue, TreeUpdateBatch<K>), TreeError>((root_hash, batch)),
        ),
        updatable(
            tree.reader.nodes(),
            update_of(version, Some(hashes)),
            base,
            sorted_set(value_set@),
        ),
        hashes.wf(),
        starts_from(tree.reader.nodes(), base, content),
        is_put_in(content, value_set@, version, new),
        forall|i: int, part: Content<K>|
            0 <= i < hashes.entries@.len() && #[trigger] is_part_below(
                new,
                hashes.entries@[i].0@,
                part,
            ) ==> hashes.entries@[i].1 == content_hash(part, 4 * hashes.entries@[i].0@.len()),
        is_committed(tree.reader.nodes(), after, batch),
    ensures
        tree_holds(after, NodeKeyView::root(version), new),
        root_hash == content_hash(new, 0),
{
    let store = tree.reader.nodes();
    let u = update_of(version, Some(hashes));
    let kvs = sorted_set(value_set@);
    lemma_sorted_set(value_set@);
    lemma_put_in(u, content, value_set@);
    lemma_put_in_unique(content, value_set@, version, new, updated(u, content, kvs));
    lemma_committed_batch(store, after, batch);
    assert(truthful(u, new)) by {
        reveal(truthful);
        assert forall|p: Seq<u8>| #[trigger]
            u.hashes.unwrap().contains_key(p) implies u.hashes.unwrap()[p] == content_hash(
            under(new, p),
            4 * p.len(),
        ) by {
            let i = choose|i: int|
                0 <= i < hashes.entries.len() && (#[trigger] hashes.entries[i]).0.digits() == p;
            lemma_known_hash(version, hashes, i);
            assert(is_part_below(new, hashes.entries@[i].0@, under(new, p)));
        }
    }
    lemma_update(store, after, u, base, content, kvs);
}

/// Whether the hashes have `hash` under `path`.
pub open spec fn has_hash(hashes: &NodeHashes, path: Seq<u8>, hash: HashValue) -> bool {
    exists|i: int|
        0 <= i < hashes.entries@.len() && (#[trigger] hashes.entries@[i]).0@ == path
            && hashes.entries@[i].1 == hash
}

/// Whether two children are the same but for their hashes.
pub open spec fn same_but_hash(a: Option<Child>, b: Option<Child>) -> bool {
    match (a, b) {
        (Some(x), Some(y)) => x.version == y.version && x.node_type == y.node_type,
        (None, None) => true,
        _ => false,
    }
}

/// Whether two nodes are the same leaf, or internal nodes that are the same but for the hashes of their
/// children.
pub open spec fn same_shape<K>(a: NodeView<K>, b: NodeView<K>) -> bool {
    match (a, b) {
        (NodeView::Leaf(x), NodeView::Leaf(y)) => x == y,
        (NodeView::Internal(s), NodeView::Internal(t)) => s.len() == t.len() && forall|n: int|
            0 <= n < s.len() ==> same_but_hash(#[trigger] s[n], #[trigger] t[n]),
        _ => false,
    }
}

/// Whether two lists have nodes of the same shape under the same keys.
spec fn alike<K>(a: Seq<NodeEntry<K>>, b: Seq<NodeEntry<K>>) -> bool {
    a.len() == b.len() && forall|i: int|
        0 <= i < a.len() ==> (#[trigger] a[i]).0 == (#[trigger] b[i]).0 && same_shape(a[i].1, b[i].1)
}

/// Whether two changes differ in the hashes of children only.
spec fn alike_changes<K>(a: Changes<K>, b: Changes<K>) -> bool {
    &&& a.nodes.len() == b.nodes.len()
    &&& forall|i: int| 0 <= i < a.nodes.len() ==> alike(#[trigger] a.nodes[i], #[trigger] b.nodes[i])
    &&& a.stale == b.stale
    &&& a.new_leaves == b.new_leaves
    &&& a.stale_leaves == b.stale_leaves
}

/// Nodes of the same shape are the same to their parents.
proof fn lemma_same_type<K>(a: NodeView<K>, b: NodeView<K>)
    requires
        same_shape(a, b),
        a is Internal ==> a->Internal_0.len() == 16,
    ensures
        a.node_type() == b.node_type(),
{
    if a is Internal {
        lemma_same_count(a->Internal_0, b->Internal_0, 16);
    }
}

proof fn lemma_same_count(s: Seq<Option<Child>>, t: Seq<Option<Child>>, n: nat)
    requires
        s.len() == t.len(),
        n <= s.len(),
        forall|n: int| 0 <= n < s.len() ==> same_but_hash(#[trigger] s[n], #[trigger] t[n]),
    ensures
        leaf_count_upto(s, n) == leaf_count_upto(t, n),
    decreases n,
{
    if n > 0 {
        lemma_same_count(s, t, (n - 1) as nat);
        assert(same_but_hash(s[n - 1], t[n - 1]));
    }
}

proof fn lemma_alike_join<K>(
    a: Seq<NodeEntry<K>>,
    b: Seq<NodeEntry<K>>,
    c: Seq<NodeEntry<K>>,
    d: Seq<NodeEntry<K>>,
)
    requires
        alike(a, b),
        alike(c, d),
    ensures
        alike(a + c, b + d),
{
    let x = a + c;
    let y = b + d;
    assert forall|i: int| 0 <= i < x.len() implies (#[trigger] x[i]).0 == (#[trigger] y[i]).0
        && same_shape(x[i].1, y[i].1) by {
        if i < a.len() {
            assert(a[i].0 == b[i].0);
        } else {
            assert(c[i - a.len()].0 == d[i - a.len()].0);
        }
    }
}

/// New subtrees differ in the hashes of children only.
proof fn lemma_built_shape<'b, K>(
    u: Update,
    leaf: Option<LeafNode<K>>,
    kvs: Seq<KeyValue<'b, K>>,
    path: Seq<u8>,
)
    ensures
        same_shape(built(u, leaf, kvs, path), built(uncached(u), leaf, kvs, path)),
        built(u, leaf, kvs, path).node_type() == built(uncached(u), leaf, kvs, path).node_type(),
        alike(built_entries(u, leaf, kvs, path), built_entries(uncached(u), leaf, kvs, path)),
    decreases 64 - path.len(), 17nat,
{
    let v = uncached(u);
    let a = built(u, leaf, kvs, path);
    let b = built(v, leaf, kvs, path);
    let own = seq![(u.key(path), a)];
    let plain_own = seq![(v.key(path), b)];
    if !one_key(leaf, kvs) && path.len() < 64 {
        lemma_built_shape_below(u, leaf, kvs, path, 16);
        let s = a->Internal_0;
        let t = b->Internal_0;
        assert forall|n: int| 0 <= n < s.len() implies same_but_hash(
            #[trigger] s[n],
            #[trigger] t[n],
        ) by {
            assert(same_but_hash(
                built_child(u, leaf, kvs, path, n as u8),
                built_child(v, leaf, kvs, path, n as u8),
            ));
        }
        let moved = moved_entry(u, leaf, kvs, path);
        let below = built_entries_below(u, leaf, kvs, path, 16);
        let plain_below = built_entries_below(v, leaf, kvs, path, 16);
        assert(moved == moved_entry(v, leaf, kvs, path));
        assert(alike(moved, moved));
        assert(alike(own, plain_own));
        lemma_alike_join(below, plain_below, moved, moved);
        lemma_alike_join(below + moved, plain_below + moved, own, plain_own);
    } else {
        assert(alike(own, plain_own));
    }
    lemma_same_type(a, b);
}

proof fn lemma_built_shape_below<'b, K>(
    u: Update,
    leaf: Option<LeafNode<K>>,
    kvs: Seq<KeyValue<'b, K>>,
    path: Seq<u8>,
    n: nat,
)
    requires
        path.len() < 64,
        n <= 16,
    ensures
        forall|m: u8|
            m < n ==> same_but_hash(
                #[trigger] built_child(u, leaf, kvs, path, m),
                built_child(uncached(u), leaf, kvs, path, m),
            ),
        alike(
            built_entries_below(u, leaf, kvs, path, n),
            built_entries_below(uncached(u), leaf, kvs, path, n),
        ),
    decreases 64 - path.len(), n,
{
    if n > 0 {
        let v = uncached(u);
        let at = (n - 1) as u8;
        let kvs_below = bucket(kvs, path.len(), at);
        let leaf_below = leaf_bucket(leaf, path.len(), at);
        lemma_built_shape_below(u, leaf, kvs, path, (n - 1) as nat);
        if kvs_below.len() > 0 {
            lemma_built_shape(u, leaf_below, kvs_below, path.push(at));
            lemma_alike_join(
                built_entries_below(u, leaf, kvs, path, (n - 1) as nat),
                built_entries_below(v, leaf, kvs, path, (n - 1) as nat),
                built_entries(u, leaf_below, kvs_below, path.push(at)),
                built_entries(v, leaf_below, kvs_below, path.push(at)),
            );
        }
        assert(same_but_hash(
            built_child(u, leaf, kvs, path, at),
            built_child(v, leaf, kvs, path, at),
        ));
    }
}

/// Changes at a node differ in the hashes of children only.
proof fn lemma_insert_shape<'b, K>(
    store: Store<K>,
    u: Update,
    key: NodeKeyView,
    kvs: Seq<KeyValue<'b, K>>,
)
    ensures
        same_shape(inserted(store, u, key, kvs), inserted(store, uncached(u), key, kvs)),
        inserted(store, u, key, kvs).node_type() == inserted(
            store,
            uncached(u),
            key,
            kvs,
        ).node_type(),
        alike_changes(
            insert_changes(store, u, key, kvs),
            insert_changes(store, uncached(u), key, kvs),
        ),
    decreases 64 - key.path.len(), 18nat,
{
    let v = uncached(u);
    let a = inserted(store, u, key, kvs);
    let b = inserted(store, v, key, kvs);
    match store[key] {
        NodeView::Leaf(leaf) => {
            lemma_built_shape(u, Some(leaf), kvs, key.path);
            let x = built_entries(u, Some(leaf), kvs, key.path);
            let y = built_entries(v, Some(leaf), kvs, key.path);
            lemma_alike_join(Seq::empty(), Seq::empty(), x, y);
        },
        NodeView::Internal(slots) => {
            if key.path.len() < 64 {
                lemma_insert_shape_below(store, u, key, slots, kvs, 16);
                let s = a->Internal_0;
                let t = b->Internal_0;
                assert forall|n: int| 0 <= n < s.len() implies same_but_hash(
                    #[trigger] s[n],
                    #[trigger] t[n],
                ) by {
                    assert(same_but_hash(
                        inserted_child(store, u, key, slots, kvs, n as u8),
                        inserted_child(store, v, key, slots, kvs, n as u8),
                    ));
                }
                lemma_same_type(a, b);
                let x = insert_changes_below(store, u, key, slots, kvs, 16);
                let y = insert_changes_below(store, v, key, slots, kvs, 16);
                lemma_changes_below_wf(store, u, key, slots, kvs, 16);
                let own = seq![(u.key(key.path), a)];
                let plain_own = seq![(v.key(key.path), b)];
                assert(alike(own, plain_own));
                lemma_alike_join(x.nodes[0], y.nodes[0], own, plain_own);
            } else {
                assert(a == b);
            }
        },
    }
}

proof fn lemma_insert_shape_below<'b, K>(
    store: Store<K>,
    u: Update,
    key: NodeKeyView,
    slots: Seq<Option<Child>>,
    kvs: Seq<KeyValue<'b, K>>,
    n: nat,
)
    requires
        key.path.len() < 64,
        n <= 16,
    ensures
        forall|m: u8|
            m < n ==> same_but_hash(
                #[trigger] inserted_child(store, u, key, slots, kvs, m),
                inserted_child(store, uncached(u), key, slots, kvs, m),
            ),
        alike_changes(
            insert_changes_below(store, u, key, slots, kvs, n),
            insert_changes_below(store, uncached(u), key, slots, kvs, n),
        ),
    decreases 64 - key.path.len(), n,
{
    let v = uncached(u);
    if n > 0 {
        let at = (n - 1) as u8;
        let kvs_below = bucket(kvs, key.path.len(), at);
        let path_below = key.path.push(at);
        lemma_insert_shape_below(store, u, key, slots, kvs, (n - 1) as nat);
        let x = insert_changes_below(store, u, key, slots, kvs, (n - 1) as nat);
        let y = insert_changes_below(store, v, key, slots, kvs, (n - 1) as nat);
        if kvs_below.len() > 0 {
            let more = child_changes(store, u, key, slots, kvs, at);
            let plain_more = child_changes(store, v, key, slots, kvs, at);
            match slots[at as int] {
                Some(child) => {
                    let next = child_key(key, child, at);
                    lemma_insert_shape(store, u, next, kvs_below);
                    assert(more == insert_changes(store, u, next, kvs_below));
                    assert(plain_more == insert_changes(store, v, next, kvs_below));
                },
                None => {
                    lemma_built_shape(u, None::<LeafNode<K>>, kvs_below, path_below);
                    lemma_alike_join(
                        Seq::empty(),
                        Seq::empty(),
                        built_entries(u, None::<LeafNode<K>>, kvs_below, path_below),
                        built_entries(v, None::<LeafNode<K>>, kvs_below, path_below),
                    );
                    assert(more == built_changes(u, None, kvs_below, path_below));
                    assert(plain_more == built_changes(v, None, kvs_below, path_below));
                },
            }
            assert(alike_changes(more, plain_more));
            lemma_changes_below_wf(store, u, key, slots, kvs, (n - 1) as nat);
            lemma_child_changes_wf(store, u, key, slots, kvs, at);
            lemma_alike_combine(x, y, more, plain_more);
        }
        assert(same_but_hash(
            inserted_child(store, u, key, slots, kvs, at),
            inserted_child(store, v, key, slots, kvs, at),
        ));
    } else {
        assert(outdated::<K>(u, key) == outdated::<K>(v, key));
    }
}

proof fn lemma_alike_combine<K>(a: Changes<K>, b: Changes<K>, c: Changes<K>, d: Changes<K>)
    requires
        alike_changes(a, b),
        alike_changes(c, d),
        a.wf(),
        c.wf(),
    ensures
        alike_changes(a.combine(c), b.combine(d)),
        alike_changes(a.absorb(c), b.absorb(d)),
{
    let x = a.combine(c).nodes;
    let y = b.combine(d).nodes;
    assert forall|i: int| 0 <= i < x.len() implies alike(#[trigger] x[i], #[trigger] y[i]) by {
        if i < a.nodes.len() {
            assert(alike(a.nodes[i], b.nodes[i]));
        } else {
            assert(alike(c.nodes[i - a.nodes.len()], d.nodes[i - a.nodes.len()]));
        }
    }
    let x = a.absorb(c).nodes;
    let y = b.absorb(d).nodes;
    assert(alike(a.nodes[0], b.nodes[0]));
    assert(alike(c.nodes[0], d.nodes[0]));
    lemma_alike_join(a.nodes[0], b.nodes[0], c.nodes[0], d.nodes[0]);
    assert forall|i: int| 0 <= i < x.len() implies alike(#[trigger] x[i], #[trigger] y[i]) by {
        if 0 < i < a.nodes.len() {
            assert(alike(a.nodes[i], b.nodes[i]));
        } else if i >= a.nodes.len() {
            assert(alike(c.nodes[i - a.nodes.len() + 1], d.nodes[i - a.nodes.len() + 1]));
        }
    }
}

/// Whatever hashes are handed in, a call with them returns the same batch as a call without, but for the
/// hashes that nodes have of their children: the same nodes under the same keys in the same places, with
/// the same leaves, the same children and the same counts, and the same stale nodes.
pub proof fn lemma_put_shape<'a, 'b, R: TreeReader<K> + Sync, K: Key>(
    tree: &JellyfishMerkleTree<'a, R, K>,
    value_set: Vec<KeyValue<'b, K>>,
    hashes: &NodeHashes,
    base: Option<Version>,
    version: Version,
    plain_root: HashValue,
    plain: TreeUpdateBatch<K>,
    root_hash: HashValue,
    batch: TreeUpdateBatch<K>,
)
    requires
        call_ensures(
            JellyfishMerkleTree::<'a, R, K>::batch_put_value_set,
            (tree, value_set, None::<&NodeHashes>, base, version),
            Ok::<(HashValue, TreeUpdateBatch<K>), TreeError>((plain_root, plain)),
        ),
        call_ensures(
            JellyfishMerkleTree::<'a, R, K>::batch_put_value_set,
            (tree, value_set, Some(hashes), base, version),
            Ok::<(HashValue, TreeUpdateBatch<K>), TreeError>((root_hash, batch)),
        ),
    ensures
        batch.node_batch@.len() == plain.node_batch@.len(),
        forall|i: int|
            0 <= i < batch.node_batch@.len() ==> (#[trigger] batch.node_batch@[i])@.len()
                == plain.node_batch@[i]@.len(),
        forall|i: int, j: int|
            0 <= i < batch.node_batch@.len() && 0 <= j < batch.node_batch@[i]@.len() ==> (
            #[trigger] batch.node_batch@[i]@[j]).0@ == plain.node_batch@[i]@[j].0@ && same_shape(
                batch.node_batch@[i]@[j].1@,
                plain.node_batch@[i]@[j].1@,
            ),
        batch@.stale == plain@.stale,
        batch.num_new_leaves == plain.num_new_leaves,
        batch.num_stale_leaves == plain.num_stale_leaves,
{
    let store = tree.reader.nodes();
    let u = update_of(version, Some(hashes));
    let kvs = sorted_set(value_set@);
    assert(uncached(u) == update_of(version, None));
    match base {
        Some(base_version) => {
            lemma_insert_shape(store, u, NodeKeyView::root(base_version), kvs);
        },
        None => {
            lemma_built_shape(u, None::<LeafNode<K>>, kvs, Seq::empty());
            lemma_alike_join(
                Seq::empty(),
                Seq::empty(),
                built_entries(u, None::<LeafNode<K>>, kvs, Seq::empty()),
                built_entries(uncached(u), None::<LeafNode<K>>, kvs, Seq::empty()),
            );
        },
    }
    assert(alike_changes(batch@, plain@));
    assert forall|i: int| 0 <= i < batch.node_batch@.len() implies (
    #[trigger] batch.node_batch@[i])@.len() == plain.node_batch@[i]@.len() by {
        assert(alike(batch@.nodes[i], plain@.nodes[i]));
    }
    assert forall|i: int, j: int|
        0 <= i < batch.node_batch@.len() && 0 <= j < batch.node_batch@[i]@.len() implies (
    #[trigger] batch.node_batch@[i]@[j]).0@ == plain.node_batch@[i]@[j].0@ && same_shape(
        batch.node_batch@[i]@[j].1@,
        plain.node_batch@[i]@[j].1@,
    ) by {
        assert(alike(batch@.nodes[i], plain@.nodes[i]));
        assert(batch@.nodes[i][j].0 == plain@.nodes[i][j].0);
    }
}

/// What is written at the path of a new subtree is its first node.
proof fn lemma_built_first<'b, K>(
    u: Update,
    leaf: Option<LeafNode<K>>,
    kvs: Seq<KeyValue<'b, K>>,
    path: Seq<u8>,
    e: NodeEntry<K>,
)
    requires
        built_entries(u, leaf, kvs, path).contains(e),
        e.0.path == path,
    ensures
        e.1 == built(u, leaf, kvs, path),
{
    let all = built_entries(u, leaf, kvs, path);
    let i = choose|i: int| 0 <= i < all.len() && all[i] == e;
    if !one_key(leaf, kvs) && path.len() < 64 && i < all.len() - 1 {
        let below = built_entries_below(u, leaf, kvs, path, 16);
        if i < below.len() {
            assert(below[i] == e);
            assert(below.contains(e));
            let n = lemma_entry_of_child(u, leaf, kvs, path, 16, e);
            lemma_built_places(
                u,
                leaf_bucket(leaf, path.len(), n),
                bucket(kvs, path.len(), n),
                path.push(n),
            );
            lemma_lies_under(e.0.path, path, n);
        } else {
            assert(moved_entry(u, leaf, kvs, path)[i - below.len()] == e);
            assert(e.0.path == moved_path(leaf.unwrap(), path));
        }
    }
}

/// What is written at the path of a node is the node in its place.
proof fn lemma_inserted_first<'b, K>(
    store: Store<K>,
    u: Update,
    key: NodeKeyView,
    kvs: Seq<KeyValue<'b, K>>,
    e: NodeEntry<K>,
)
    requires
        insert_changes(store, u, key, kvs).holds(e),
        e.0.path == key.path,
    ensures
        e.1 == inserted(store, u, key, kvs),
{
    match store[key] {
        NodeView::Leaf(leaf) => {
            lemma_insert_holds_leaf(store, u, key, kvs);
            lemma_built_first(u, Some(leaf), kvs, key.path, e);
        },
        NodeView::Internal(slots) => {
            if key.path.len() >= 64 {
                lemma_outdated_holds::<K>(u, key);
            } else {
                lemma_insert_holds_internal(store, u, key, kvs);
                if e != (u.key(key.path), inserted(store, u, key, kvs)) {
                    let m = choose|m: u8|
                        m < 16 && #[trigger] child_holds(store, u, key, slots, kvs, m, e);
                    lemma_child_places(store, u, key, slots, kvs, m);
                    lemma_lies_under(e.0.path, key.path, m);
                }
            }
        },
    }
}

/// What a parent knows of a child that is written with it: the child's version and type, and the hash that
/// is known of it, or, for a leaf that only moves and whose key is not among the new ones, the leaf's own.
spec fn records<'b, K>(
    u: Update,
    kvs: Seq<KeyValue<'b, K>>,
    parent: NodeEntry<K>,
    n: u8,
    node: NodeView<K>,
) -> bool {
    &&& parent.1 is Internal
    &&& parent.1->Internal_0[n as int] matches Some(child) && {
        &&& child.version == u.version
        &&& child.node_type == node.node_type()
        &&& child.hash == if node is Leaf && !has_key(kvs, node->Leaf_0.account_key) {
            node.hash()
        } else {
            u.hash_of(parent.0.path.push(n), node)
        }
    }
}

/// A leaf of a new subtree is a leaf of a new key, or the leaf that was there.
proof fn lemma_built_leaf<'b, K>(
    u: Update,
    leaf: Option<LeafNode<K>>,
    kvs: Seq<KeyValue<'b, K>>,
    path: Seq<u8>,
)
    requires
        kvs.len() > 0,
        built(u, leaf, kvs, path) is Leaf,
    ensures
        has_key(kvs, built(u, leaf, kvs, path)->Leaf_0.account_key),
{
    assert(kvs[0].0 == built(u, leaf, kvs, path)->Leaf_0.account_key);
}

/// What parents know of their children in a new subtree.
proof fn lemma_built_records<'b, K>(
    u: Update,
    leaf: Option<LeafNode<K>>,
    kvs: Seq<KeyValue<'b, K>>,
    path: Seq<u8>,
    parent: NodeEntry<K>,
    n: u8,
    child: NodeEntry<K>,
)
    requires
        kvs.len() > 0,
        sorted(kvs),
        all_under(kvs, path),
        leaf is Some ==> has_prefix(leaf.unwrap().account_key, path),
        built_entries(u, leaf, kvs, path).contains(parent),
        built_entries(u, leaf, kvs, path).contains(child),
        child.0.path == parent.0.path.push(n),
        n < 16,
    ensures
        records(u, kvs, parent, n, child.1),
    decreases 64 - path.len(),
{
    let all = built_entries(u, leaf, kvs, path);
    let d = path.len();
    lemma_built_places(u, leaf, kvs, path);
    if one_key(leaf, kvs) || path.len() >= 64 {
        assert(parent.0.path == path && child.0.path == path);
        assert(child.0.path.len() == parent.0.path.len() + 1);
        assert(false);
    }
    let below = built_entries_below(u, leaf, kvs, path, 16);
    let i = choose|i: int| 0 <= i < all.len() && all[i] == parent;
    let j = choose|j: int| 0 <= j < all.len() && all[j] == child;
    assert(child.0.path.len() == parent.0.path.len() + 1);
    if i == all.len() - 1 {
        assert(parent.0.path == path);
        assert(parent.1 == built(u, leaf, kvs, path));
        assert(parent.1->Internal_0[n as int] == built_child(u, leaf, kvs, path, n));
        if j < below.len() {
            assert(below[j] == child);
            assert(below.contains(child));
            let m = lemma_entry_of_child(u, leaf, kvs, path, 16, child);
            let leaf_below = leaf_bucket(leaf, d, m);
            let kvs_below = bucket(kvs, d, m);
            lemma_built_places(u, leaf_below, kvs_below, path.push(m));
            assert(child.0.path[d as int] == path.push(m)[d as int]);
            assert(m == n);
            lemma_built_first(u, leaf_below, kvs_below, path.push(n), child);
            if child.1 is Leaf {
                lemma_built_leaf(u, leaf_below, kvs_below, path.push(n));
                lemma_bucket_keys(kvs, path, n);
            }
        } else {
            assert(moved_entry(u, leaf, kvs, path)[j - below.len()] == child);
            let key = leaf.unwrap().account_key;
            assert(child.0.path == moved_path(leaf.unwrap(), path));
            assert(child.0.path[d as int] == key.nibble_at(d as int));
            assert(n == key.nibble_at(d as int));
            lemma_bucket_keys(kvs, path, n);
            assert(!has_key(bucket(kvs, d, n), key));
            assert(!has_key(kvs, key));
        }
    } else if i < below.len() {
        assert(below[i] == parent);
        assert(below.contains(parent));
        let m = lemma_entry_of_child(u, leaf, kvs, path, 16, parent);
        let leaf_below = leaf_bucket(leaf, d, m);
        let kvs_below = bucket(kvs, d, m);
        lemma_built_places(u, leaf_below, kvs_below, path.push(m));
        assert(lies_under(child.0.path, path.push(m))) by {
            assert forall|x: int| 0 <= x < path.push(m).len() implies #[trigger] child.0.path[x]
                == path.push(m)[x] by {
                assert(parent.0.path[x] == path.push(m)[x]);
            }
        }
        lemma_lies_under(child.0.path, path, m);
        if j < below.len() {
            assert(below[j] == child);
            assert(below.contains(child));
            let o = lemma_entry_of_child(u, leaf, kvs, path, 16, child);
            lemma_built_places(
                u,
                leaf_bucket(leaf, d, o),
                bucket(kvs, d, o),
                path.push(o),
            );
            assert(lies_under(child.0.path, path.push(o)));
            assert(o == m);
            lemma_bucket_sorted(kvs, path, m);
            if leaf_below is Some {
                lemma_prefix_below(leaf.unwrap().account_key, path, m);
            }
            lemma_built_records(u, leaf_below, kvs_below, path.push(m), parent, n, child);
            lemma_bucket_keys(kvs, path, m);
            lemma_leaf_prefix(u, leaf_below, kvs_below, path.push(m), child);
        } else if j < all.len() - 1 {
            assert(moved_entry(u, leaf, kvs, path)[j - below.len()] == child);
            assert(child.0.path.len() == d + 1);
            assert(false);
        } else {
            assert(child.0.path == path);
            assert(false);
        }
    } else {
        // a leaf that moves has nothing below it
        assert(moved_entry(u, leaf, kvs, path)[i - below.len()] == parent);
        assert(parent.0.path.len() == d + 1);
        let o = leaf.unwrap().account_key.nibble_at(d as int);
        if j < below.len() {
            assert(below[j] == child);
            assert(below.contains(child));
            let m = lemma_entry_of_child(u, leaf, kvs, path, 16, child);
            lemma_built_places(
                u,
                leaf_bucket(leaf, d, m),
                bucket(kvs, d, m),
                path.push(m),
            );
            assert(child.0.path[d as int] == path.push(m)[d as int]);
            assert(parent.0.path[d as int] == o);
            assert(m == o);
            assert(false);
        } else if j < all.len() - 1 {
            assert(moved_entry(u, leaf, kvs, path)[j - below.len()] == child);
            assert(false);
        } else {
            assert(false);
        }
    }
}

/// The keys of the leaves of a new subtree lie below its path.
proof fn lemma_leaf_prefix<'b, K>(
    u: Update,
    leaf: Option<LeafNode<K>>,
    kvs: Seq<KeyValue<'b, K>>,
    path: Seq<u8>,
    e: NodeEntry<K>,
)
    requires
        kvs.len() > 0,
        sorted(kvs),
        all_under(kvs, path),
        leaf is Some ==> has_prefix(leaf.unwrap().account_key, path),
        built_entries(u, leaf, kvs, path).contains(e),
    ensures
        e.1 is Leaf ==> has_prefix(e.1->Leaf_0.account_key, path),
    decreases 64 - path.len(),
{
    reveal(all_under);
    let all = built_entries(u, leaf, kvs, path);
    let d = path.len();
    let i = choose|i: int| 0 <= i < all.len() && all[i] == e;
    assert(has_prefix(kvs[0].0, path));
    if !one_key(leaf, kvs) && path.len() < 64 && i < all.len() - 1 {
        let below = built_entries_below(u, leaf, kvs, path, 16);
        if i < below.len() {
            assert(below[i] == e);
            assert(below.contains(e));
            let n = lemma_entry_of_child(u, leaf, kvs, path, 16, e);
            lemma_bucket_sorted(kvs, path, n);
            let leaf_below = leaf_bucket(leaf, d, n);
            if leaf_below is Some {
                lemma_prefix_below(leaf.unwrap().account_key, path, n);
            }
            lemma_leaf_prefix(u, leaf_below, bucket(kvs, d, n), path.push(n), e);
            if e.1 is Leaf {
                let k = e.1->Leaf_0.account_key;
                assert forall|x: int| 0 <= x < path.len() implies #[trigger] k.nibble_at(x)
                    == path[x] by {
                    assert(k.nibble_at(x) == path.push(n)[x]);
                }
            }
        } else {
            assert(moved_entry(u, leaf, kvs, path)[i - below.len()] == e);
        }
    }
}

/// The keys of the leaves that are written below a node lie below its path.
proof fn lemma_inserted_leaf_prefix<'b, K>(
    store: Store<K>,
    u: Update,
    key: NodeKeyView,
    content: Content<K>,
    kvs: Seq<KeyValue<'b, K>>,
    e: NodeEntry<K>,
)
    requires
        tree_holds(store, key, content),
        sorted(kvs),
        all_under(kvs, key.path),
        kvs.len() > 0 || store[key] is Internal,
        insert_changes(store, u, key, kvs).holds(e),
    ensures
        e.1 is Leaf ==> has_prefix(e.1->Leaf_0.account_key, key.path),
    decreases 64 - key.path.len(),
{
    match store[key] {
        NodeView::Leaf(leaf) => {
            lemma_insert_holds_leaf(store, u, key, kvs);
            lemma_leaf_prefix(u, Some(leaf), kvs, key.path, e);
        },
        NodeView::Internal(slots) => {
            lemma_insert_holds_internal(store, u, key, kvs);
            if e != (u.key(key.path), inserted(store, u, key, kvs)) {
                let d = key.path.len();
                let n = choose|n: u8|
                    n < 16 && #[trigger] child_holds(store, u, key, slots, kvs, n, e);
                let kvs_below = bucket(kvs, d, n);
                let path_below = key.path.push(n);
                let more = child_changes(store, u, key, slots, kvs, n);
                lemma_bucket_sorted(kvs, key.path, n);
                lemma_child_holds(store, key, content, n);
                match slots[n as int] {
                    Some(child) => {
                        let next = child_key(key, child, n);
                        assert(more == insert_changes(store, u, next, kvs_below));
                        lemma_inserted_leaf_prefix(
                            store,
                            u,
                            next,
                            part(content, d, n),
                            kvs_below,
                            e,
                        );
                    },
                    None => {
                        assert(more == built_changes(u, None, kvs_below, path_below));
                        lemma_built_changes_holds(u, None::<LeafNode<K>>, kvs_below, path_below);
                        lemma_leaf_prefix(u, None::<LeafNode<K>>, kvs_below, path_below, e);
                    },
                }
                if e.1 is Leaf {
                    let k = e.1->Leaf_0.account_key;
                    assert forall|x: int| 0 <= x < key.path.len() implies #[trigger] k.nibble_at(x)
                        == key.path[x] by {
                        assert(k.nibble_at(x) == path_below[x]);
                    }
                }
            }
        },
    }
}

/// What parents know of their children in changes to a tree.
proof fn lemma_inserted_records<'b, K>(
    store: Store<K>,
    u: Update,
    key: NodeKeyView,
    content: Content<K>,
    kvs: Seq<KeyValue<'b, K>>,
    parent: NodeEntry<K>,
    n: u8,
    child: NodeEntry<K>,
)
    requires
        tree_holds(store, key, content),
        sorted(kvs),
        all_under(kvs, key.path),
        kvs.len() > 0 || store[key] is Internal,
        insert_changes(store, u, key, kvs).holds(parent),
        insert_changes(store, u, key, kvs).holds(child),
        child.0.path == parent.0.path.push(n),
        n < 16,
    ensures
        records(u, kvs, parent, n, child.1),
    decreases 64 - key.path.len(),
{
    assert(child.0.path.len() == parent.0.path.len() + 1);
    match store[key] {
        NodeView::Leaf(leaf) => {
            lemma_insert_holds_leaf(store, u, key, kvs);
            lemma_built_records(u, Some(leaf), kvs, key.path, parent, n, child);
        },
        NodeView::Internal(slots) => {
            let d = key.path.len();
            let own = (u.key(key.path), inserted(store, u, key, kvs));
            lemma_insert_holds_internal(store, u, key, kvs);
            lemma_insert_places(store, u, key, kvs);
            if child == own {
                assert(lies_under(parent.0.path, key.path));
                assert(false);
            }
            let m = choose|m: u8| m < 16 && #[trigger] child_holds(store, u, key, slots, kvs, m, child);
            let kvs_below = bucket(kvs, d, m);
            let path_below = key.path.push(m);
            let more = child_changes(store, u, key, slots, kvs, m);
            lemma_child_places(store, u, key, slots, kvs, m);
            assert(lies_under(child.0.path, path_below));
            lemma_lies_under(child.0.path, key.path, m);
            lemma_bucket_sorted(kvs, key.path, m);
            lemma_child_holds(store, key, content, m);
            lemma_bucket_keys(kvs, key.path, m);
            if parent == own {
                assert(child.0.path[d as int] == path_below[d as int]);
                assert(m == n);
                assert(parent.1->Internal_0[n as int] == inserted_child(
                    store,
                    u,
                    key,
                    slots,
                    kvs,
                    n,
                ));
                match slots[m as int] {
                    Some(old_child) => {
                        let next = child_key(key, old_child, m);
                        assert(more == insert_changes(store, u, next, kvs_below));
                        lemma_inserted_first(store, u, next, kvs_below, child);
                        if child.1 is Leaf {
                            assert(store[next] is Leaf);
                            lemma_built_leaf(
                                u,
                                Some(store[next]->Leaf_0),
                                kvs_below,
                                next.path,
                            );
                        }
                    },
                    None => {
                        assert(more == built_changes(u, None, kvs_below, path_below));
                        lemma_built_changes_holds(u, None::<LeafNode<K>>, kvs_below, path_below);
                        lemma_built_first(u, None::<LeafNode<K>>, kvs_below, path_below, child);
                        if child.1 is Leaf {
                            lemma_built_leaf(u, None::<LeafNode<K>>, kvs_below, path_below);
                        }
                    },
                }
            } else {
                let o = choose|o: u8|
                    o < 16 && #[trigger] child_holds(store, u, key, slots, kvs, o, parent);
                lemma_child_places(store, u, key, slots, kvs, o);
                assert(lies_under(parent.0.path, key.path.push(o)));
                assert(lies_under(child.0.path, key.path.push(o))) by {
                    assert forall|x: int| 0 <= x < key.path.push(o).len() implies
                        #[trigger] child.0.path[x] == key.path.push(o)[x] by {
                        assert(parent.0.path[x] == key.path.push(o)[x]);
                    }
                }
                assert(o == m);
                match slots[m as int] {
                    Some(old_child) => {
                        let next = child_key(key, old_child, m);
                        assert(more == insert_changes(store, u, next, kvs_below));
                        lemma_inserted_records(
                            store,
                            u,
                            next,
                            part(content, d, m),
                            kvs_below,
                            parent,
                            n,
                            child,
                        );
                        lemma_inserted_leaf_prefix(
                            store,
                            u,
                            next,
                            part(content, d, m),
                            kvs_below,
                            child,
                        );
                    },
                    None => {
                        assert(more == built_changes(u, None, kvs_below, path_below));
                        lemma_built_changes_holds(u, None::<LeafNode<K>>, kvs_below, path_below);
                        lemma_built_records(
                            u,
                            None::<LeafNode<K>>,
                            kvs_below,
                            path_below,
                            parent,
                            n,
                            child,
                        );
                        lemma_leaf_prefix(u, None::<LeafNode<K>>, kvs_below, path_below, child);
                    },
                }
                if child.1 is Leaf {
                    let k = child.1->Leaf_0.account_key;
                    assert(k.nibble_at(d as int) == path_below[d as int]);
                    assert(has_key(kvs, k) == has_key(kvs_below, k));
                }
            }
        },
    }
}

/// With known hashes, the hash that a parent has of a child that is written with it is the one that the
/// caller's hashes have under the path of the child. Only a leaf that merely moves down, because its
/// key is not in the value set, counts with its own hash. Without known hashes each child counts with its
/// own hash.
pub proof fn lemma_put_records<'a, 'b, R: TreeReader<K> + Sync, K: Key>(
    tree: &JellyfishMerkleTree<'a, R, K>,
    value_set: Vec<KeyValue<'b, K>>,
    node_hashes: Option<&NodeHashes>,
    base: Option<Version>,
    version: Version,
    content: Content<K>,
    root_hash: HashValue,
    batch: TreeUpdateBatch<K>,
    i: int,
    j: int,
    n: u8,
    a: int,
    b: int,
)
    requires
        call_ensures(
            JellyfishMerkleTree::<'a, R, K>::batch_put_value_set,
            (tree, value_set, node_hashes, base, version),
            Ok::<(HashValue, TreeUpdateBatch<K>), TreeError>((root_hash, batch)),
        ),
        starts_from(tree.reader.nodes(), base, content),
        makes_tree(content, value_set@),
        node_hashes matches Some(hashes) ==> hashes.wf(),
        0 <= i < batch.node_batch@.len(),
        0 <= j < batch.node_batch@[i]@.len(),
        0 <= a < batch.node_batch@.len(),
        0 <= b < batch.node_batch@[a]@.len(),
        n < 16,
        batch.node_batch@[a]@[b].0@.path == batch.node_batch@[i]@[j].0@.path.push(n),
    ensures
        ({
            let parent = batch.node_batch@[i]@[j].1@;
            let path = batch.node_batch@[a]@[b].0@.path;
            let node = batch.node_batch@[a]@[b].1@;
            let moved = node is Leaf && !names(value_set@, node->Leaf_0.account_key);
            &&& parent is Internal
            &&& parent->Internal_0[n as int] matches Some(child) && {
                &&& child.version == version
                &&& child.node_type == node.node_type()
                &&& moved ==> child.hash == node.hash()
                &&& match node_hashes {
                    None => child.hash == node.hash(),
                    Some(hashes) => forall|m: int|
                        !moved && 0 <= m < hashes.entries@.len() && (
                        #[trigger] hashes.entries@[m]).0@ == path ==> child.hash
                            == hashes.entries@[m].1,
                }
            }
        }),
{
    let store = tree.reader.nodes();
    let u = update_of(version, node_hashes);
    let kvs = sorted_set(value_set@);
    let parent = batch.node_batch@[i]@[j];
    let child = batch.node_batch@[a]@[b];
    let parent_entry = (parent.0@, parent.1@);
    let child_entry = (child.0@, child.1@);
    let top = Seq::<u8>::empty();
    lemma_batch_view(batch);
    lemma_sorted_set(value_set@);
    assert(batch@.holds(parent_entry));
    assert(batch@.holds(child_entry));
    assert(all_under(kvs, top)) by {
        reveal(all_under);
    }
    match base {
        Some(base_version) => {
            let root = NodeKeyView::root(base_version);
            lemma_holds_keys(store, root, content);
            lemma_inserted_records(store, u, root, content, kvs, parent_entry, n, child_entry);
        },
        None => {
            lemma_built_changes_holds(u, None::<LeafNode<K>>, kvs, top);
            lemma_built_records(u, None::<LeafNode<K>>, kvs, top, parent_entry, n, child_entry);
        },
    }
    if child.1@ is Leaf {
        let k = child.1@->Leaf_0.account_key;
        lemma_last_counts(value_set@, k);
        assert(has_key(value_set@, k) == names(value_set@, k));
    }
    if let Some(hashes) = node_hashes {
        assert forall|m: int|
            0 <= m < hashes.entries@.len() && (#[trigger] hashes.entries@[m]).0@
                == child.0@.path implies u.hash_of(child.0@.path, child.1@)
            == hashes.entries@[m].1 by {
            lemma_known_hash(version, hashes, m);
        }
    }
}

} // verus!
