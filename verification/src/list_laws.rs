//! What holds of the lists of a batch: which changes are kept together and which are kept apart.
use vstd::prelude::*;

use crate::batch::{NodeEntry, StaleView, TreeUpdateBatch};
use crate::hash::HashValue;
use crate::lists::in_lists;
use crate::node_type::{Child, NodeKeyView, NodeView, Version};
use crate::ranges::bucket;
use crate::reader::{Key, TreeError, TreeReader};
use crate::sorted::sorted_set;
use crate::tree::{update_of, JellyfishMerkleTree, NodeHashes};
use crate::update::{
    built_changes, child_changes, child_key, insert_changes, insert_changes_below, inserted,
    KeyValue, Store, Update,
};
use crate::write_laws::{lemma_child_places, lemma_insert_places, lemma_lies_under, lies_under};

verus! {

/// The part of a tree that a place below the node at `key` belongs to. Down to the third level, each internal
/// node is a part of its own, and so is all that is below each of its places where there is no internal
/// node; further down, all that is below a node is one part. A part is known by the path of its first
/// node.
pub open spec fn part_of<K>(store: Store<K>, key: NodeKeyView, place: Seq<u8>) -> Seq<u8>
    decreases 3 - key.path.len(),
{
    match store[key] {
        NodeView::Internal(slots) => if key.path.len() < 3 && place.len() > key.path.len() {
            let n = place[key.path.len() as int];
            match slots[n as int] {
                Some(child) => part_of(
                    store,
                    NodeKeyView { version: child.version, path: key.path.push(n) },
                    place,
                ),
                None => key.path.push(n),
            }
        } else {
            key.path
        },
        NodeView::Leaf(_) => key.path,
    }
}

/// Whether each list of nodes, and the list of stale nodes with the same number, belongs to one of `parts`.
spec fn sorted_out<K>(
    store: Store<K>,
    key: NodeKeyView,
    nodes: Seq<Seq<NodeEntry<K>>>,
    stale: Seq<Seq<StaleView>>,
    parts: Seq<Seq<u8>>,
) -> bool {
    &&& nodes.len() == parts.len()
    &&& stale.len() == parts.len()
    &&& forall|i: int, j: int|
        0 <= i < nodes.len() && 0 <= j < nodes[i].len() ==> part_of(
            store,
            key,
            (#[trigger] nodes[i][j]).0.path,
        ) == parts[i]
    &&& forall|i: int, j: int|
        0 <= i < stale.len() && 0 <= j < stale[i].len() ==> part_of(
            store,
            key,
            (#[trigger] stale[i][j]).node_key.path,
        ) == parts[i]
    &&& forall|i: int, j: int| 0 <= i < j < parts.len() ==> #[trigger] parts[i] != #[trigger] parts[j]
    &&& forall|i: int| 0 <= i < parts.len() ==> lies_under(#[trigger] parts[i], key.path)
}

/// Below the third level there is one list of each kind.
proof fn lemma_one_list<'b, K>(
    store: Store<K>,
    u: Update,
    key: NodeKeyView,
    kvs: Seq<KeyValue<'b, K>>,
)
    requires
        key.path.len() >= 3 || store[key] is Leaf,
    ensures
        insert_changes(store, u, key, kvs).nodes.len() == 1,
        insert_changes(store, u, key, kvs).stale.len() == 1,
    decreases 64 - key.path.len(), 17nat,
{
    if let NodeView::Internal(slots) = store[key] {
        if key.path.len() < 64 {
            lemma_one_list_below(store, u, key, slots, kvs, 16);
        }
    }
}

proof fn lemma_one_list_below<'b, K>(
    store: Store<K>,
    u: Update,
    key: NodeKeyView,
    slots: Seq<Option<Child>>,
    kvs: Seq<KeyValue<'b, K>>,
    n: nat,
)
    requires
        3 <= key.path.len() < 64,
        n <= 16,
    ensures
        insert_changes_below(store, u, key, slots, kvs, n).nodes.len() == 1,
        insert_changes_below(store, u, key, slots, kvs, n).stale.len() == 1,
    decreases 64 - key.path.len(), n,
{
    if n > 0 {
        let at = (n - 1) as u8;
        lemma_one_list_below(store, u, key, slots, kvs, (n - 1) as nat);
        if bucket(kvs, key.path.len(), at).len() > 0 {
            let more = child_changes(store, u, key, slots, kvs, at);
            if let Some(child) = slots[at as int] {
                lemma_one_list(
                    store,
                    u,
                    child_key(key, child, at),
                    bucket(kvs, key.path.len(), at),
                );
            }
            assert(more.nodes.len() == 1 && more.stale.len() == 1);
        }
    }
}

/// The parts that the lists of changes at a node belong to.
proof fn lemma_sorted_out<'b, K>(
    store: Store<K>,
    u: Update,
    key: NodeKeyView,
    kvs: Seq<KeyValue<'b, K>>,
) -> (parts: Seq<Seq<u8>>)
    ensures
        ({
            let c = insert_changes(store, u, key, kvs);
            sorted_out(store, key, c.nodes, c.stale, parts)
        }),
    decreases 3 - key.path.len(), 17nat,
{
    let c = insert_changes(store, u, key, kvs);
    lemma_insert_places(store, u, key, kvs);
    if store[key] is Leaf || key.path.len() >= 3 {
        lemma_one_list(store, u, key, kvs);
        let parts = seq![key.path];
        assert(lies_under(key.path, key.path));
        parts
    } else {
        let slots = store[key]->Internal_0;
        let parts = lemma_sorted_out_below(store, u, key, slots, kvs, 16);
        let below = insert_changes_below(store, u, key, slots, kvs, 16);
        let own = (u.key(key.path), inserted(store, u, key, kvs));
        assert(c.nodes =~= seq![seq![own]] + below.nodes.skip(1)) by {
            assert(below.nodes[0] + seq![own] =~= seq![own]);
        }
        assert forall|i: int, j: int|
            0 <= i < c.nodes.len() && 0 <= j < c.nodes[i].len() implies part_of(
            store,
            key,
            (#[trigger] c.nodes[i][j]).0.path,
        ) == parts[i] by {
            if i > 0 {
                assert(c.nodes[i][j] == below.nodes[i][j]);
            } else {
                assert(c.nodes[0][j] == own);
            }
        }
        parts
    }
}

/// Whether a place lies below one of the first `n` children of the node at `path`.
spec fn is_below_first(place: Seq<u8>, path: Seq<u8>, n: nat) -> bool {
    exists|m: u8| m < n && #[trigger] lies_under(place, path.push(m))
}

/// The parts that the lists of changes below the first children of a node belong to: first that of the node
/// itself, whose list of nodes is still empty, and behind it those below its children.
proof fn lemma_sorted_out_below<'b, K>(
    store: Store<K>,
    u: Update,
    key: NodeKeyView,
    slots: Seq<Option<Child>>,
    kvs: Seq<KeyValue<'b, K>>,
    n: nat,
) -> (parts: Seq<Seq<u8>>)
    requires
        store[key] == NodeView::<K>::Internal(slots),
        key.path.len() < 3,
        n <= 16,
    ensures
        ({
            let c = insert_changes_below(store, u, key, slots, kvs, n);
            &&& sorted_out(store, key, c.nodes, c.stale, parts)
            &&& parts.len() > 0
            &&& parts[0] == key.path
            &&& c.nodes[0].len() == 0
            &&& forall|i: int|
                0 < i < parts.len() ==> is_below_first(#[trigger] parts[i], key.path, n)
        }),
    decreases 3 - key.path.len(), n,
{
    let c = insert_changes_below(store, u, key, slots, kvs, n);
    if n == 0 {
        let parts = seq![key.path];
        assert(lies_under(key.path, key.path));
        assert(c.stale[0] =~= seq![StaleView { stale_since_version: u.version, node_key: key }]);
        assert(sorted_out(store, key, c.nodes, c.stale, parts));
        parts
    } else {
        let at = (n - 1) as u8;
        let before = insert_changes_below(store, u, key, slots, kvs, (n - 1) as nat);
        let parts = lemma_sorted_out_below(store, u, key, slots, kvs, (n - 1) as nat);
        let kvs_below = bucket(kvs, key.path.len(), at);
        let path_below = key.path.push(at);
        if kvs_below.len() == 0 {
            assert forall|i: int| 0 < i < parts.len() implies is_below_first(
                #[trigger] parts[i],
                key.path,
                n,
            ) by {
                let m = choose|m: u8|
                    m < n - 1 && #[trigger] lies_under(parts[i], key.path.push(m));
                assert(m < n && lies_under(parts[i], key.path.push(m)));
            }
            assert(c == before);
            parts
        } else {
            let more = child_changes(store, u, key, slots, kvs, at);
            lemma_child_places(store, u, key, slots, kvs, at);
            let new_parts = match slots[at as int] {
                Some(child) => {
                    let next = child_key(key, child, at);
                    let new_parts = lemma_sorted_out(store, u, next, kvs_below);
                    assert(more == insert_changes(store, u, next, kvs_below));
                    new_parts
                },
                None => {
                    assert(more == built_changes(u, None, kvs_below, path_below));
                    assert(lies_under(path_below, path_below));
                    seq![path_below]
                },
            };
            assert(more.nodes.len() == new_parts.len() && more.stale.len() == new_parts.len());
            assert forall|i: int, j: int|
                0 <= i < more.nodes.len() && 0 <= j < more.nodes[i].len() implies part_of(
                store,
                key,
                (#[trigger] more.nodes[i][j]).0.path,
            ) == new_parts[i] by {
                let e = more.nodes[i][j];
                assert(more.holds(e)) by {
                    reveal(in_lists);
                }
                assert(lies_under(e.0.path, path_below));
                assert(e.0.path[key.path.len() as int] == path_below[key.path.len() as int]);
            }
            assert forall|i: int, j: int|
                0 <= i < more.stale.len() && 0 <= j < more.stale[i].len() implies part_of(
                store,
                key,
                (#[trigger] more.stale[i][j]).node_key.path,
            ) == new_parts[i] by {
                let s = more.stale[i][j];
                assert(more.lists(s)) by {
                    reveal(in_lists);
                }
                assert(lies_under(s.node_key.path, path_below));
                assert(s.node_key.path[key.path.len() as int] == path_below[key.path.len() as int]);
            }
            let all = parts + new_parts;
            assert(c == before.combine(more));
            assert forall|i: int, j: int|
                0 <= i < c.nodes.len() && 0 <= j < c.nodes[i].len() implies part_of(
                store,
                key,
                (#[trigger] c.nodes[i][j]).0.path,
            ) == all[i] by {
                if i < parts.len() {
                    assert(c.nodes[i][j] == before.nodes[i][j]);
                } else {
                    assert(c.nodes[i][j] == more.nodes[i - parts.len()][j]);
                }
            }
            assert forall|i: int, j: int|
                0 <= i < c.stale.len() && 0 <= j < c.stale[i].len() implies part_of(
                store,
                key,
                (#[trigger] c.stale[i][j]).node_key.path,
            ) == all[i] by {
                if i < parts.len() {
                    assert(c.stale[i][j] == before.stale[i][j]);
                } else {
                    assert(c.stale[i][j] == more.stale[i - parts.len()][j]);
                }
            }
            assert forall|i: int| 0 <= i < new_parts.len() implies lies_under(
                #[trigger] new_parts[i],
                path_below,
            ) by {}
            assert forall|i: int| 0 <= i < all.len() implies lies_under(
                #[trigger] all[i],
                key.path,
            ) by {
                if i >= parts.len() {
                    let p = new_parts[i - parts.len()];
                    assert(lies_under(p, path_below));
                    lemma_lies_under(p, key.path, at);
                } else {
                    assert(lies_under(parts[i], key.path));
                }
            }
            assert forall|i: int| 0 < i < all.len() implies is_below_first(
                #[trigger] all[i],
                key.path,
                n,
            ) by {
                if i >= parts.len() {
                    assert(lies_under(new_parts[i - parts.len()], path_below));
                    assert(at < n && lies_under(all[i], key.path.push(at)));
                } else {
                    assert(parts[i] == all[i]);
                    let m = choose|m: u8|
                        m < n - 1 && #[trigger] lies_under(parts[i], key.path.push(m));
                    assert(m < n && lies_under(all[i], key.path.push(m)));
                }
            }
            assert forall|i: int, j: int| 0 <= i < j < all.len() implies #[trigger] all[i]
                != #[trigger] all[j] by {
                if j < parts.len() {
                    assert(parts[i] != parts[j]);
                } else if i >= parts.len() {
                    assert(new_parts[i - parts.len()] != new_parts[j - parts.len()]);
                } else {
                    let p = new_parts[j - parts.len()];
                    assert(lies_under(p, path_below));
                    lemma_lies_under(p, key.path, at);
                    if i > 0 {
                        let m = choose|m: u8|
                            m < n - 1 && #[trigger] lies_under(parts[i], key.path.push(m));
                        assert(lies_under(parts[i], key.path.push(m)));
                        assert(!lies_under(p, key.path.push(m)));
                    }
                }
            }
            assert(c.nodes[0] == before.nodes[0]);
            assert(sorted_out(store, key, c.nodes, c.stale, all));
            all
        }
    }
}

/// The lists of a batch on top of a base: as many of stale nodes as of nodes, and two changes are in lists
/// with the same number exactly if they belong to the same part of the base tree.
pub proof fn lemma_put_lists<'a, 'b, R: TreeReader<K> + Sync, K: Key>(
    tree: &JellyfishMerkleTree<'a, R, K>,
    value_set: Vec<KeyValue<'b, K>>,
    node_hashes: Option<&NodeHashes>,
    base: Version,
    version: Version,
    root_hash: HashValue,
    batch: TreeUpdateBatch<K>,
)
    requires
        call_ensures(
            JellyfishMerkleTree::<'a, R, K>::batch_put_value_set,
            (tree, value_set, node_hashes, Some(base), version),
            Ok::<(HashValue, TreeUpdateBatch<K>), TreeError>((root_hash, batch)),
        ),
    ensures
        batch.node_batch@.len() == batch.stale_node_index_batch@.len(),
        ({
            let store = tree.reader.nodes();
            let root = NodeKeyView::root(base);
            let nodes = batch.node_batch@;
            let stale = batch.stale_node_index_batch@;
            &&& forall|i: int, j: int, a: int, b: int|
                0 <= i < nodes.len() && 0 <= j < nodes[i]@.len() && 0 <= a < nodes.len() && 0 <= b
                    < nodes[a]@.len() ==> (i == a <==> part_of(
                    store,
                    root,
                    (#[trigger] nodes[i]@[j]).0@.path,
                ) == part_of(store, root, (#[trigger] nodes[a]@[b]).0@.path))
            &&& forall|i: int, j: int, a: int, b: int|
                0 <= i < nodes.len() && 0 <= j < nodes[i]@.len() && 0 <= a < stale.len() && 0 <= b
                    < stale[a]@.len() ==> (i == a <==> part_of(
                    store,
                    root,
                    (#[trigger] nodes[i]@[j]).0@.path,
                ) == part_of(store, root, (#[trigger] stale[a]@[b]).node_key@.path))
        }),
{
    let store = tree.reader.nodes();
    let root = NodeKeyView::root(base);
    let u = update_of(version, node_hashes);
    let c = batch@;
    let parts = lemma_sorted_out(store, u, root, sorted_set(value_set@));
    let nodes = batch.node_batch@;
    let stale = batch.stale_node_index_batch@;
    assert forall|i: int, j: int| 0 <= i < nodes.len() && 0 <= j < nodes[i]@.len() implies part_of(
        store,
        root,
        (#[trigger] nodes[i]@[j]).0@.path,
    ) == parts[i] by {
        assert(c.nodes[i][j].0 == nodes[i]@[j].0@);
    }
    assert forall|i: int, j: int| 0 <= i < stale.len() && 0 <= j < stale[i]@.len() implies part_of(
        store,
        root,
        (#[trigger] stale[i]@[j]).node_key@.path,
    ) == parts[i] by {
        assert(c.stale[i][j].node_key == stale[i]@[j].node_key@);
    }
    assert forall|i: int, a: int| 0 <= i < parts.len() && 0 <= a < parts.len() implies (i == a
        <==> #[trigger] parts[i] == #[trigger] parts[a]) by {
        if i < a {
            assert(parts[i] != parts[a]);
        } else if a < i {
            assert(parts[a] != parts[i]);
        }
    }
}

/// A batch without a base has one list of nodes, and nothing is stale.
pub proof fn lemma_first_put_lists<'a, 'b, R: TreeReader<K> + Sync, K: Key>(
    tree: &JellyfishMerkleTree<'a, R, K>,
    value_set: Vec<KeyValue<'b, K>>,
    node_hashes: Option<&NodeHashes>,
    version: Version,
    root_hash: HashValue,
    batch: TreeUpdateBatch<K>,
)
    requires
        call_ensures(
            JellyfishMerkleTree::<'a, R, K>::batch_put_value_set,
            (tree, value_set, node_hashes, None::<Version>, version),
            Ok::<(HashValue, TreeUpdateBatch<K>), TreeError>((root_hash, batch)),
        ),
    ensures
        batch.node_batch@.len() == 1,
        batch.stale_node_index_batch@.len() == 1,
        batch.stale_node_index_batch@[0]@.len() == 0,
{
    assert(batch@.nodes.len() == batch.node_batch@.len());
    assert(batch@.stale.len() == batch.stale_node_index_batch@.len());
    assert(batch@.stale[0].len() == 0);
}

} // verus!
