//! What holds of hashes that are known beforehand: true hashes save work and change nothing.
use vstd::prelude::*;

use crate::batch::{Changes, NodeEntry};
use crate::batch_laws::{distinct, entry_key, lemma_built_changes_distinct, lemma_insert_distinct};
use crate::content::{
    content_hash, lemma_child_holds, lemma_holds_keys, lemma_node_hash, part, tree_holds, Content,
};
use crate::hash::HashValue;
use crate::laws::{base_holds, lemma_insertable, lemma_knows, lemma_no_hashes};
use crate::lists::{distinct_lists, in_lists};
use crate::node_type::{LeafNode, NodeKeyView, NodeView, Version};
use crate::ranges::{all_under, bucket, has_prefix};
use crate::sorted::sorted;
use crate::update::{
    built, built_changes, built_child, built_entries, built_entries_below, child_changes,
    child_complete, child_insertable, child_key, complete, insert_changes, insert_changes_below,
    insertable, inserted, inserted_child, knows_built, leaf_bucket, lemma_bucket_sorted,
    lemma_built_depth, lemma_knows_below, lemma_separable_below, moved_entry, one_key, separable,
    updatable, update_changes, updated_root, KeyValue, Store, Update,
};
use crate::write_laws::{
    child_holds, commits, has_entries, index_of_key, leaf_content, lemma_built_changes_holds,
    lemma_built_holds, lemma_insert_holds, lemma_insert_holds_internal, lemma_insert_holds_leaf,
    lemma_prefix_below, lemma_under_part, lemma_updated, lemma_updated_part, truthful, under,
    updated,
};

verus! {

/// The node that the changes write under `key`.
pub open spec fn node_written<K>(c: Changes<K>, key: NodeKeyView) -> NodeView<K> {
    choose|node: NodeView<K>| c.holds((key, node))
}

/// `before` with the changes made, and nothing pruned.
pub open spec fn committed<K>(before: Store<K>, c: Changes<K>) -> Store<K> {
    Map::new(
        |k: NodeKeyView| c.writes(k) || before.contains_key(k),
        |k: NodeKeyView|
            if c.writes(k) {
                node_written(c, k)
            } else {
                before[k]
            },
    )
}

/// Changes that write no node twice can be committed.
pub proof fn lemma_committed<K>(before: Store<K>, c: Changes<K>)
    requires
        distinct(c),
    ensures
        commits(before, committed(before, c), c),
{
    let after = committed(before, c);
    reveal(distinct_lists);
    reveal(in_lists);
    assert forall|e: NodeEntry<K>| #[trigger] c.holds(e) implies after.contains_key(e.0)
        && after[e.0] == e.1 by {
        assert(c.holds((e.0, e.1)));
        assert(c.writes(e.0));
        let other = (e.0, node_written(c, e.0));
        assert(c.holds(other));
        let (i, j) = choose|i: int, j: int|
            0 <= i < c.nodes.len() && 0 <= j < c.nodes[i].len() && #[trigger] c.nodes[i][j] == e;
        let (a, b) = choose|a: int, b: int|
            0 <= a < c.nodes.len() && 0 <= b < c.nodes[a].len() && #[trigger] c.nodes[a][b]
                == other;
        assert(entry_key::<K>()(c.nodes[i][j]) == entry_key::<K>()(c.nodes[a][b]));
    }
}

/// The hash of a new subtree is the hash of what it is built of.
proof fn lemma_built_hash<'a, K>(
    u: Update,
    leaf: Option<LeafNode<K>>,
    kvs: Seq<KeyValue<'a, K>>,
    path: Seq<u8>,
)
    requires
        u.hashes is None,
        kvs.len() > 0,
        sorted(kvs),
        all_under(kvs, path),
        separable(leaf, kvs, path.len()),
        leaf is Some ==> has_prefix(leaf.unwrap().account_key, path),
        path.len() <= 64,
    ensures
        built(u, leaf, kvs, path).hash() == content_hash(
            updated(u, leaf_content(leaf), kvs),
            4 * path.len(),
        ),
{
    let content = updated(u, leaf_content(leaf), kvs);
    let entries = built_entries(u, leaf, kvs, path);
    let c = built_changes(u, leaf, kvs, path);
    let after = committed(Map::empty(), c);
    lemma_built_changes_distinct(u, leaf, kvs, path);
    lemma_committed(Map::empty(), c);
    lemma_built_changes_holds(u, leaf, kvs, path);
    assert(has_entries(after, entries)) by {
        reveal(has_entries);
        assert forall|i: int| 0 <= i < entries.len() implies after.contains_key(
            (#[trigger] entries[i]).0,
        ) && after[entries[i].0] == entries[i].1 by {
            assert(entries.contains(entries[i]));
            assert(c.holds(entries[i]));
        }
    }
    lemma_knows(u, leaf, kvs, path);
    lemma_no_hashes(u, content);
    lemma_updated_under(u, leaf_content(leaf), kvs, path);
    lemma_built_holds(after, u, leaf, kvs, path, content);
    lemma_node_hash(after, u.key(path), content);
}

/// Content whose keys lie below a path, with keys put into it that do too, is all below that path.
proof fn lemma_updated_under<'a, K>(
    u: Update,
    content: Content<K>,
    kvs: Seq<KeyValue<'a, K>>,
    path: Seq<u8>,
)
    requires
        all_under(kvs, path),
        forall|k: HashValue| #[trigger] content.contains_key(k) ==> has_prefix(k, path),
    ensures
        under(updated(u, content, kvs), path) == updated(u, content, kvs),
{
    lemma_updated(u, content, kvs);
    reveal(all_under);
    let all = updated(u, content, kvs);
    assert forall|k: HashValue| #[trigger] all.contains_key(k) implies has_prefix(k, path) by {
        if !content.contains_key(k) {
            let i = index_of_key(kvs, k);
            assert(has_prefix(kvs[i].0, path));
        }
    }
    assert(under(all, path) =~= all);
}

/// The hash of an updated node is the hash of what it then holds.
proof fn lemma_inserted_hash<'a, K>(
    store: Store<K>,
    u: Update,
    key: NodeKeyView,
    content: Content<K>,
    kvs: Seq<KeyValue<'a, K>>,
)
    requires
        u.hashes is None,
        tree_holds(store, key, content),
        key.path.len() <= 64,
        kvs.len() > 0,
        sorted(kvs),
        all_under(kvs, key.path),
    ensures
        inserted(store, u, key, kvs).hash() == content_hash(
            updated(u, content, kvs),
            4 * key.path.len(),
        ),
{
    let all = updated(u, content, kvs);
    let c = insert_changes(store, u, key, kvs);
    let after = committed(store, c);
    lemma_insert_distinct(store, u, key, kvs);
    lemma_committed(store, c);
    lemma_insertable(store, u, key, content, kvs);
    lemma_no_hashes(u, all);
    lemma_holds_keys(store, key, content);
    lemma_updated_under(u, content, kvs, key.path);
    lemma_insert_holds(store, after, u, key, content, kvs, all);
    lemma_node_hash(after, u.key(key.path), all);
}

/// The update to the same version without hashes that are known beforehand.
pub open spec fn uncached(u: Update) -> Update {
    Update { version: u.version, hashes: None }
}

/// A true hash that is known beforehand is the hash of the node.
proof fn lemma_true_hash<K>(u: Update, path: Seq<u8>, node: NodeView<K>, whole: Content<K>)
    requires
        truthful(u, whole),
        u.knows(path),
        node.hash() == content_hash(under(whole, path), 4 * path.len()),
    ensures
        u.child(path, node) == uncached(u).child(path, node),
{
    reveal(truthful);
}

/// The content that an update comes to does not depend on hashes.
proof fn lemma_uncached_content<'a, K>(
    u: Update,
    content: Content<K>,
    kvs: Seq<KeyValue<'a, K>>,
)
    ensures
        updated(uncached(u), content, kvs) == updated(u, content, kvs),
{
    lemma_updated(u, content, kvs);
    lemma_updated(uncached(u), content, kvs);
    assert(updated(uncached(u), content, kvs) =~= updated(u, content, kvs));
}

/// A new subtree does not depend on hashes that are true.
proof fn lemma_same_built<'a, K>(
    u: Update,
    leaf: Option<LeafNode<K>>,
    kvs: Seq<KeyValue<'a, K>>,
    path: Seq<u8>,
    whole: Content<K>,
)
    requires
        kvs.len() > 0,
        sorted(kvs),
        all_under(kvs, path),
        separable(leaf, kvs, path.len()),
        leaf is Some ==> has_prefix(leaf.unwrap().account_key, path),
        path.len() <= 64,
        knows_built(u, leaf, kvs, path),
        truthful(u, whole),
        updated(u, leaf_content(leaf), kvs) == under(whole, path),
    ensures
        built(u, leaf, kvs, path) == built(uncached(u), leaf, kvs, path),
        built_entries(u, leaf, kvs, path) == built_entries(uncached(u), leaf, kvs, path),
    decreases 64 - path.len(), 17nat,
{
    let v = uncached(u);
    if !one_key(leaf, kvs) {
        lemma_built_depth(leaf, kvs, path);
        let a = built(u, leaf, kvs, path)->Internal_0;
        let b = built(v, leaf, kvs, path)->Internal_0;
        lemma_same_built_below(u, leaf, kvs, path, whole, 16);
        assert forall|n: int| 0 <= n < 16 implies a[n] == b[n] by {
            assert(built_child(u, leaf, kvs, path, n as u8) == built_child(
                v,
                leaf,
                kvs,
                path,
                n as u8,
            ));
        }
        assert(a =~= b);
    }
}

proof fn lemma_same_built_below<'a, K>(
    u: Update,
    leaf: Option<LeafNode<K>>,
    kvs: Seq<KeyValue<'a, K>>,
    path: Seq<u8>,
    whole: Content<K>,
    n: nat,
)
    requires
        kvs.len() > 0,
        sorted(kvs),
        all_under(kvs, path),
        separable(leaf, kvs, path.len()),
        leaf is Some ==> has_prefix(leaf.unwrap().account_key, path),
        path.len() < 64,
        !one_key(leaf, kvs),
        knows_built(u, leaf, kvs, path),
        truthful(u, whole),
        updated(u, leaf_content(leaf), kvs) == under(whole, path),
        n <= 16,
    ensures
        built_entries_below(u, leaf, kvs, path, n) == built_entries_below(
            uncached(u),
            leaf,
            kvs,
            path,
            n,
        ),
        forall|m: u8|
            m < n ==> #[trigger] built_child(u, leaf, kvs, path, m) == built_child(
                uncached(u),
                leaf,
                kvs,
                path,
                m,
            ),
    decreases 64 - path.len(), n,
{
    if n > 0 {
        let v = uncached(u);
        let d = path.len();
        let at = (n - 1) as u8;
        let kvs_below = bucket(kvs, d, at);
        let leaf_below = leaf_bucket(leaf, d, at);
        let path_below = path.push(at);
        lemma_same_built_below(u, leaf, kvs, path, whole, (n - 1) as nat);
        if kvs_below.len() > 0 {
            lemma_updated_part(u, leaf_content(leaf), kvs, path, at);
            lemma_under_part(whole, path, at);
            assert(part(leaf_content(leaf), d, at) =~= leaf_content(leaf_below));
            if leaf_below is Some {
                lemma_prefix_below(leaf_below.unwrap().account_key, path, at);
            }
            lemma_bucket_sorted(kvs, path, at);
            lemma_separable_below(leaf, kvs, d, at);
            lemma_knows_below(u, leaf, kvs, path, at);
            lemma_same_built(u, leaf_below, kvs_below, path_below, whole);
            lemma_built_hash(v, leaf_below, kvs_below, path_below);
            lemma_uncached_content(u, leaf_content(leaf_below), kvs_below);
            lemma_true_hash(u, path_below, built(v, leaf_below, kvs_below, path_below), whole);
        }
        assert(built_child(u, leaf, kvs, path, at) == built_child(v, leaf, kvs, path, at));
    }
}

/// The changes at a node do not depend on hashes that are true.
proof fn lemma_same_inserted<'a, K>(
    store: Store<K>,
    u: Update,
    key: NodeKeyView,
    content: Content<K>,
    kvs: Seq<KeyValue<'a, K>>,
    whole: Content<K>,
)
    requires
        tree_holds(store, key, content),
        key.path.len() <= 64,
        sorted(kvs),
        all_under(kvs, key.path),
        insertable(store, u, key, kvs),
        truthful(u, whole),
        updated(u, content, kvs) == under(whole, key.path),
    ensures
        inserted(store, u, key, kvs) == inserted(store, uncached(u), key, kvs),
        insert_changes(store, u, key, kvs) == insert_changes(store, uncached(u), key, kvs),
    decreases 64 - key.path.len(), 18nat,
{
    let v = uncached(u);
    match store[key] {
        NodeView::Leaf(leaf) => {
            assert(content =~= leaf_content(Some(leaf)));
            lemma_same_built(u, Some(leaf), kvs, key.path, whole);
        },
        NodeView::Internal(slots) => {
            let a = inserted(store, u, key, kvs)->Internal_0;
            let b = inserted(store, v, key, kvs)->Internal_0;
            lemma_same_inserted_below(store, u, key, content, kvs, whole, 16);
            assert forall|n: int| 0 <= n < 16 implies a[n] == b[n] by {
                assert(inserted_child(store, u, key, slots, kvs, n as u8) == inserted_child(
                    store,
                    v,
                    key,
                    slots,
                    kvs,
                    n as u8,
                ));
            }
            assert(a =~= b);
        },
    }
}

proof fn lemma_same_inserted_below<'a, K>(
    store: Store<K>,
    u: Update,
    key: NodeKeyView,
    content: Content<K>,
    kvs: Seq<KeyValue<'a, K>>,
    whole: Content<K>,
    n: nat,
)
    requires
        tree_holds(store, key, content),
        store[key] is Internal,
        key.path.len() < 64,
        sorted(kvs),
        all_under(kvs, key.path),
        insertable(store, u, key, kvs),
        truthful(u, whole),
        updated(u, content, kvs) == under(whole, key.path),
        n <= 16,
    ensures
        insert_changes_below(store, u, key, store[key]->Internal_0, kvs, n)
            == insert_changes_below(store, uncached(u), key, store[key]->Internal_0, kvs, n),
        forall|m: u8|
            m < n ==> #[trigger] inserted_child(store, u, key, store[key]->Internal_0, kvs, m)
                == inserted_child(store, uncached(u), key, store[key]->Internal_0, kvs, m),
    decreases 64 - key.path.len(), n,
{
    if n > 0 {
        let v = uncached(u);
        let slots = store[key]->Internal_0;
        let d = key.path.len();
        let at = (n - 1) as u8;
        let kvs_below = bucket(kvs, d, at);
        let path_below = key.path.push(at);
        let below = part(content, d, at);
        lemma_same_inserted_below(store, u, key, content, kvs, whole, (n - 1) as nat);
        if kvs_below.len() > 0 {
            lemma_updated_part(u, content, kvs, key.path, at);
            lemma_under_part(whole, key.path, at);
            lemma_bucket_sorted(kvs, key.path, at);
            lemma_child_holds(store, key, content, at);
            lemma_uncached_content(u, below, kvs_below);
            assert(child_insertable(store, u, key, slots, kvs, at));
            match slots[at as int] {
                Some(child) => {
                    let next = child_key(key, child, at);
                    lemma_same_inserted(store, u, next, below, kvs_below, whole);
                    lemma_inserted_hash(store, v, next, below, kvs_below);
                    lemma_true_hash(u, path_below, inserted(store, v, next, kvs_below), whole);
                },
                None => {
                    assert(below =~= leaf_content(None));
                    assert(separable(None::<LeafNode<K>>, kvs_below, d + 1)) by {
                        reveal(separable);
                    }
                    lemma_same_built(u, None, kvs_below, path_below, whole);
                    lemma_built_hash(v, None::<LeafNode<K>>, kvs_below, path_below);
                    lemma_true_hash(
                        u,
                        path_below,
                        built(v, None, kvs_below, path_below),
                        whole,
                    );
                },
            }
            assert(child_changes(store, u, key, slots, kvs, at) == child_changes(
                store,
                v,
                key,
                slots,
                kvs,
                at,
            ));
        }
        assert(inserted_child(store, u, key, slots, kvs, at) == inserted_child(
            store,
            v,
            key,
            slots,
            kvs,
            at,
        ));
    }
}

/// An update that is given hashes of what the tree that it makes holds below their paths comes to the
/// same root and the same changes as one that works the hashes out.
pub proof fn lemma_content_hashes<'a, K>(
    store: Store<K>,
    u: Update,
    base: Option<Version>,
    content: Content<K>,
    kvs: Seq<KeyValue<'a, K>>,
)
    requires
        base_holds(store, base, content),
        sorted(kvs),
        updatable(store, u, base, kvs),
        truthful(u, updated(u, content, kvs)),
    ensures
        updated_root(store, u, base, kvs) == updated_root(store, uncached(u), base, kvs),
        update_changes(store, u, base, kvs) == update_changes(store, uncached(u), base, kvs),
{
    let whole = updated(u, content, kvs);
    let top = Seq::<u8>::empty();
    assert(under(whole, top) =~= whole);
    assert(all_under(kvs, top)) by {
        reveal(all_under);
    }
    match base {
        Some(version) => {
            lemma_same_inserted(store, u, NodeKeyView::root(version), content, kvs, whole);
        },
        None => {
            assert(content =~= leaf_content(None));
            assert(separable(None::<LeafNode<K>>, kvs, 0)) by {
                reveal(separable);
            }
            lemma_same_built(u, None, kvs, top, whole);
        },
    }
}

/// Whether each of `entries` whose path has a known hash is known by its own hash.
spec fn agrees_on<K>(u: Update, entries: Seq<NodeEntry<K>>) -> bool {
    forall|e: NodeEntry<K>| #[trigger] entries.contains(e) ==> known_truly(u, e)
}

/// Whether the hash that is known for the path of an entry, if there is one, is the hash of its node.
pub open spec fn known_truly<K>(u: Update, e: NodeEntry<K>) -> bool {
    u.hashes is Some && u.hashes.unwrap().contains_key(e.0.path) ==> u.hashes.unwrap()[e.0.path]
        == e.1.hash()
}

/// Whether the hashes that are known for the nodes that `c` writes are their hashes. Nodes may be
/// without a known hash, and other paths may have any.
pub open spec fn agrees_with<K>(u: Update, c: Changes<K>) -> bool {
    forall|e: NodeEntry<K>| #[trigger] c.holds(e) ==> known_truly(u, e)
}

/// Whether the hash of each node that `c` writes is known by its path. Other paths may have any.
pub open spec fn caches<K>(u: Update, c: Changes<K>) -> bool {
    u.hashes is Some ==> forall|e: NodeEntry<K>| #[trigger]
        c.holds(e) ==> u.hashes.unwrap().contains_key(e.0.path) && u.hashes.unwrap()[e.0.path]
            == e.1.hash()
}

proof fn lemma_agrees_on<K>(u: Update, a: Seq<NodeEntry<K>>, b: Seq<NodeEntry<K>>)
    requires
        agrees_on(u, a + b),
    ensures
        agrees_on(u, a),
        agrees_on(u, b),
{
    assert forall|e: NodeEntry<K>| #[trigger] a.contains(e) implies known_truly(u, e) by {
        let i = choose|i: int| 0 <= i < a.len() && a[i] == e;
        assert((a + b)[i] == e);
        assert((a + b).contains(e));
    }
    assert forall|e: NodeEntry<K>| #[trigger] b.contains(e) implies known_truly(u, e) by {
        let i = choose|i: int| 0 <= i < b.len() && b[i] == e;
        assert((a + b)[a.len() + i] == e);
        assert((a + b).contains(e));
    }
}

/// The first node of a new subtree is among its nodes.
pub proof fn lemma_built_own<'a, K>(
    u: Update,
    leaf: Option<LeafNode<K>>,
    kvs: Seq<KeyValue<'a, K>>,
    path: Seq<u8>,
)
    ensures
        built_entries(u, leaf, kvs, path).contains((u.key(path), built(u, leaf, kvs, path))),
{
    let entries = built_entries(u, leaf, kvs, path);
    assert(entries[entries.len() - 1] == (u.key(path), built(u, leaf, kvs, path)));
}

/// A new subtree does not depend on hashes that are those of its nodes.
proof fn lemma_cached_built<'a, K>(
    u: Update,
    leaf: Option<LeafNode<K>>,
    kvs: Seq<KeyValue<'a, K>>,
    path: Seq<u8>,
)
    requires
        knows_built(u, leaf, kvs, path),
        agrees_on(u, built_entries(uncached(u), leaf, kvs, path)),
    ensures
        built(u, leaf, kvs, path) == built(uncached(u), leaf, kvs, path),
        built_entries(u, leaf, kvs, path) == built_entries(uncached(u), leaf, kvs, path),
    decreases 64 - path.len(), 17nat,
{
    let v = uncached(u);
    if !one_key(leaf, kvs) && path.len() < 64 {
        let below = built_entries_below(v, leaf, kvs, path, 16);
        let own = seq![(v.key(path), built(v, leaf, kvs, path))];
        lemma_agrees_on(u, below + moved_entry(v, leaf, kvs, path), own);
        lemma_agrees_on(u, below, moved_entry(v, leaf, kvs, path));
        lemma_cached_built_below(u, leaf, kvs, path, 16);
        let a = built(u, leaf, kvs, path)->Internal_0;
        let b = built(v, leaf, kvs, path)->Internal_0;
        assert forall|n: int| 0 <= n < 16 implies a[n] == b[n] by {
            assert(built_child(u, leaf, kvs, path, n as u8) == built_child(
                v,
                leaf,
                kvs,
                path,
                n as u8,
            ));
        }
        assert(a =~= b);
    }
}

proof fn lemma_cached_built_below<'a, K>(
    u: Update,
    leaf: Option<LeafNode<K>>,
    kvs: Seq<KeyValue<'a, K>>,
    path: Seq<u8>,
    n: nat,
)
    requires
        path.len() < 64,
        !one_key(leaf, kvs),
        knows_built(u, leaf, kvs, path),
        agrees_on(u, built_entries_below(uncached(u), leaf, kvs, path, n)),
        n <= 16,
    ensures
        built_entries_below(u, leaf, kvs, path, n) == built_entries_below(
            uncached(u),
            leaf,
            kvs,
            path,
            n,
        ),
        forall|m: u8|
            m < n ==> #[trigger] built_child(u, leaf, kvs, path, m) == built_child(
                uncached(u),
                leaf,
                kvs,
                path,
                m,
            ),
    decreases 64 - path.len(), n,
{
    if n > 0 {
        let v = uncached(u);
        let d = path.len();
        let at = (n - 1) as u8;
        let kvs_below = bucket(kvs, d, at);
        let leaf_below = leaf_bucket(leaf, d, at);
        let path_below = path.push(at);
        let before = built_entries_below(v, leaf, kvs, path, (n - 1) as nat);
        if kvs_below.len() > 0 {
            let more = built_entries(v, leaf_below, kvs_below, path_below);
            lemma_agrees_on(u, before, more);
            lemma_knows_below(u, leaf, kvs, path, at);
            lemma_cached_built(u, leaf_below, kvs_below, path_below);
            lemma_built_own(v, leaf_below, kvs_below, path_below);
            let own = (v.key(path_below), built(v, leaf_below, kvs_below, path_below));
            assert(known_truly(u, own));
        }
        lemma_cached_built_below(u, leaf, kvs, path, (n - 1) as nat);
        assert(built_child(u, leaf, kvs, path, at) == built_child(v, leaf, kvs, path, at));
    }
}

/// The node that takes the place of another is among the nodes that are written.
pub proof fn lemma_inserted_own<'a, K>(
    store: Store<K>,
    u: Update,
    key: NodeKeyView,
    kvs: Seq<KeyValue<'a, K>>,
)
    requires
        store[key] is Internal ==> key.path.len() < 64,
    ensures
        insert_changes(store, u, key, kvs).holds(
            (u.key(key.path), inserted(store, u, key, kvs)),
        ),
{
    match store[key] {
        NodeView::Leaf(leaf) => {
            lemma_insert_holds_leaf(store, u, key, kvs);
            lemma_built_own(u, Some(leaf), kvs, key.path);
        },
        NodeView::Internal(slots) => {
            lemma_insert_holds_internal(store, u, key, kvs);
        },
    }
}

/// The changes at a node do not depend on hashes that are those of the nodes written.
proof fn lemma_cached_inserted<'a, K>(
    store: Store<K>,
    u: Update,
    key: NodeKeyView,
    kvs: Seq<KeyValue<'a, K>>,
)
    requires
        insertable(store, u, key, kvs),
        complete(store, key, kvs),
        agrees_with(u, insert_changes(store, uncached(u), key, kvs)),
    ensures
        inserted(store, u, key, kvs) == inserted(store, uncached(u), key, kvs),
        insert_changes(store, u, key, kvs) == insert_changes(store, uncached(u), key, kvs),
    decreases 64 - key.path.len(), 18nat,
{
    let v = uncached(u);
    let c = insert_changes(store, v, key, kvs);
    match store[key] {
        NodeView::Leaf(leaf) => {
            let entries = built_entries(v, Some(leaf), kvs, key.path);
            lemma_insert_holds_leaf(store, v, key, kvs);
            assert forall|e: NodeEntry<K>| #[trigger] entries.contains(e) implies known_truly(
                u,
                e,
            ) by {
                assert(c.holds(e));
            }
            lemma_cached_built(u, Some(leaf), kvs, key.path);
        },
        NodeView::Internal(slots) => {
            assert forall|n: u8|
                n < 16 && #[trigger] bucket(kvs, key.path.len(), n).len() > 0 implies
                child_insertable(store, u, key, slots, kvs, n) && child_complete(
                store,
                key,
                slots,
                kvs,
                n,
            ) by {}
            lemma_cached_inserted_at(store, u, key, kvs);
        },
    }
}

/// The changes at an internal node do not depend on hashes that are those of the nodes written.
proof fn lemma_cached_inserted_at<'a, K>(
    store: Store<K>,
    u: Update,
    key: NodeKeyView,
    kvs: Seq<KeyValue<'a, K>>,
)
    requires
        store[key] is Internal,
        key.path.len() < 64,
        forall|n: u8|
            n < 16 && #[trigger] bucket(kvs, key.path.len(), n).len() > 0 ==> child_insertable(
                store,
                u,
                key,
                store[key]->Internal_0,
                kvs,
                n,
            ) && child_complete(store, key, store[key]->Internal_0, kvs, n),
        agrees_with(u, insert_changes(store, uncached(u), key, kvs)),
    ensures
        inserted(store, u, key, kvs) == inserted(store, uncached(u), key, kvs),
        insert_changes(store, u, key, kvs) == insert_changes(store, uncached(u), key, kvs),
    decreases 64 - key.path.len(), 17nat,
{
    let v = uncached(u);
    let slots = store[key]->Internal_0;
    let a = inserted(store, u, key, kvs)->Internal_0;
    let b = inserted(store, v, key, kvs)->Internal_0;
    lemma_cached_inserted_below(store, u, key, kvs, 16);
    assert forall|n: int| 0 <= n < 16 implies a[n] == b[n] by {
        assert(inserted_child(store, u, key, slots, kvs, n as u8) == inserted_child(
            store,
            v,
            key,
            slots,
            kvs,
            n as u8,
        ));
    }
    assert(a =~= b);
}

proof fn lemma_cached_inserted_below<'a, K>(
    store: Store<K>,
    u: Update,
    key: NodeKeyView,
    kvs: Seq<KeyValue<'a, K>>,
    n: nat,
)
    requires
        store[key] is Internal,
        key.path.len() < 64,
        n <= 16,
        forall|m: u8|
            m < 16 && #[trigger] bucket(kvs, key.path.len(), m).len() > 0 ==> child_insertable(
                store,
                u,
                key,
                store[key]->Internal_0,
                kvs,
                m,
            ) && child_complete(store, key, store[key]->Internal_0, kvs, m),
        agrees_with(u, insert_changes(store, uncached(u), key, kvs)),
    ensures
        insert_changes_below(store, u, key, store[key]->Internal_0, kvs, n)
            == insert_changes_below(store, uncached(u), key, store[key]->Internal_0, kvs, n),
        forall|m: u8|
            m < n ==> #[trigger] inserted_child(store, u, key, store[key]->Internal_0, kvs, m)
                == inserted_child(store, uncached(u), key, store[key]->Internal_0, kvs, m),
    decreases 64 - key.path.len(), n,
{
    if n > 0 {
        let v = uncached(u);
        let slots = store[key]->Internal_0;
        let at = (n - 1) as u8;
        let kvs_below = bucket(kvs, key.path.len(), at);
        let path_below = key.path.push(at);
        lemma_cached_inserted_below(store, u, key, kvs, (n - 1) as nat);
        if kvs_below.len() > 0 {
            lemma_agrees_below(store, u, key, kvs, at);
            assert(child_insertable(store, u, key, slots, kvs, at));
            assert(child_complete(store, key, slots, kvs, at));
            let more = child_changes(store, v, key, slots, kvs, at);
            match slots[at as int] {
                Some(child) => {
                    let next = child_key(key, child, at);
                    assert(more == insert_changes(store, v, next, kvs_below));
                    lemma_cached_inserted(store, u, next, kvs_below);
                    lemma_inserted_own(store, v, next, kvs_below);
                    let own = (v.key(path_below), inserted(store, v, next, kvs_below));
                    assert(known_truly(u, own));
                },
                None => {
                    let entries = built_entries(v, None, kvs_below, path_below);
                    assert(more == built_changes(v, None, kvs_below, path_below));
                    lemma_built_changes_holds(v, None, kvs_below, path_below);
                    assert forall|e: NodeEntry<K>| #[trigger] entries.contains(
                        e,
                    ) implies known_truly(u, e) by {
                        assert(more.holds(e));
                    }
                    lemma_cached_built(u, None, kvs_below, path_below);
                    lemma_built_own(v, None, kvs_below, path_below);
                    let own = (v.key(path_below), built(v, None, kvs_below, path_below));
                    assert(known_truly(u, own));
                },
            }
            assert(child_changes(store, u, key, slots, kvs, at) == more);
        }
        assert(inserted_child(store, u, key, slots, kvs, at) == inserted_child(
            store,
            v,
            key,
            slots,
            kvs,
            at,
        ));
    }
}

/// Hashes that are those of the nodes written at a node are those of the nodes written below a child.
proof fn lemma_agrees_below<'a, K>(
    store: Store<K>,
    u: Update,
    key: NodeKeyView,
    kvs: Seq<KeyValue<'a, K>>,
    n: u8,
)
    requires
        store[key] is Internal,
        key.path.len() < 64,
        n < 16,
        bucket(kvs, key.path.len(), n).len() > 0,
    ensures
        agrees_with(u, insert_changes(store, uncached(u), key, kvs)) ==> agrees_with(
            u,
            child_changes(store, uncached(u), key, store[key]->Internal_0, kvs, n),
        ),
        caches(u, insert_changes(store, uncached(u), key, kvs)) ==> caches(
            u,
            child_changes(store, uncached(u), key, store[key]->Internal_0, kvs, n),
        ),
{
    let v = uncached(u);
    let slots = store[key]->Internal_0;
    let c = insert_changes(store, v, key, kvs);
    let more = child_changes(store, v, key, slots, kvs, n);
    lemma_insert_holds_internal(store, v, key, kvs);
    assert forall|e: NodeEntry<K>| #[trigger] more.holds(e) implies c.holds(e) by {
        assert(child_holds(store, v, key, slots, kvs, n, e));
    }
}

/// The hash of each new node below a new subtree is known if those of all its nodes are.
proof fn lemma_caches_built<'a, K>(
    u: Update,
    leaf: Option<LeafNode<K>>,
    kvs: Seq<KeyValue<'a, K>>,
    path: Seq<u8>,
)
    requires
        forall|e: NodeEntry<K>| #[trigger]
            built_entries(uncached(u), leaf, kvs, path).contains(e) ==> u.knows(e.0.path),
    ensures
        knows_built(u, leaf, kvs, path),
    decreases 64 - path.len(),
{
    reveal(knows_built);
    let v = uncached(u);
    if !one_key(leaf, kvs) && path.len() < 64 {
        let d = path.len();
        let all = built_entries(v, leaf, kvs, path);
        let below = built_entries_below(v, leaf, kvs, path, 16);
        assert forall|n: u8| n < 16 && #[trigger] bucket(kvs, d, n).len() > 0 implies u.knows(
            path.push(n),
        ) && knows_built(u, leaf_bucket(leaf, d, n), bucket(kvs, d, n), path.push(n)) by {
            let more = built_entries(v, leaf_bucket(leaf, d, n), bucket(kvs, d, n), path.push(n));
            lemma_entries_among(v, leaf, kvs, path, 16, n);
            assert forall|e: NodeEntry<K>| #[trigger] more.contains(e) implies u.knows(
                e.0.path,
            ) by {
                assert(below.contains(e));
                let i = choose|i: int| 0 <= i < below.len() && below[i] == e;
                assert(all[i] == e);
                assert(all.contains(e));
            }
            lemma_built_own(v, leaf_bucket(leaf, d, n), bucket(kvs, d, n), path.push(n));
            lemma_caches_built(u, leaf_bucket(leaf, d, n), bucket(kvs, d, n), path.push(n));
        }
    }
}

/// The nodes below a child are among those below its parent.
pub proof fn lemma_entries_among<'a, K>(
    u: Update,
    leaf: Option<LeafNode<K>>,
    kvs: Seq<KeyValue<'a, K>>,
    path: Seq<u8>,
    upto: nat,
    n: u8,
)
    requires
        path.len() < 64,
        n < upto <= 16,
        bucket(kvs, path.len(), n).len() > 0,
    ensures
        forall|e: NodeEntry<K>| #[trigger]
            built_entries(
                u,
                leaf_bucket(leaf, path.len(), n),
                bucket(kvs, path.len(), n),
                path.push(n),
            ).contains(e) ==> built_entries_below(u, leaf, kvs, path, upto).contains(e),
    decreases upto,
{
    let at = (upto - 1) as u8;
    let all = built_entries_below(u, leaf, kvs, path, upto);
    let before = built_entries_below(u, leaf, kvs, path, (upto - 1) as nat);
    let more = built_entries(
        u,
        leaf_bucket(leaf, path.len(), n),
        bucket(kvs, path.len(), n),
        path.push(n),
    );
    if n < at {
        lemma_entries_among(u, leaf, kvs, path, (upto - 1) as nat, n);
    }
    assert forall|e: NodeEntry<K>| #[trigger] more.contains(e) implies all.contains(e) by {
        if n < at {
            assert(before.contains(e));
            let i = choose|i: int| 0 <= i < before.len() && before[i] == e;
            assert(all[i] == e);
        } else {
            let i = choose|i: int| 0 <= i < more.len() && more[i] == e;
            assert(all[before.len() + i] == e);
        }
    }
}

/// Keys can be put below a node with known hashes if they can be without, and the hashes of all nodes
/// that are written are known.
proof fn lemma_caches_insertable<'a, K>(
    store: Store<K>,
    u: Update,
    key: NodeKeyView,
    kvs: Seq<KeyValue<'a, K>>,
)
    requires
        insertable(store, uncached(u), key, kvs),
        complete(store, key, kvs),
        caches(u, insert_changes(store, uncached(u), key, kvs)),
    ensures
        insertable(store, u, key, kvs),
    decreases 64 - key.path.len(),
{
    let v = uncached(u);
    let c = insert_changes(store, v, key, kvs);
    match store[key] {
        NodeView::Leaf(leaf) => {
            let entries = built_entries(v, Some(leaf), kvs, key.path);
            lemma_insert_holds_leaf(store, v, key, kvs);
            assert forall|e: NodeEntry<K>| #[trigger] entries.contains(e) implies u.knows(
                e.0.path,
            ) by {
                assert(c.holds(e));
            }
            lemma_caches_built(u, Some(leaf), kvs, key.path);
        },
        NodeView::Internal(slots) => {
            let d = key.path.len();
            assert forall|n: u8| n < 16 && #[trigger] bucket(kvs, d, n).len() > 0 implies
                child_insertable(store, u, key, slots, kvs, n) && child_complete(
                store,
                key,
                slots,
                kvs,
                n,
            ) by {
                let kvs_below = bucket(kvs, d, n);
                let path_below = key.path.push(n);
                let more = child_changes(store, v, key, slots, kvs, n);
                lemma_agrees_below(store, u, key, kvs, n);
                assert(child_insertable(store, v, key, slots, kvs, n));
                assert(child_complete(store, key, slots, kvs, n));
                match slots[n as int] {
                    Some(child) => {
                        let next = child_key(key, child, n);
                        assert(more == insert_changes(store, v, next, kvs_below));
                        lemma_caches_insertable(store, u, next, kvs_below);
                        lemma_inserted_own(store, v, next, kvs_below);
                        assert(more.holds((v.key(path_below), inserted(store, v, next, kvs_below))));
                    },
                    None => {
                        let entries = built_entries(v, None::<LeafNode<K>>, kvs_below, path_below);
                        assert(more == built_changes(v, None, kvs_below, path_below));
                        lemma_built_changes_holds(v, None, kvs_below, path_below);
                        assert forall|e: NodeEntry<K>| #[trigger] entries.contains(
                            e,
                        ) implies u.knows(e.0.path) by {
                            assert(more.holds(e));
                        }
                        lemma_caches_built(u, None::<LeafNode<K>>, kvs_below, path_below);
                        lemma_built_own(v, None::<LeafNode<K>>, kvs_below, path_below);
                        assert(entries.contains(
                            (v.key(path_below), built(v, None, kvs_below, path_below)),
                        ));
                    },
                }
            }
            lemma_cached_inserted_at(store, u, key, kvs);
        },
    }
}

/// An update with known hashes comes to the same root and the same changes as one that works the hashes
/// out, if the known hashes of the nodes that the latter writes are their hashes. It does not matter
/// what else is known, nor what the base holds, as long as no node is missing.
pub proof fn lemma_known_hashes<'a, K>(
    store: Store<K>,
    u: Update,
    base: Option<Version>,
    kvs: Seq<KeyValue<'a, K>>,
)
    requires
        updatable(store, u, base, kvs),
        base is Some ==> complete(store, NodeKeyView::root(base.unwrap()), kvs),
        agrees_with(u, update_changes(store, uncached(u), base, kvs)),
    ensures
        updated_root(store, u, base, kvs) == updated_root(store, uncached(u), base, kvs),
        update_changes(store, u, base, kvs) == update_changes(store, uncached(u), base, kvs),
{
    let v = uncached(u);
    let top = Seq::<u8>::empty();
    match base {
        Some(version) => {
            lemma_cached_inserted(store, u, NodeKeyView::root(version), kvs);
        },
        None => {
            let entries = built_entries(v, None::<LeafNode<K>>, kvs, top);
            let c = update_changes(store, v, base, kvs);
            lemma_built_changes_holds(v, None::<LeafNode<K>>, kvs, top);
            assert forall|e: NodeEntry<K>| #[trigger] entries.contains(e) implies known_truly(
                u,
                e,
            ) by {
                assert(c.holds(e));
            }
            lemma_cached_built(u, None::<LeafNode<K>>, kvs, top);
        },
    }
}

/// An update that can be made without known hashes can be made with the hashes of all nodes that it then
/// writes, by their path, whatever else is known; and it comes to the same root and the same changes.
/// It does not matter what the base holds, as long as no node is missing: else nothing is written.
pub proof fn lemma_cached_hashes<'a, K>(
    store: Store<K>,
    u: Update,
    base: Option<Version>,
    kvs: Seq<KeyValue<'a, K>>,
)
    requires
        updatable(store, uncached(u), base, kvs),
        base is Some ==> complete(store, NodeKeyView::root(base.unwrap()), kvs),
        caches(u, update_changes(store, uncached(u), base, kvs)),
    ensures
        updatable(store, u, base, kvs),
        updated_root(store, u, base, kvs) == updated_root(store, uncached(u), base, kvs),
        update_changes(store, u, base, kvs) == update_changes(store, uncached(u), base, kvs),
{
    let v = uncached(u);
    let top = Seq::<u8>::empty();
    match base {
        Some(version) => {
            lemma_caches_insertable(store, u, NodeKeyView::root(version), kvs);
        },
        None => {
            let entries = built_entries(v, None::<LeafNode<K>>, kvs, top);
            let c = update_changes(store, v, base, kvs);
            lemma_built_changes_holds(v, None::<LeafNode<K>>, kvs, top);
            assert forall|e: NodeEntry<K>| #[trigger] entries.contains(e) implies u.knows(
                e.0.path,
            ) by {
                assert(c.holds(e));
            }
            lemma_caches_built(u, None::<LeafNode<K>>, kvs, top);
        },
    }
    lemma_known_hashes(store, u, base, kvs);
}

} // verus!
