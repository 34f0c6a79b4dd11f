//! What holds of writing: once its changes are committed, an update has made the tree that it is
//! meant to make.
use vstd::prelude::*;

use crate::batch::{
    lemma_absorb_holds, lemma_combine_holds, lemma_none_holds, lemma_same_lists,
    lemma_with_nodes_holds, Changes, NodeEntry, StaleView,
};
use crate::content::{
    content_hash, lemma_child_holds, lemma_node_hash, nothing, part, several, tree_holds, Content,
};
use crate::hash::HashValue;
use crate::lists::in_lists;
use crate::node_type::{Child, LeafNode, NodeKeyView, NodeView, Version};
use crate::ranges::{all_under, bucket, has_prefix, lemma_bucket};
use crate::read_laws::lemma_single_hash;
use crate::sorted::{lemma_precedes_irreflexive, precedes, sorted, Digits};
use crate::update::{
    built, built_changes, built_child, built_entries, built_entries_below, child_changes,
    child_insertable, child_key, has_key, insert_changes, insert_changes_below, insertable,
    inserted, inserted_child, is_moved, knows_built, leaf_bucket, lemma_bucket_sorted,
    lemma_built_depth, lemma_changes_below_wf, lemma_child_changes_wf, lemma_knows_below,
    lemma_separable_below, lemma_several_keys, moved_entry, one_key, outdated, separable, KeyValue,
    Store, Update, MAX_PARALLELIZABLE_DEPTH,
};

verus! {

/// The place of the entry with `key` as its key.
pub open spec fn index_of_key<V>(kvs: Seq<(HashValue, V)>, key: HashValue) -> int {
    choose|i: int| 0 <= i < kvs.len() && (#[trigger] kvs[i]).0 == key
}

/// The entry with `key` as its key.
pub open spec fn entry_of<V>(kvs: Seq<(HashValue, V)>, key: HashValue) -> (HashValue, V) {
    kvs[index_of_key(kvs, key)]
}

/// `content` with `kvs` put into it.
#[verifier::opaque]
pub open spec fn updated<'a, K>(
    u: Update,
    content: Content<K>,
    kvs: Seq<KeyValue<'a, K>>,
) -> Content<K> {
    Map::new(
        |k: HashValue| has_key(kvs, k) || content.contains_key(k),
        |k: HashValue|
            if has_key(kvs, k) {
                u.leaf(entry_of(kvs, k))
            } else {
                content[k]
            },
    )
}

/// What a leaf holds, if there is one.
pub open spec fn leaf_content<K>(leaf: Option<LeafNode<K>>) -> Content<K> {
    match leaf {
        Some(leaf) => Map::<HashValue, LeafNode<K>>::empty().insert(leaf.account_key, leaf),
        None => Map::empty(),
    }
}

/// The part with the keys below `path`.
pub open spec fn under<K>(content: Content<K>, path: Seq<u8>) -> Content<K> {
    Map::new(
        |k: HashValue| content.contains_key(k) && has_prefix(k, path),
        |k: HashValue| content[k],
    )
}

/// Whether the hashes that an update is given are those of a tree that holds `content`.
#[verifier::opaque]
pub open spec fn truthful<K>(u: Update, content: Content<K>) -> bool {
    u.hashes is Some ==> forall|p: Seq<u8>| #[trigger]
        u.hashes.unwrap().contains_key(p) ==> u.hashes.unwrap()[p] == content_hash(
            under(content, p),
            4 * p.len(),
        )
}

/// Whether the store has all of `entries`.
#[verifier::opaque]
pub open spec fn has_entries<K>(store: Store<K>, entries: Seq<NodeEntry<K>>) -> bool {
    forall|i: int|
        0 <= i < entries.len() ==> store.contains_key((#[trigger] entries[i]).0)
            && store[entries[i].0] == entries[i].1
}

pub proof fn lemma_has_entries<K>(store: Store<K>, a: Seq<NodeEntry<K>>, b: Seq<NodeEntry<K>>)
    requires
        has_entries(store, a + b),
    ensures
        has_entries(store, a),
        has_entries(store, b),
{
    reveal(has_entries);
    assert forall|i: int| 0 <= i < a.len() implies store.contains_key((#[trigger] a[i]).0)
        && store[a[i].0] == a[i].1 by {
        assert((a + b)[i] == a[i]);
    }
    assert forall|i: int| 0 <= i < b.len() implies store.contains_key((#[trigger] b[i]).0)
        && store[b[i].0] == b[i].1 by {
        assert((a + b)[a.len() + i] == b[i]);
    }
}

/// A key of sorted entries has one entry.
pub proof fn lemma_entry_of<V>(kvs: Seq<(HashValue, V)>, i: int)
    requires
        sorted(kvs),
        0 <= i < kvs.len(),
    ensures
        has_key(kvs, kvs[i].0),
        entry_of(kvs, kvs[i].0) == kvs[i],
{
    let key = kvs[i].0;
    let j = index_of_key(kvs, key);
    assert(0 <= j < kvs.len() && kvs[j].0 == key);
    if j < i {
        assert(precedes(kvs[j].0.digits(), kvs[i].0.digits()));
        lemma_precedes_irreflexive(kvs[j].0.digits(), kvs[i].0.digits());
    }
    if i < j {
        assert(precedes(kvs[i].0.digits(), kvs[j].0.digits()));
        lemma_precedes_irreflexive(kvs[i].0.digits(), kvs[j].0.digits());
    }
}

/// The entries of a bucket are the entries with its nibble.
pub proof fn lemma_bucket_keys<V>(kvs: Seq<(HashValue, V)>, path: Seq<u8>, n: u8)
    requires
        sorted(kvs),
        all_under(kvs, path),
    ensures
        forall|k: HashValue| #[trigger]
            has_key(bucket(kvs, path.len(), n), k) <==> has_key(kvs, k) && k.nibble_at(
                path.len() as int,
            ) == n,
        forall|k: HashValue| #[trigger]
            has_key(bucket(kvs, path.len(), n), k) ==> entry_of(bucket(kvs, path.len(), n), k)
                == entry_of(kvs, k),
{
    let d = path.len();
    let b = bucket(kvs, d, n);
    lemma_bucket(kvs, d, n);
    lemma_bucket_sorted(kvs, path, n);
    assert forall|k: HashValue| #[trigger] has_key(b, k) <==> has_key(kvs, k) && k.nibble_at(
        d as int,
    ) == n by {
        if has_key(b, k) {
            let i = choose|i: int| 0 <= i < b.len() && (#[trigger] b[i]).0 == k;
            assert(kvs.contains(b[i]));
            let j = choose|j: int| 0 <= j < kvs.len() && kvs[j] == b[i];
            assert(kvs[j].0 == k);
        }
        if has_key(kvs, k) && k.nibble_at(d as int) == n {
            let j = choose|j: int| 0 <= j < kvs.len() && (#[trigger] kvs[j]).0 == k;
            assert(b.contains(kvs[j]));
            let i = choose|i: int| 0 <= i < b.len() && b[i] == kvs[j];
            assert(b[i].0 == k);
        }
    }
    assert forall|k: HashValue| #[trigger] has_key(b, k) implies entry_of(b, k) == entry_of(
        kvs,
        k,
    ) by {
        let i = choose|i: int| 0 <= i < b.len() && (#[trigger] b[i]).0 == k;
        assert(kvs.contains(b[i]));
        let j = choose|j: int| 0 <= j < kvs.len() && kvs[j] == b[i];
        lemma_entry_of(kvs, j);
        lemma_entry_of(b, i);
    }
}

/// What an updated content has.
pub proof fn lemma_updated<'a, K>(u: Update, content: Content<K>, kvs: Seq<KeyValue<'a, K>>)
    ensures
        forall|k: HashValue| #[trigger]
            updated(u, content, kvs).contains_key(k) <==> has_key(kvs, k) || content.contains_key(
                k,
            ),
        forall|k: HashValue| #[trigger]
            updated(u, content, kvs).contains_key(k) ==> updated(u, content, kvs)[k] == if has_key(
                kvs,
                k,
            ) {
                u.leaf(entry_of(kvs, k))
            } else {
                content[k]
            },
        forall|k: HashValue| has_key(kvs, k) ==> (#[trigger] entry_of(kvs, k)).0 == k,
{
    reveal(updated);
}

/// The part of an updated content is the part of the content, updated.
pub proof fn lemma_updated_part<'a, K>(
    u: Update,
    content: Content<K>,
    kvs: Seq<KeyValue<'a, K>>,
    path: Seq<u8>,
    n: u8,
)
    requires
        sorted(kvs),
        all_under(kvs, path),
    ensures
        part(updated(u, content, kvs), path.len(), n) == updated(
            u,
            part(content, path.len(), n),
            bucket(kvs, path.len(), n),
        ),
{
    let d = path.len();
    lemma_bucket_keys(kvs, path, n);
    lemma_updated(u, content, kvs);
    lemma_updated(u, part(content, d, n), bucket(kvs, d, n));
    let left = part(updated(u, content, kvs), d, n);
    let right = updated(u, part(content, d, n), bucket(kvs, d, n));
    assert forall|k: HashValue| #[trigger] left.contains_key(k) <==> right.contains_key(k) by {
        assert(has_key(bucket(kvs, d, n), k) <==> has_key(kvs, k) && k.nibble_at(d as int) == n);
        assert(updated(u, content, kvs).contains_key(k) <==> has_key(kvs, k)
            || content.contains_key(k));
    }
    assert forall|k: HashValue| #[trigger] left.contains_key(k) implies left[k] == right[k] by {
        assert(updated(u, content, kvs).contains_key(k));
        assert(right.contains_key(k));
        assert(has_key(bucket(kvs, d, n), k) <==> has_key(kvs, k));
    }
    assert(left =~= right);
}

/// The part of the content below a path is the content below the longer path.
pub proof fn lemma_under_part<K>(content: Content<K>, path: Seq<u8>, n: u8)
    ensures
        part(under(content, path), path.len(), n) == under(content, path.push(n)),
{
    let below = path.push(n);
    assert forall|k: HashValue| #[trigger] has_prefix(k, below) <==> has_prefix(k, path)
        && k.nibble_at(path.len() as int) == n by {
        if has_prefix(k, below) {
            assert forall|j: int| 0 <= j < path.len() implies #[trigger] k.nibble_at(j)
                == path[j] by {
                assert(below[j] == path[j]);
            }
            assert(k.nibble_at(path.len() as int) == below[path.len() as int]);
        }
    }
    assert(part(under(content, path), path.len(), n) =~= under(content, below));
}

/// A key below a path is below the next step of the path if it has that nibble.
pub proof fn lemma_prefix_below(key: HashValue, path: Seq<u8>, n: u8)
    requires
        has_prefix(key, path),
        key.nibble_at(path.len() as int) == n,
    ensures
        has_prefix(key, path.push(n)),
{
    let below = path.push(n);
    assert forall|j: int| 0 <= j < below.len() implies #[trigger] key.nibble_at(j) == below[j] by {
        if j < path.len() {
            assert(key.nibble_at(j) == path[j]);
        }
    }
}

/// The nodes below a child are among those below its parent.
pub proof fn lemma_entries_below<'a, K>(
    store: Store<K>,
    u: Update,
    leaf: Option<LeafNode<K>>,
    kvs: Seq<KeyValue<'a, K>>,
    path: Seq<u8>,
    upto: nat,
    n: u8,
)
    requires
        path.len() < 64,
        n < upto <= 16,
        bucket(kvs, path.len(), n).len() > 0,
        has_entries(store, built_entries_below(u, leaf, kvs, path, upto)),
    ensures
        has_entries(
            store,
            built_entries(
                u,
                leaf_bucket(leaf, path.len(), n),
                bucket(kvs, path.len(), n),
                path.push(n),
            ),
        ),
    decreases upto,
{
    let at = (upto - 1) as u8;
    let before = built_entries_below(u, leaf, kvs, path, (upto - 1) as nat);
    if bucket(kvs, path.len(), at).len() > 0 {
        lemma_has_entries(
            store,
            before,
            built_entries(
                u,
                leaf_bucket(leaf, path.len(), at),
                bucket(kvs, path.len(), at),
                path.push(at),
            ),
        );
    }
    if n < at {
        lemma_entries_below(store, u, leaf, kvs, path, (upto - 1) as nat, n);
    }
}

/// The hash that an update puts down for a new node is the hash of what is below it.
proof fn lemma_new_hash<K>(
    store: Store<K>,
    u: Update,
    path: Seq<u8>,
    node: NodeView<K>,
    whole: Content<K>,
)
    requires
        path.len() <= 64,
        tree_holds(store, u.key(path), under(whole, path)),
        store[u.key(path)] == node,
        u.knows(path),
        truthful(u, whole),
    ensures
        u.hash_of(path, node) == content_hash(under(whole, path), 4 * path.len()),
{
    reveal(truthful);
    lemma_node_hash(store, u.key(path), under(whole, path));
}

/// A new subtree holds what it is built of.
pub proof fn lemma_built_holds<'a, K>(
    after: Store<K>,
    u: Update,
    leaf: Option<LeafNode<K>>,
    kvs: Seq<KeyValue<'a, K>>,
    path: Seq<u8>,
    whole: Content<K>,
)
    requires
        kvs.len() > 0,
        sorted(kvs),
        all_under(kvs, path),
        separable(leaf, kvs, path.len()),
        leaf is Some ==> has_prefix(leaf.unwrap().account_key, path),
        knows_built(u, leaf, kvs, path),
        path.len() <= 64,
        has_entries(after, built_entries(u, leaf, kvs, path)),
        truthful(u, whole),
        updated(u, leaf_content(leaf), kvs) == under(whole, path),
    ensures
        tree_holds(after, u.key(path), updated(u, leaf_content(leaf), kvs)),
        after[u.key(path)] == built(u, leaf, kvs, path),
    decreases 64 - path.len(), 1nat,
{
    let key = u.key(path);
    let node = built(u, leaf, kvs, path);
    let content = updated(u, leaf_content(leaf), kvs);
    let own = seq![(key, node)];
    lemma_updated(u, leaf_content(leaf), kvs);
    if !one_key(leaf, kvs) {
        lemma_built_depth(leaf, kvs, path);
    }
    if one_key(leaf, kvs) {
        assert(own[0] == (key, node));
        assert(after.contains_key(key) && after[key] == node) by {
            reveal(has_entries);
        }
        lemma_entry_of(kvs, 0);
        let new_leaf = u.leaf(kvs[0]);
        assert(has_prefix(kvs[0].0, path)) by {
            reveal(all_under);
        }
        assert(content =~= Map::<HashValue, LeafNode<K>>::empty().insert(
            new_leaf.account_key,
            new_leaf,
        )) by {
            assert forall|k: HashValue| #[trigger] content.contains_key(k) implies k
                == kvs[0].0 by {}
        }
    } else {
        let d = path.len();
        let slots = node->Internal_0;
        let below = built_entries_below(u, leaf, kvs, path, 16);
        lemma_has_entries(after, below + moved_entry(u, leaf, kvs, path), own);
        lemma_has_entries(after, below, moved_entry(u, leaf, kvs, path));
        assert(own[0] == (key, node));
        assert(after.contains_key(key) && after[key] == node) by {
            reveal(has_entries);
        }
        assert(several(content)) by {
            lemma_entry_of(kvs, 0);
            assert(content.contains_key(kvs[0].0));
            if kvs.len() >= 2 {
                lemma_several_keys(kvs, path);
                lemma_entry_of(kvs, 1);
                assert(content.contains_key(kvs[1].0));
            } else {
                assert(content.contains_key(leaf.unwrap().account_key));
            }
        }
        assert forall|k: HashValue| #[trigger] content.contains_key(k) implies has_prefix(k, path)
            && content[k].account_key == k by {
            assert(under(whole, path).contains_key(k));
        }
        assert forall|n: u8| n < 16 implies match #[trigger] slots[n as int] {
            None => nothing(part(content, d, n)),
            Some(child) => {
                &&& tree_holds(after, child_key(key, child, n), part(content, d, n))
                &&& child.hash == content_hash(part(content, d, n), 4 * (d + 1))
                &&& child.node_type == after[child_key(key, child, n)].node_type()
            },
        } by {
            lemma_built_child_holds(after, u, leaf, kvs, path, whole, n);
            assert(slots[n as int] == built_child(u, leaf, kvs, path, n));
        }
    }
}

/// A child of a new subtree holds its part of what the subtree is built of.
proof fn lemma_built_child_holds<'a, K>(
    after: Store<K>,
    u: Update,
    leaf: Option<LeafNode<K>>,
    kvs: Seq<KeyValue<'a, K>>,
    path: Seq<u8>,
    whole: Content<K>,
    n: u8,
)
    requires
        kvs.len() > 0,
        sorted(kvs),
        all_under(kvs, path),
        separable(leaf, kvs, path.len()),
        leaf is Some ==> has_prefix(leaf.unwrap().account_key, path),
        knows_built(u, leaf, kvs, path),
        path.len() < 64,
        !one_key(leaf, kvs),
        has_entries(after, built_entries_below(u, leaf, kvs, path, 16)),
        has_entries(after, moved_entry(u, leaf, kvs, path)),
        truthful(u, whole),
        updated(u, leaf_content(leaf), kvs) == under(whole, path),
        n < 16,
    ensures
        ({
            let below = part(updated(u, leaf_content(leaf), kvs), path.len(), n);
            match built_child(u, leaf, kvs, path, n) {
                None => nothing(below),
                Some(child) => {
                    &&& tree_holds(after, child_key(u.key(path), child, n), below)
                    &&& child.hash == content_hash(below, 4 * (path.len() + 1))
                    &&& child.node_type == after[child_key(u.key(path), child, n)].node_type()
                },
            }
        }),
    decreases 64 - path.len(), 0nat,
{
    let d = path.len();
    let content = updated(u, leaf_content(leaf), kvs);
    let kvs_below = bucket(kvs, d, n);
    let leaf_below = leaf_bucket(leaf, d, n);
    let path_below = path.push(n);
    lemma_updated_part(u, leaf_content(leaf), kvs, path, n);
    lemma_under_part(whole, path, n);
    assert(part(leaf_content(leaf), d, n) =~= leaf_content(leaf_below));
    let below = updated(u, leaf_content(leaf_below), kvs_below);
    assert(below == part(content, d, n));
    if leaf_below is Some {
        lemma_prefix_below(leaf_below.unwrap().account_key, path, n);
    }
    if kvs_below.len() > 0 {
        lemma_bucket_sorted(kvs, path, n);
        lemma_separable_below(leaf, kvs, d, n);
        lemma_knows_below(u, leaf, kvs, path, n);
        lemma_entries_below(after, u, leaf, kvs, path, 16, n);
        lemma_built_holds(after, u, leaf_below, kvs_below, path_below, whole);
        lemma_new_hash(after, u, path_below, built(u, leaf_below, kvs_below, path_below), whole);
    } else {
        lemma_updated(u, leaf_content(leaf_below), kvs_below);
        assert(below =~= leaf_content(leaf_below));
        if leaf_below is Some {
            let moved = moved_entry(u, leaf, kvs, path);
            assert(is_moved(leaf, kvs, d));
            assert(moved[0] == (u.key(path_below), NodeView::Leaf(leaf.unwrap())));
            assert(after.contains_key(u.key(path_below)) && after[u.key(path_below)]
                == NodeView::Leaf(leaf.unwrap())) by {
                reveal(has_entries);
            }
            lemma_single_hash(leaf.unwrap(), 4 * (d + 1));
        }
    }
}

/// Whether `place` is `path` or lies below it.
pub open spec fn lies_under(place: Seq<u8>, path: Seq<u8>) -> bool {
    &&& path.len() <= place.len()
    &&& forall|j: int| 0 <= j < path.len() ==> #[trigger] place[j] == path[j]
}

/// What lies below one child lies below its parent, and not below another child.
pub proof fn lemma_lies_under(place: Seq<u8>, path: Seq<u8>, n: u8)
    requires
        lies_under(place, path.push(n)),
    ensures
        lies_under(place, path),
        place != path,
        forall|m: u8| m != n ==> !#[trigger] lies_under(place, path.push(m)),
{
    let below = path.push(n);
    assert forall|j: int| 0 <= j < path.len() implies #[trigger] place[j] == path[j] by {
        assert(place[j] == below[j]);
    }
    assert(place[path.len() as int] == below[path.len() as int]);
    assert forall|m: u8| m != n implies !#[trigger] lies_under(place, path.push(m)) by {
        if lies_under(place, path.push(m)) {
            assert(place[path.len() as int] == path.push(m)[path.len() as int]);
        }
    }
}

/// The nodes of a new subtree are written at the update's version, below the path of the subtree.
pub proof fn lemma_built_places<'a, K>(
    u: Update,
    leaf: Option<LeafNode<K>>,
    kvs: Seq<KeyValue<'a, K>>,
    path: Seq<u8>,
)
    ensures
        forall|e: NodeEntry<K>| #[trigger]
            built_entries(u, leaf, kvs, path).contains(e) ==> e.0.version == u.version
                && lies_under(e.0.path, path),
    decreases 64 - path.len(), 17nat,
{
    let own = seq![(u.key(path), built(u, leaf, kvs, path))];
    let all = built_entries(u, leaf, kvs, path);
    if one_key(leaf, kvs) || path.len() >= 64 {
        assert forall|e: NodeEntry<K>| #[trigger] all.contains(e) implies e.0.version == u.version
            && lies_under(e.0.path, path) by {
            assert(e == own[0]);
        }
    } else {
        let below = built_entries_below(u, leaf, kvs, path, 16);
        let moved = moved_entry(u, leaf, kvs, path);
        lemma_built_places_below(u, leaf, kvs, path, 16);
        assert forall|e: NodeEntry<K>| #[trigger] all.contains(e) implies e.0.version == u.version
            && lies_under(e.0.path, path) by {
            let i = choose|i: int| 0 <= i < all.len() && all[i] == e;
            if i < below.len() {
                assert(below[i] == e);
                assert(below.contains(e));
            } else if i < below.len() + moved.len() {
                assert(moved[i - below.len()] == e);
                let n = leaf.unwrap().account_key.nibble_at(path.len() as int);
                assert(lies_under(path.push(n), path.push(n)));
                lemma_lies_under(path.push(n), path, n);
            } else {
                assert(own[i - below.len() - moved.len()] == e);
            }
        }
    }
}

pub proof fn lemma_built_places_below<'a, K>(
    u: Update,
    leaf: Option<LeafNode<K>>,
    kvs: Seq<KeyValue<'a, K>>,
    path: Seq<u8>,
    n: nat,
)
    requires
        path.len() < 64,
        n <= 16,
    ensures
        forall|e: NodeEntry<K>| #[trigger]
            built_entries_below(u, leaf, kvs, path, n).contains(e) ==> e.0.version == u.version
                && lies_under(e.0.path, path),
    decreases 64 - path.len(), n,
{
    if n > 0 {
        let at = (n - 1) as u8;
        let before = built_entries_below(u, leaf, kvs, path, (n - 1) as nat);
        let kvs_below = bucket(kvs, path.len(), at);
        let leaf_below = leaf_bucket(leaf, path.len(), at);
        lemma_built_places_below(u, leaf, kvs, path, (n - 1) as nat);
        if kvs_below.len() > 0 {
            let more = built_entries(u, leaf_below, kvs_below, path.push(at));
            lemma_built_places(u, leaf_below, kvs_below, path.push(at));
            let all = before + more;
            assert forall|e: NodeEntry<K>| #[trigger] all.contains(e) implies e.0.version
                == u.version && lies_under(e.0.path, path) by {
                let i = choose|i: int| 0 <= i < all.len() && all[i] == e;
                if i < before.len() {
                    assert(before.contains(e)) by {
                        assert(before[i] == e);
                    }
                } else {
                    assert(more.contains(e)) by {
                        assert(more[i - before.len()] == e);
                    }
                    lemma_lies_under(e.0.path, path, at);
                }
            }
        }
    }
}

/// Whether the changes below child `n` hold `entry`.
pub open spec fn child_holds<'a, K>(
    store: Store<K>,
    u: Update,
    key: NodeKeyView,
    slots: Seq<Option<Child>>,
    kvs: Seq<KeyValue<'a, K>>,
    n: u8,
    entry: NodeEntry<K>,
) -> bool {
    bucket(kvs, key.path.len(), n).len() > 0 && child_changes(
        store,
        u,
        key,
        slots,
        kvs,
        n,
    ).holds(entry)
}

/// Whether the changes below child `n` list `index`.
pub open spec fn child_lists<'a, K>(
    store: Store<K>,
    u: Update,
    key: NodeKeyView,
    slots: Seq<Option<Child>>,
    kvs: Seq<KeyValue<'a, K>>,
    n: u8,
    index: StaleView,
) -> bool {
    bucket(kvs, key.path.len(), n).len() > 0 && child_changes(
        store,
        u,
        key,
        slots,
        kvs,
        n,
    ).lists(index)
}

/// The change that outdates a node.
pub proof fn lemma_outdated_holds<K>(u: Update, key: NodeKeyView)
    ensures
        forall|e: NodeEntry<K>| !#[trigger] outdated::<K>(u, key).holds(e),
        forall|s: StaleView| #[trigger]
            outdated::<K>(u, key).lists(s) <==> s == (StaleView {
                stale_since_version: u.version,
                node_key: key,
            }),
{
    reveal(in_lists);
    let own = StaleView { stale_since_version: u.version, node_key: key };
    let c = outdated::<K>(u, key);
    assert(c.stale[0] =~= seq![own]);
    assert(c.stale[0][0] == own);
    assert(c.nodes[0] =~= Seq::empty());
}

/// The changes below a node are those below its children, and that the node is outdated.
pub proof fn lemma_below_holds<'a, K>(
    store: Store<K>,
    u: Update,
    key: NodeKeyView,
    slots: Seq<Option<Child>>,
    kvs: Seq<KeyValue<'a, K>>,
    n: nat,
)
    requires
        key.path.len() < 64,
        n <= 16,
    ensures
        forall|e: NodeEntry<K>| #[trigger]
            insert_changes_below(store, u, key, slots, kvs, n).holds(e) <==> exists|m: u8|
                m < n && #[trigger] child_holds(store, u, key, slots, kvs, m, e),
        forall|s: StaleView| #[trigger]
            insert_changes_below(store, u, key, slots, kvs, n).lists(s) <==> s == (StaleView {
                stale_since_version: u.version,
                node_key: key,
            }) || exists|m: u8|
                m < n && #[trigger] child_lists(store, u, key, slots, kvs, m, s),
    decreases n,
{
    let all = insert_changes_below(store, u, key, slots, kvs, n);
    if n == 0 {
        lemma_outdated_holds::<K>(u, key);
    } else {
        let at = (n - 1) as u8;
        let before = insert_changes_below(store, u, key, slots, kvs, (n - 1) as nat);
        let more = child_changes(store, u, key, slots, kvs, at);
        lemma_below_holds(store, u, key, slots, kvs, (n - 1) as nat);
        lemma_changes_below_wf(store, u, key, slots, kvs, (n - 1) as nat);
        lemma_child_changes_wf(store, u, key, slots, kvs, at);
        if bucket(kvs, key.path.len(), at).len() > 0 {
            if key.path.len() <= MAX_PARALLELIZABLE_DEPTH {
                lemma_combine_holds(before, more);
            } else {
                lemma_absorb_holds(before, more);
            }
        }
        assert forall|e: NodeEntry<K>| #[trigger] all.holds(e) <==> exists|m: u8|
            m < n && #[trigger] child_holds(store, u, key, slots, kvs, m, e) by {
            if all.holds(e) {
                if before.holds(e) {
                    let m = choose|m: u8|
                        m < n - 1 && #[trigger] child_holds(store, u, key, slots, kvs, m, e);
                    assert(child_holds(store, u, key, slots, kvs, m, e));
                } else {
                    assert(child_holds(store, u, key, slots, kvs, at, e));
                }
            }
            if exists|m: u8| m < n && #[trigger] child_holds(store, u, key, slots, kvs, m, e) {
                let m = choose|m: u8|
                    m < n && #[trigger] child_holds(store, u, key, slots, kvs, m, e);
                if m < n - 1 {
                    assert(before.holds(e));
                }
            }
        }
        assert forall|s: StaleView| #[trigger] all.lists(s) <==> s == (StaleView {
            stale_since_version: u.version,
            node_key: key,
        }) || exists|m: u8| m < n && #[trigger] child_lists(store, u, key, slots, kvs, m, s) by {
            if all.lists(s) {
                if before.lists(s) {
                    if exists|m: u8|
                        m < n - 1 && #[trigger] child_lists(store, u, key, slots, kvs, m, s) {
                        let m = choose|m: u8|
                            m < n - 1 && #[trigger] child_lists(store, u, key, slots, kvs, m, s);
                        assert(child_lists(store, u, key, slots, kvs, m, s));
                    }
                } else {
                    assert(child_lists(store, u, key, slots, kvs, at, s));
                }
            }
            if exists|m: u8| m < n && #[trigger] child_lists(store, u, key, slots, kvs, m, s) {
                let m = choose|m: u8|
                    m < n && #[trigger] child_lists(store, u, key, slots, kvs, m, s);
                if m < n - 1 {
                    assert(before.lists(s));
                }
            }
        }
    }
}

/// The changes at an internal node: those below its children, the new node, and that the old node is
/// outdated.
pub proof fn lemma_insert_holds_internal<'a, K>(
    store: Store<K>,
    u: Update,
    key: NodeKeyView,
    kvs: Seq<KeyValue<'a, K>>,
)
    requires
        store[key] is Internal,
        key.path.len() < 64,
    ensures
        ({
            let slots = store[key]->Internal_0;
            let c = insert_changes(store, u, key, kvs);
            &&& forall|e: NodeEntry<K>| #[trigger]
                c.holds(e) <==> e == (u.key(key.path), inserted(store, u, key, kvs)) || exists|m: u8|
                    m < 16 && #[trigger] child_holds(store, u, key, slots, kvs, m, e)
            &&& forall|s: StaleView| #[trigger]
                c.lists(s) <==> s == (StaleView { stale_since_version: u.version, node_key: key })
                    || exists|m: u8|
                    m < 16 && #[trigger] child_lists(store, u, key, slots, kvs, m, s)
        }),
{
    let slots = store[key]->Internal_0;
    let own = seq![(u.key(key.path), inserted(store, u, key, kvs))];
    let below = insert_changes_below(store, u, key, slots, kvs, 16);
    lemma_below_holds(store, u, key, slots, kvs, 16);
    lemma_changes_below_wf(store, u, key, slots, kvs, 16);
    lemma_with_nodes_holds(below, own);
    assert forall|e: NodeEntry<K>| #[trigger] own.contains(e) <==> e == own[0] by {
        if e == own[0] {
            assert(own.contains(own[0]));
        }
    }
}

/// The changes at a leaf: the nodes of a new subtree, and that the leaf is outdated.
pub proof fn lemma_insert_holds_leaf<'a, K>(
    store: Store<K>,
    u: Update,
    key: NodeKeyView,
    kvs: Seq<KeyValue<'a, K>>,
)
    requires
        store[key] is Leaf,
    ensures
        ({
            let c = insert_changes(store, u, key, kvs);
            &&& forall|e: NodeEntry<K>| #[trigger]
                c.holds(e) <==> built_entries(
                    u,
                    Some(store[key]->Leaf_0),
                    kvs,
                    key.path,
                ).contains(e)
            &&& forall|s: StaleView| #[trigger]
                c.lists(s) <==> s == (StaleView { stale_since_version: u.version, node_key: key })
        }),
{
    let leaf = Some(store[key]->Leaf_0);
    let entries = built_entries(u, leaf, kvs, key.path);
    let c = insert_changes(store, u, key, kvs);
    let base = outdated::<K>(u, key);
    lemma_outdated_holds::<K>(u, key);
    lemma_with_nodes_holds(base, entries);
    lemma_same_lists(c, base.with_nodes(entries));
}

/// The changes that build a new subtree: its nodes, and nothing is outdated.
pub proof fn lemma_built_changes_holds<'a, K>(
    u: Update,
    leaf: Option<LeafNode<K>>,
    kvs: Seq<KeyValue<'a, K>>,
    path: Seq<u8>,
)
    ensures
        forall|e: NodeEntry<K>| #[trigger]
            built_changes(u, leaf, kvs, path).holds(e) <==> built_entries(
                u,
                leaf,
                kvs,
                path,
            ).contains(e),
        forall|s: StaleView| !#[trigger] built_changes(u, leaf, kvs, path).lists(s),
{
    let entries = built_entries(u, leaf, kvs, path);
    lemma_none_holds::<K>();
    lemma_with_nodes_holds(Changes::<K>::none(), entries);
    lemma_same_lists(
        built_changes(u, leaf, kvs, path),
        Changes::<K>::none().with_nodes(entries),
    );
}

/// Whether changes are about places below `path` only: what is written is written at `version`, and
/// what is outdated is outdated since `version`.
pub open spec fn stays_under<K>(c: Changes<K>, version: Version, path: Seq<u8>) -> bool {
    &&& forall|e: NodeEntry<K>| #[trigger]
        c.holds(e) ==> e.0.version == version && lies_under(e.0.path, path)
    &&& forall|s: StaleView| #[trigger]
        c.lists(s) ==> s.stale_since_version == version && lies_under(s.node_key.path, path)
}

/// The changes that put keys below a node stay below that node's path, and carry the update's version.
pub proof fn lemma_insert_places<'a, K>(
    store: Store<K>,
    u: Update,
    key: NodeKeyView,
    kvs: Seq<KeyValue<'a, K>>,
)
    ensures
        stays_under(insert_changes(store, u, key, kvs), u.version, key.path),
    decreases 64 - key.path.len(), 1nat,
{
    let c = insert_changes(store, u, key, kvs);
    match store[key] {
        NodeView::Leaf(leaf) => {
            lemma_insert_holds_leaf(store, u, key, kvs);
            lemma_built_places(u, Some(leaf), kvs, key.path);
        },
        NodeView::Internal(slots) => {
            if key.path.len() >= 64 {
                lemma_outdated_holds::<K>(u, key);
            } else {
                lemma_insert_holds_internal(store, u, key, kvs);
                assert forall|e: NodeEntry<K>| #[trigger] c.holds(e) implies e.0.version
                    == u.version && lies_under(e.0.path, key.path) by {
                    if e != (u.key(key.path), inserted(store, u, key, kvs)) {
                        let m = choose|m: u8|
                            m < 16 && #[trigger] child_holds(store, u, key, slots, kvs, m, e);
                        lemma_child_places(store, u, key, slots, kvs, m);
                        lemma_lies_under(e.0.path, key.path, m);
                    }
                }
                assert forall|s: StaleView| #[trigger] c.lists(s) implies s.stale_since_version
                    == u.version && lies_under(s.node_key.path, key.path) by {
                    if s != (StaleView { stale_since_version: u.version, node_key: key }) {
                        let m = choose|m: u8|
                            m < 16 && #[trigger] child_lists(store, u, key, slots, kvs, m, s);
                        lemma_child_places(store, u, key, slots, kvs, m);
                        lemma_lies_under(s.node_key.path, key.path, m);
                    }
                }
            }
        },
    }
}

/// The changes below a child stay below that child's path.
pub proof fn lemma_child_places<'a, K>(
    store: Store<K>,
    u: Update,
    key: NodeKeyView,
    slots: Seq<Option<Child>>,
    kvs: Seq<KeyValue<'a, K>>,
    n: u8,
)
    requires
        key.path.len() < 64,
    ensures
        stays_under(child_changes(store, u, key, slots, kvs, n), u.version, key.path.push(n)),
    decreases 64 - key.path.len(), 0nat,
{
    let kvs_below = bucket(kvs, key.path.len(), n);
    match slots[n as int] {
        Some(child) => {
            lemma_insert_places(store, u, child_key(key, child, n), kvs_below);
        },
        None => {
            lemma_built_changes_holds(u, None, kvs_below, key.path.push(n));
            lemma_built_places(u, None, kvs_below, key.path.push(n));
        },
    }
}

/// What is changed below the place of a child is what is changed for that child.
pub proof fn lemma_changes_of_child<'a, K>(
    store: Store<K>,
    u: Update,
    key: NodeKeyView,
    kvs: Seq<KeyValue<'a, K>>,
    n: u8,
)
    requires
        store[key] is Internal,
        key.path.len() < 64,
        n < 16,
    ensures
        ({
            let slots = store[key]->Internal_0;
            let c = insert_changes(store, u, key, kvs);
            &&& forall|e: NodeEntry<K>|
                lies_under(e.0.path, key.path.push(n)) ==> (#[trigger] c.holds(e) <==> child_holds(
                    store,
                    u,
                    key,
                    slots,
                    kvs,
                    n,
                    e,
                ))
            &&& forall|s: StaleView|
                lies_under(s.node_key.path, key.path.push(n)) ==> (#[trigger] c.lists(s)
                    <==> child_lists(store, u, key, slots, kvs, n, s))
        }),
{
    let slots = store[key]->Internal_0;
    let c = insert_changes(store, u, key, kvs);
    lemma_insert_holds_internal(store, u, key, kvs);
    assert forall|e: NodeEntry<K>| lies_under(e.0.path, key.path.push(n)) implies (#[trigger]
    c.holds(e) <==> child_holds(store, u, key, slots, kvs, n, e)) by {
        lemma_lies_under(e.0.path, key.path, n);
        if c.holds(e) {
            let m = choose|m: u8| m < 16 && #[trigger] child_holds(store, u, key, slots, kvs, m, e);
            lemma_child_places(store, u, key, slots, kvs, m);
            assert(lies_under(e.0.path, key.path.push(m)));
        }
    }
    assert forall|s: StaleView| lies_under(s.node_key.path, key.path.push(n)) implies (#[trigger]
    c.lists(s) <==> child_lists(store, u, key, slots, kvs, n, s)) by {
        lemma_lies_under(s.node_key.path, key.path, n);
        if c.lists(s) {
            let m = choose|m: u8| m < 16 && #[trigger] child_lists(store, u, key, slots, kvs, m, s);
            lemma_child_places(store, u, key, slots, kvs, m);
            assert(lies_under(s.node_key.path, key.path.push(m)));
        }
    }
}

/// Whether `after` is `before` with the changes made as far as places below `path` go: what is written
/// is there, and what is neither written nor outdated is still there. What is outdated may be gone.
pub open spec fn commits_under<K>(
    before: Store<K>,
    after: Store<K>,
    c: Changes<K>,
    path: Seq<u8>,
) -> bool {
    &&& forall|e: NodeEntry<K>| #[trigger]
        c.holds(e) ==> after.contains_key(e.0) && after[e.0] == e.1
    &&& forall|k: NodeKeyView| #[trigger]
        before.contains_key(k) && lies_under(k.path, path) && !c.writes(k) && !c.outdates(k)
            ==> after.contains_key(k) && after[k] == before[k]
}

/// Whether `after` is `before` with the changes made: what is written is there, and what is neither
/// written nor outdated is still there. What is outdated may be gone.
pub open spec fn commits<K>(before: Store<K>, after: Store<K>, c: Changes<K>) -> bool {
    &&& forall|e: NodeEntry<K>| #[trigger]
        c.holds(e) ==> after.contains_key(e.0) && after[e.0] == e.1
    &&& forall|k: NodeKeyView| #[trigger]
        before.contains_key(k) && !c.writes(k) && !c.outdates(k) ==> after.contains_key(k)
            && after[k] == before[k]
}

/// A tree is still there if all that was below its path is still there.
pub proof fn lemma_frame<K>(
    before: Store<K>,
    after: Store<K>,
    key: NodeKeyView,
    content: Content<K>,
)
    requires
        tree_holds(before, key, content),
        forall|k: NodeKeyView| #[trigger]
            before.contains_key(k) && lies_under(k.path, key.path) ==> after.contains_key(k)
                && after[k] == before[k],
    ensures
        tree_holds(after, key, content),
        after[key] == before[key],
    decreases 64 - key.path.len(),
{
    assert(lies_under(key.path, key.path));
    if let NodeView::Internal(slots) = before[key] {
        let d = key.path.len();
        assert forall|n: u8| n < 16 implies match #[trigger] slots[n as int] {
            None => nothing(part(content, d, n)),
            Some(child) => {
                &&& tree_holds(after, child_key(key, child, n), part(content, d, n))
                &&& child.hash == content_hash(part(content, d, n), 4 * (d + 1))
                &&& child.node_type == after[child_key(key, child, n)].node_type()
            },
        } by {
            lemma_child_holds(before, key, content, n);
            if let Some(child) = slots[n as int] {
                let next = child_key(key, child, n);
                assert forall|k: NodeKeyView| #[trigger]
                    before.contains_key(k) && lies_under(k.path, next.path) implies after.contains_key(
                    k,
                ) && after[k] == before[k] by {
                    lemma_lies_under(k.path, key.path, n);
                }
                lemma_frame(before, after, next, part(content, d, n));
            }
        }
    }
}

/// Below a child without new keys nothing is changed.
pub proof fn lemma_untouched<'a, K>(
    before: Store<K>,
    u: Update,
    key: NodeKeyView,
    kvs: Seq<KeyValue<'a, K>>,
    n: u8,
    k: NodeKeyView,
)
    requires
        before[key] is Internal,
        key.path.len() < 64,
        n < 16,
        bucket(kvs, key.path.len(), n).len() == 0,
        lies_under(k.path, key.path.push(n)),
    ensures
        lies_under(k.path, key.path),
        !insert_changes(before, u, key, kvs).writes(k),
        !insert_changes(before, u, key, kvs).outdates(k),
{
    let c = insert_changes(before, u, key, kvs);
    let slots = before[key]->Internal_0;
    lemma_lies_under(k.path, key.path, n);
    lemma_changes_of_child(before, u, key, kvs, n);
    if c.writes(k) {
        let node = choose|node: NodeView<K>| #[trigger] c.holds((k, node));
        assert(child_holds(before, u, key, slots, kvs, n, (k, node)));
    }
    if c.outdates(k) {
        let since = choose|since: Version| #[trigger]
            c.lists(StaleView { stale_since_version: since, node_key: k });
        let index = StaleView { stale_since_version: since, node_key: k };
        assert(child_lists(before, u, key, slots, kvs, n, index));
    }
}

/// Where the changes at a node are committed, so are those below a child.
pub proof fn lemma_commits_child<'a, K>(
    before: Store<K>,
    after: Store<K>,
    u: Update,
    key: NodeKeyView,
    kvs: Seq<KeyValue<'a, K>>,
    n: u8,
)
    requires
        before[key] is Internal,
        key.path.len() < 64,
        n < 16,
        bucket(kvs, key.path.len(), n).len() > 0,
        commits_under(before, after, insert_changes(before, u, key, kvs), key.path),
    ensures
        commits_under(
            before,
            after,
            child_changes(before, u, key, before[key]->Internal_0, kvs, n),
            key.path.push(n),
        ),
{
    let c = insert_changes(before, u, key, kvs);
    let slots = before[key]->Internal_0;
    let below = child_changes(before, u, key, slots, kvs, n);
    lemma_changes_of_child(before, u, key, kvs, n);
    lemma_child_places(before, u, key, slots, kvs, n);
    assert forall|e: NodeEntry<K>| #[trigger] below.holds(e) implies after.contains_key(e.0)
        && after[e.0] == e.1 by {
        assert(child_holds(before, u, key, slots, kvs, n, e));
        assert(c.holds(e));
    }
    assert forall|k: NodeKeyView| #[trigger]
        before.contains_key(k) && lies_under(k.path, key.path.push(n)) && !below.writes(k)
            && !below.outdates(k) implies after.contains_key(k) && after[k] == before[k] by {
        lemma_lies_under(k.path, key.path, n);
        if c.writes(k) {
            let node = choose|node: NodeView<K>| #[trigger] c.holds((k, node));
            assert(child_holds(before, u, key, slots, kvs, n, (k, node)));
            assert(below.holds((k, node)));
        }
        if c.outdates(k) {
            let since = choose|since: Version| #[trigger]
                c.lists(StaleView { stale_since_version: since, node_key: k });
            let index = StaleView { stale_since_version: since, node_key: k };
            assert(child_lists(before, u, key, slots, kvs, n, index));
            assert(below.lists(index));
        }
    }
}

/// Putting keys below a node makes a tree that holds them, and all that was held before.
pub proof fn lemma_insert_holds<'a, K>(
    before: Store<K>,
    after: Store<K>,
    u: Update,
    key: NodeKeyView,
    content: Content<K>,
    kvs: Seq<KeyValue<'a, K>>,
    whole: Content<K>,
)
    requires
        tree_holds(before, key, content),
        key.path.len() <= 64,
        sorted(kvs),
        all_under(kvs, key.path),
        insertable(before, u, key, kvs),
        commits_under(before, after, insert_changes(before, u, key, kvs), key.path),
        truthful(u, whole),
        updated(u, content, kvs) == under(whole, key.path),
    ensures
        tree_holds(after, u.key(key.path), updated(u, content, kvs)),
        after[u.key(key.path)] == inserted(before, u, key, kvs),
    decreases 64 - key.path.len(), 1nat,
{
    let c = insert_changes(before, u, key, kvs);
    let all = updated(u, content, kvs);
    lemma_updated(u, content, kvs);
    match before[key] {
        NodeView::Leaf(leaf) => {
            let entries = built_entries(u, Some(leaf), kvs, key.path);
            lemma_insert_holds_leaf(before, u, key, kvs);
            assert(content =~= leaf_content(Some(leaf)));
            assert(has_entries(after, entries)) by {
                reveal(has_entries);
                assert forall|i: int| 0 <= i < entries.len() implies after.contains_key(
                    (#[trigger] entries[i]).0,
                ) && after[entries[i].0] == entries[i].1 by {
                    assert(entries.contains(entries[i]));
                    assert(c.holds(entries[i]));
                }
            }
            lemma_built_holds(after, u, Some(leaf), kvs, key.path, whole);
        },
        NodeView::Internal(slots) => {
            let d = key.path.len();
            let own = u.key(key.path);
            let node = inserted(before, u, key, kvs);
            let new_slots = node->Internal_0;
            lemma_insert_holds_internal(before, u, key, kvs);
            assert(c.holds((own, node)));
            assert(after.contains_key(own) && after[own] == node);
            assert(several(all)) by {
                let (a, b) = choose|a: HashValue, b: HashValue| #[trigger]
                    content.contains_key(a) && #[trigger] content.contains_key(b) && a != b;
                assert(all.contains_key(a) && all.contains_key(b));
            }
            assert forall|k: HashValue| #[trigger] all.contains_key(k) implies has_prefix(
                k,
                key.path,
            ) && all[k].account_key == k by {
                assert(under(whole, key.path).contains_key(k));
            }
            assert forall|n: u8| n < 16 implies match #[trigger] new_slots[n as int] {
                None => nothing(part(all, d, n)),
                Some(child) => {
                    &&& tree_holds(after, child_key(own, child, n), part(all, d, n))
                    &&& child.hash == content_hash(part(all, d, n), 4 * (d + 1))
                    &&& child.node_type == after[child_key(own, child, n)].node_type()
                },
            } by {
                lemma_insert_child_holds(before, after, u, key, content, kvs, whole, n);
                assert(new_slots[n as int] == inserted_child(before, u, key, slots, kvs, n));
            }
        },
    }
}

/// What a child of an updated node holds.
proof fn lemma_insert_child_holds<'a, K>(
    before: Store<K>,
    after: Store<K>,
    u: Update,
    key: NodeKeyView,
    content: Content<K>,
    kvs: Seq<KeyValue<'a, K>>,
    whole: Content<K>,
    n: u8,
)
    requires
        tree_holds(before, key, content),
        before[key] is Internal,
        key.path.len() < 64,
        sorted(kvs),
        all_under(kvs, key.path),
        insertable(before, u, key, kvs),
        commits_under(before, after, insert_changes(before, u, key, kvs), key.path),
        truthful(u, whole),
        updated(u, content, kvs) == under(whole, key.path),
        n < 16,
    ensures
        ({
            let slots = before[key]->Internal_0;
            let own = u.key(key.path);
            let below = part(updated(u, content, kvs), key.path.len(), n);
            match inserted_child(before, u, key, slots, kvs, n) {
                None => nothing(below),
                Some(child) => {
                    &&& tree_holds(after, child_key(own, child, n), below)
                    &&& child.hash == content_hash(below, 4 * (key.path.len() + 1))
                    &&& child.node_type == after[child_key(own, child, n)].node_type()
                },
            }
        }),
    decreases 64 - key.path.len(), 0nat,
{
    let d = key.path.len();
    let slots = before[key]->Internal_0;
    let c = insert_changes(before, u, key, kvs);
    let kvs_below = bucket(kvs, d, n);
    let path_below = key.path.push(n);
    let part_before = part(content, d, n);
    lemma_updated_part(u, content, kvs, key.path, n);
    lemma_under_part(whole, key.path, n);
    lemma_child_holds(before, key, content, n);
    if kvs_below.len() == 0 {
        lemma_updated(u, part_before, kvs_below);
        assert(updated(u, part_before, kvs_below) =~= part_before);
        if let Some(child) = slots[n as int] {
            let next = child_key(key, child, n);
            assert forall|k: NodeKeyView| #[trigger]
                before.contains_key(k) && lies_under(k.path, next.path) implies after.contains_key(k)
                && after[k] == before[k] by {
                lemma_untouched(before, u, key, kvs, n, k);
            }
            lemma_frame(before, after, next, part_before);
        }
    } else {
        lemma_bucket_sorted(kvs, key.path, n);
        assert(child_insertable(before, u, key, slots, kvs, n));
        let below_changes = child_changes(before, u, key, slots, kvs, n);
        lemma_commits_child(before, after, u, key, kvs, n);
        match slots[n as int] {
            Some(child) => {
                let next = child_key(key, child, n);
                lemma_insert_holds(before, after, u, next, part_before, kvs_below, whole);
                lemma_new_hash(
                    after,
                    u,
                    path_below,
                    inserted(before, u, next, kvs_below),
                    whole,
                );
            },
            None => {
                let entries = built_entries(u, None, kvs_below, path_below);
                lemma_built_changes_holds(u, None, kvs_below, path_below);
                assert(part_before =~= leaf_content(None));
                assert(has_entries(after, entries)) by {
                    reveal(has_entries);
                    assert forall|i: int| 0 <= i < entries.len() implies after.contains_key(
                        (#[trigger] entries[i]).0,
                    ) && after[entries[i].0] == entries[i].1 by {
                        assert(entries.contains(entries[i]));
                        assert(below_changes.holds(entries[i]));
                    }
                }
                assert(separable(None::<LeafNode<K>>, kvs_below, d + 1)) by {
                    reveal(separable);
                }
                lemma_built_holds(after, u, None, kvs_below, path_below, whole);
                lemma_new_hash(after, u, path_below, built(u, None, kvs_below, path_below), whole);
            },
        }
    }
}

} // verus!
