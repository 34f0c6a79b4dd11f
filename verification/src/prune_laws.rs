//! What holds of versions and of pruning: an update leaves other versions alone, and lists as stale
//! exactly the nodes that the new tree does without: those on the way to the keys.
use vstd::prelude::*;

use crate::batch::{NodeEntry, StaleView};
use crate::content::{lemma_child_holds, nothing, part, tree_holds, Content};
use crate::hash::HashValue;
use crate::laws::lemma_separable;
use crate::lookup::{lookup, lookup_at};
use crate::node_type::{descend, LeafNode, NodeKeyView, NodeView, Version};
use crate::ranges::{all_under, bucket, has_prefix, lemma_bucket};
use crate::read_laws::lemma_read;
use crate::sorted::sorted;
use crate::update::{
    built, built_child, built_entries, built_entries_below, child_changes, child_complete,
    child_key, complete, insert_changes, inserted, inserted_child, leaf_bucket, lemma_bucket_sorted,
    lemma_built_depth, lemma_separable_below, moved_entry, one_key, outdated, separable,
    update_changes, KeyValue, Store, Update,
};
use crate::write_laws::{
    child_lists, commits, commits_under, has_entries, lemma_built_changes_holds, lemma_built_places,
    lemma_changes_of_child, lemma_child_places, lemma_commits_child, lemma_entries_below,
    lemma_frame, lemma_has_entries, lemma_insert_holds_internal, lemma_insert_holds_leaf,
    lemma_insert_places, lemma_lies_under, lemma_outdated_holds, lemma_untouched, lies_under,
};

verus! {

/// The changes of an update are about the new version only: it writes nodes of that version, and what
/// it outdates is outdated since that version.
pub proof fn lemma_one_version<'a, K>(
    store: Store<K>,
    u: Update,
    base: Option<Version>,
    kvs: Seq<KeyValue<'a, K>>,
)
    ensures
        forall|e: NodeEntry<K>| #[trigger]
            update_changes(store, u, base, kvs).holds(e) ==> e.0.version == u.version,
        forall|s: StaleView| #[trigger]
            update_changes(store, u, base, kvs).lists(s) ==> s.stale_since_version == u.version,
{
    match base {
        Some(version) => {
            lemma_insert_places(store, u, NodeKeyView::root(version), kvs);
        },
        None => {
            lemma_built_changes_holds(u, None, kvs, Seq::empty());
            lemma_built_places(u, None, kvs, Seq::empty());
        },
    }
}

/// As long as nothing is pruned, an update to a new version leaves the trees of all other versions as
/// they are: they hold the same, and each read finds the same value with the same proof.
pub proof fn lemma_other_versions<'a, K>(
    before: Store<K>,
    after: Store<K>,
    u: Update,
    base: Option<Version>,
    kvs: Seq<KeyValue<'a, K>>,
    version: Version,
    content: Content<K>,
)
    requires
        forall|k: NodeKeyView| #[trigger] before.contains_key(k) ==> k.version != u.version,
        forall|k: NodeKeyView| #[trigger]
            before.contains_key(k) && !update_changes(before, u, base, kvs).writes(k)
                ==> after.contains_key(k) && after[k] == before[k],
        tree_holds(before, NodeKeyView::root(version), content),
    ensures
        tree_holds(after, NodeKeyView::root(version), content),
        after[NodeKeyView::root(version)] == before[NodeKeyView::root(version)],
        forall|key: HashValue| #[trigger]
            lookup_at(after, version, key) == lookup_at(before, version, key),
{
    let c = update_changes(before, u, base, kvs);
    lemma_one_version(before, u, base, kvs);
    assert forall|k: NodeKeyView| #[trigger] before.contains_key(k) implies after.contains_key(k)
        && after[k] == before[k] by {
        if c.writes(k) {
            let node = choose|node: NodeView<K>| #[trigger] c.holds((k, node));
            assert(c.holds((k, node)));
        }
    }
    lemma_frame(before, after, NodeKeyView::root(version), content);
    assert forall|key: HashValue| #[trigger]
        lookup_at(after, version, key) == lookup_at(before, version, key) by {
        lemma_read(before, version, content, key);
        lemma_same_lookup(before, after, NodeKeyView::root(version), key, 0);
    }
}

/// The way to a key stays the same if it could be gone to its end and all nodes are still there.
proof fn lemma_same_lookup<K>(
    before: Store<K>,
    after: Store<K>,
    node_key: NodeKeyView,
    key: HashValue,
    depth: nat,
)
    requires
        lookup(before, node_key, key, depth).ends(),
        forall|k: NodeKeyView| #[trigger]
            before.contains_key(k) ==> after.contains_key(k) && after[k] == before[k],
    ensures
        lookup(after, node_key, key, depth) == lookup(before, node_key, key, depth),
    decreases 64 - depth,
{
    if let NodeView::Internal(slots) = before[node_key] {
        if depth < 64 {
            if let Some(i) = descend(slots, key.nibble_at(depth as int) as int, 0, 16).0 {
                lemma_same_lookup(
                    before,
                    after,
                    child_key(node_key, slots[i].unwrap(), i as u8),
                    key,
                    depth + 1,
                );
            }
        }
    }
}

/// Whether `k` is the key of a node of the subtree at `key`.
pub open spec fn in_tree<K>(store: Store<K>, key: NodeKeyView, k: NodeKeyView) -> bool
    decreases 64 - key.path.len(),
{
    k == key || match store[key] {
        NodeView::Leaf(_) => false,
        NodeView::Internal(slots) => key.path.len() < 64 && exists|n: u8|
            n < 16 && #[trigger] slots[n as int] is Some && in_tree(
                store,
                child_key(key, slots[n as int].unwrap(), n),
                k,
            ),
    }
}

/// The nodes of a subtree lie below its path, and only its first node at its path.
proof fn lemma_in_tree_place<K>(store: Store<K>, key: NodeKeyView, k: NodeKeyView)
    requires
        in_tree(store, key, k),
    ensures
        lies_under(k.path, key.path),
        k.path == key.path ==> k == key,
    decreases 64 - key.path.len(),
{
    if k != key {
        if let NodeView::Internal(slots) = store[key] {
            let n = choose|n: u8|
                n < 16 && #[trigger] slots[n as int] is Some && in_tree(
                    store,
                    child_key(key, slots[n as int].unwrap(), n),
                    k,
                );
            lemma_in_tree_place(store, child_key(key, slots[n as int].unwrap(), n), k);
            lemma_lies_under(k.path, key.path, n);
        }
    }
}

/// The nodes of a subtree below the place of a child are the nodes of the child's subtree.
proof fn lemma_in_tree_child<K>(store: Store<K>, key: NodeKeyView, n: u8, k: NodeKeyView)
    requires
        store[key] is Internal,
        key.path.len() < 64,
        n < 16,
        lies_under(k.path, key.path.push(n)),
    ensures
        in_tree(store, key, k) <==> match store[key]->Internal_0[n as int] {
            Some(child) => in_tree(store, child_key(key, child, n), k),
            None => false,
        },
{
    let slots = store[key]->Internal_0;
    lemma_lies_under(k.path, key.path, n);
    if in_tree(store, key, k) {
        let m = choose|m: u8|
            m < 16 && #[trigger] slots[m as int] is Some && in_tree(
                store,
                child_key(key, slots[m as int].unwrap(), m),
                k,
            );
        lemma_in_tree_place(store, child_key(key, slots[m as int].unwrap(), m), k);
        assert(lies_under(k.path, key.path.push(m)));
    }
    let _ = slots[n as int] is Some;
}

/// A node of a subtree other than the first one lies below the place of a child.
proof fn lemma_in_some_child<K>(store: Store<K>, key: NodeKeyView, k: NodeKeyView) -> (n: u8)
    requires
        in_tree(store, key, k),
        k != key,
    ensures
        store[key] is Internal,
        key.path.len() < 64,
        n < 16,
        lies_under(k.path, key.path.push(n)),
{
    let slots = store[key]->Internal_0;
    let n = choose|n: u8|
        n < 16 && #[trigger] slots[n as int] is Some && in_tree(
            store,
            child_key(key, slots[n as int].unwrap(), n),
            k,
        );
    lemma_in_tree_place(store, child_key(key, slots[n as int].unwrap(), n), k);
    n
}

/// The nodes of a tree are the same if all that was below its path is still there.
proof fn lemma_in_tree_frame<K>(
    before: Store<K>,
    after: Store<K>,
    key: NodeKeyView,
    content: Content<K>,
    k: NodeKeyView,
)
    requires
        tree_holds(before, key, content),
        forall|k: NodeKeyView| #[trigger]
            before.contains_key(k) && lies_under(k.path, key.path) ==> after.contains_key(k)
                && after[k] == before[k],
    ensures
        in_tree(before, key, k) <==> in_tree(after, key, k),
    decreases 64 - key.path.len(),
{
    assert(lies_under(key.path, key.path));
    assert(after[key] == before[key]);
    if k != key && before[key] is Internal && (in_tree(before, key, k) || in_tree(after, key, k)) {
        let slots = before[key]->Internal_0;
        let n = if in_tree(before, key, k) {
            lemma_in_some_child(before, key, k)
        } else {
            lemma_in_some_child(after, key, k)
        };
        lemma_in_tree_child(before, key, n, k);
        lemma_in_tree_child(after, key, n, k);
        lemma_child_holds(before, key, content, n);
        if let Some(child) = slots[n as int] {
            let next = child_key(key, child, n);
            assert forall|k: NodeKeyView| #[trigger]
                before.contains_key(k) && lies_under(k.path, next.path) implies after.contains_key(k)
                && after[k] == before[k] by {
                lemma_lies_under(k.path, key.path, n);
            }
            lemma_in_tree_frame(before, after, next, part(content, key.path.len(), n), k);
        }
    }
}

/// All nodes of a new subtree are nodes of the update's version.
proof fn lemma_built_in_tree<'a, K>(
    after: Store<K>,
    u: Update,
    leaf: Option<LeafNode<K>>,
    kvs: Seq<KeyValue<'a, K>>,
    path: Seq<u8>,
    k: NodeKeyView,
)
    requires
        kvs.len() > 0,
        sorted(kvs),
        all_under(kvs, path),
        separable(leaf, kvs, path.len()),
        has_entries(after, built_entries(u, leaf, kvs, path)),
        in_tree(after, u.key(path), k),
    ensures
        k.version == u.version,
    decreases 64 - path.len(),
{
    let key = u.key(path);
    let node = built(u, leaf, kvs, path);
    let own = seq![(key, node)];
    if k != key {
        if !one_key(leaf, kvs) {
            lemma_built_depth(leaf, kvs, path);
            let below = built_entries_below(u, leaf, kvs, path, 16);
            lemma_has_entries(after, below + moved_entry(u, leaf, kvs, path), own);
            lemma_has_entries(after, below, moved_entry(u, leaf, kvs, path));
        }
        assert(own[0] == (key, node));
        assert(after[key] == node) by {
            reveal(has_entries);
        }
        let n = lemma_in_some_child(after, key, k);
        let slots = node->Internal_0;
        assert(slots[n as int] == built_child(u, leaf, kvs, path, n));
        lemma_in_tree_child(after, key, n, k);
        let kvs_below = bucket(kvs, path.len(), n);
        let leaf_below = leaf_bucket(leaf, path.len(), n);
        if kvs_below.len() > 0 {
            lemma_bucket_sorted(kvs, path, n);
            lemma_separable_below(leaf, kvs, path.len(), n);
            lemma_entries_below(after, u, leaf, kvs, path, 16, n);
            lemma_built_in_tree(after, u, leaf_below, kvs_below, path.push(n), k);
        } else {
            let moved = moved_entry(u, leaf, kvs, path);
            assert(moved[0] == (u.key(path.push(n)), NodeView::Leaf(leaf.unwrap())));
            assert(after[u.key(path.push(n))] == NodeView::Leaf(leaf.unwrap())) by {
                reveal(has_entries);
            }
        }
    }
}

/// Putting keys below a node outdates exactly those nodes of the subtree that the new subtree does
/// without.
proof fn lemma_stale_below<'a, K>(
    before: Store<K>,
    after: Store<K>,
    u: Update,
    key: NodeKeyView,
    content: Content<K>,
    kvs: Seq<KeyValue<'a, K>>,
    k: NodeKeyView,
)
    requires
        tree_holds(before, key, content),
        sorted(kvs),
        all_under(kvs, key.path),
        kvs.len() > 0 || before[key] is Internal,
        commits_under(before, after, insert_changes(before, u, key, kvs), key.path),
        forall|k: NodeKeyView| #[trigger] in_tree(before, key, k) ==> k.version != u.version,
    ensures
        insert_changes(before, u, key, kvs).outdates(k) <==> in_tree(before, key, k) && !in_tree(
            after,
            u.key(key.path),
            k,
        ),
    decreases 64 - key.path.len(),
{
    let c = insert_changes(before, u, key, kvs);
    let own = u.key(key.path);
    let own_stale = StaleView { stale_since_version: u.version, node_key: key };
    lemma_insert_places(before, u, key, kvs);
    assert(in_tree(before, key, key));
    if c.outdates(k) {
        let since = choose|since: Version| #[trigger]
            c.lists(StaleView { stale_since_version: since, node_key: k });
        assert(since == u.version);
    }
    let stale = StaleView { stale_since_version: u.version, node_key: k };
    assert(c.outdates(k) <==> c.lists(stale));
    match before[key] {
        NodeView::Leaf(leaf) => {
            let entries = built_entries(u, Some(leaf), kvs, key.path);
            lemma_insert_holds_leaf(before, u, key, kvs);
            if k == key && in_tree(after, own, k) {
                assert(has_entries(after, entries)) by {
                    reveal(has_entries);
                    assert forall|i: int| 0 <= i < entries.len() implies after.contains_key(
                        (#[trigger] entries[i]).0,
                    ) && after[entries[i].0] == entries[i].1 by {
                        assert(entries.contains(entries[i]));
                        assert(c.holds(entries[i]));
                    }
                }
                lemma_separable(leaf, kvs, key.path);
                lemma_built_in_tree(after, u, Some(leaf), kvs, key.path, k);
            }
        },
        NodeView::Internal(slots) => {
            let node = inserted(before, u, key, kvs);
            let new_slots = node->Internal_0;
            lemma_insert_holds_internal(before, u, key, kvs);
            assert(c.holds((own, node)));
            assert(after[own] == node);
            if k == key {
                if in_tree(after, own, k) {
                    lemma_in_tree_place(after, own, k);
                }
            } else if c.lists(stale) || in_tree(before, key, k) {
                let n = if in_tree(before, key, k) {
                    lemma_in_some_child(before, key, k)
                } else {
                    let m = choose|m: u8|
                        m < 16 && #[trigger] child_lists(before, u, key, slots, kvs, m, stale);
                    lemma_child_places(before, u, key, slots, kvs, m);
                    assert(lies_under(stale.node_key.path, key.path.push(m)));
                    m
                };
                let d = key.path.len();
                let kvs_below = bucket(kvs, d, n);
                let below = child_changes(before, u, key, slots, kvs, n);
                lemma_lies_under(k.path, key.path, n);
                lemma_in_tree_child(before, key, n, k);
                lemma_in_tree_child(after, own, n, k);
                lemma_changes_of_child(before, u, key, kvs, n);
                lemma_child_holds(before, key, content, n);
                assert(c.lists(stale) <==> child_lists(before, u, key, slots, kvs, n, stale));
                assert(new_slots[n as int] == inserted_child(before, u, key, slots, kvs, n));
                match slots[n as int] {
                    Some(child) => {
                        let next = child_key(key, child, n);
                        if kvs_below.len() == 0 {
                            assert forall|k: NodeKeyView| #[trigger]
                                before.contains_key(k) && lies_under(
                                    k.path,
                                    next.path,
                                ) implies after.contains_key(k) && after[k] == before[k] by {
                                lemma_untouched(before, u, key, kvs, n, k);
                            }
                            lemma_in_tree_frame(before, after, next, part(content, d, n), k);
                        } else {
                            lemma_bucket_sorted(kvs, key.path, n);
                            lemma_commits_child(before, after, u, key, kvs, n);
                            assert forall|j: NodeKeyView| #[trigger]
                                in_tree(before, next, j) implies j.version != u.version by {
                                lemma_in_tree_place(before, next, j);
                                lemma_in_tree_child(before, key, n, j);
                                assert(in_tree(before, key, j));
                            }
                            lemma_stale_below(
                                before,
                                after,
                                u,
                                next,
                                part(content, d, n),
                                kvs_below,
                                k,
                            );
                            assert(below.outdates(k) <==> below.lists(stale)) by {
                                lemma_child_places(before, u, key, slots, kvs, n);
                                if below.outdates(k) {
                                    let since = choose|since: Version| #[trigger]
                                        below.lists(
                                            StaleView { stale_since_version: since, node_key: k },
                                        );
                                    assert(since == u.version);
                                }
                            }
                        }
                    },
                    None => {
                        lemma_built_changes_holds(u, None, kvs_below, key.path.push(n));
                    },
                }
            }
        },
    }
}

/// An update to a new version lists as stale exactly those nodes of the base tree that are not nodes
/// of the new tree. So they can be pruned once the base version is not needed any more, and nothing
/// else of the base tree can.
pub proof fn lemma_stale_nodes<'a, K>(
    before: Store<K>,
    after: Store<K>,
    u: Update,
    version: Version,
    content: Content<K>,
    kvs: Seq<KeyValue<'a, K>>,
    k: NodeKeyView,
)
    requires
        tree_holds(before, NodeKeyView::root(version), content),
        sorted(kvs),
        kvs.len() > 0 || before[NodeKeyView::root(version)] is Internal,
        commits(before, after, update_changes(before, u, Some(version), kvs)),
        forall|k: NodeKeyView| #[trigger]
            in_tree(before, NodeKeyView::root(version), k) ==> k.version != u.version,
    ensures
        update_changes(before, u, Some(version), kvs).outdates(k) <==> in_tree(
            before,
            NodeKeyView::root(version),
            k,
        ) && !in_tree(after, NodeKeyView::root(u.version), k),
{
    assert(all_under(kvs, Seq::<u8>::empty())) by {
        reveal(all_under);
    }
    assert(u.key(Seq::<u8>::empty()) == NodeKeyView::root(u.version));
    lemma_stale_below(before, after, u, NodeKeyView::root(version), content, kvs, k);
}

/// The first tree outdates nothing.
pub proof fn lemma_nothing_stale<'a, K>(
    store: Store<K>,
    u: Update,
    kvs: Seq<KeyValue<'a, K>>,
    k: NodeKeyView,
)
    ensures
        !update_changes(store, u, None, kvs).outdates(k),
{
    lemma_built_changes_holds(u, None, kvs, Seq::empty());
}

/// Whether `path` is the beginning of one of the keys.
pub open spec fn leads_to_key<V>(kvs: Seq<(HashValue, V)>, path: Seq<u8>) -> bool {
    exists|i: int| 0 <= i < kvs.len() && has_prefix((#[trigger] kvs[i]).0, path)
}

/// What leads to a key of a bucket is what leads to a key and lies below the place of the bucket.
proof fn lemma_leads_below<V>(kvs: Seq<(HashValue, V)>, path: Seq<u8>, n: u8, place: Seq<u8>)
    requires
        lies_under(place, path.push(n)),
    ensures
        leads_to_key(bucket(kvs, path.len(), n), place) <==> leads_to_key(kvs, place),
{
    let b = bucket(kvs, path.len(), n);
    lemma_bucket(kvs, path.len(), n);
    if leads_to_key(b, place) {
        let i = choose|i: int| 0 <= i < b.len() && has_prefix((#[trigger] b[i]).0, place);
        assert(kvs.contains(b[i]));
        let j = choose|j: int| 0 <= j < kvs.len() && kvs[j] == b[i];
        assert(has_prefix(kvs[j].0, place));
    }
    if leads_to_key(kvs, place) {
        let j = choose|j: int| 0 <= j < kvs.len() && has_prefix((#[trigger] kvs[j]).0, place);
        let d = path.len() as int;
        assert(place[d] == path.push(n)[d]);
        assert(kvs[j].0.nibble_at(d) == place[d]);
        assert(b.contains(kvs[j]));
        let i = choose|i: int| 0 <= i < b.len() && b[i] == kvs[j];
        assert(has_prefix(b[i].0, place));
    }
}

/// Putting keys below a node outdates that node and, below it, exactly the nodes whose path is the
/// beginning of one of the keys. All of them are in the store if no node is missing.
pub proof fn lemma_outdated_nodes<'a, K>(
    store: Store<K>,
    u: Update,
    key: NodeKeyView,
    kvs: Seq<KeyValue<'a, K>>,
    k: NodeKeyView,
)
    requires
        sorted(kvs),
        all_under(kvs, key.path),
    ensures
        insert_changes(store, u, key, kvs).outdates(k) <==> k == key || (in_tree(store, key, k)
            && leads_to_key(kvs, k.path)),
        insert_changes(store, u, key, kvs).outdates(k) && complete(store, key, kvs)
            ==> store.contains_key(k),
    decreases 64 - key.path.len(), 1nat,
{
    let c = insert_changes(store, u, key, kvs);
    let stale = StaleView { stale_since_version: u.version, node_key: k };
    lemma_insert_places(store, u, key, kvs);
    assert(c.outdates(k) <==> c.lists(stale)) by {
        if c.outdates(k) {
            let since = choose|since: Version| #[trigger]
                c.lists(StaleView { stale_since_version: since, node_key: k });
            assert(since == u.version);
        }
    }
    match store[key] {
        NodeView::Leaf(leaf) => {
            lemma_insert_holds_leaf(store, u, key, kvs);
        },
        NodeView::Internal(slots) => {
            if key.path.len() >= 64 {
                lemma_outdated_holds::<K>(u, key);
            } else {
                lemma_insert_holds_internal(store, u, key, kvs);
                if k != key && (c.lists(stale) || in_tree(store, key, k)) {
                    let n = if in_tree(store, key, k) {
                        lemma_in_some_child(store, key, k)
                    } else {
                        let m = choose|m: u8|
                            m < 16 && #[trigger] child_lists(store, u, key, slots, kvs, m, stale);
                        lemma_child_places(store, u, key, slots, kvs, m);
                        assert(lies_under(stale.node_key.path, key.path.push(m)));
                        m
                    };
                    lemma_outdated_below(store, u, key, kvs, n, k);
                }
            }
        },
    }
}

/// What is outdated below a child.
proof fn lemma_outdated_below<'a, K>(
    store: Store<K>,
    u: Update,
    key: NodeKeyView,
    kvs: Seq<KeyValue<'a, K>>,
    n: u8,
    k: NodeKeyView,
)
    requires
        store[key] is Internal,
        key.path.len() < 64,
        n < 16,
        lies_under(k.path, key.path.push(n)),
        sorted(kvs),
        all_under(kvs, key.path),
    ensures
        ({
            let stale = StaleView { stale_since_version: u.version, node_key: k };
            let c = insert_changes(store, u, key, kvs);
            &&& c.lists(stale) <==> in_tree(store, key, k) && leads_to_key(kvs, k.path)
            &&& c.lists(stale) && complete(store, key, kvs) ==> store.contains_key(k)
        }),
    decreases 64 - key.path.len(), 0nat,
{
    let d = key.path.len();
    let slots = store[key]->Internal_0;
    let stale = StaleView { stale_since_version: u.version, node_key: k };
    let kvs_below = bucket(kvs, d, n);
    let path_below = key.path.push(n);
    let below = child_changes(store, u, key, slots, kvs, n);
    lemma_in_tree_child(store, key, n, k);
    lemma_changes_of_child(store, u, key, kvs, n);
    lemma_leads_below(kvs, key.path, n, k.path);
    lemma_bucket_sorted(kvs, key.path, n);
    if kvs_below.len() > 0 {
        match slots[n as int] {
            Some(child) => {
                let next = child_key(key, child, n);
                assert(below == insert_changes(store, u, next, kvs_below));
                lemma_insert_places(store, u, next, kvs_below);
                lemma_outdated_nodes(store, u, next, kvs_below, k);
                assert(below.outdates(k) <==> below.lists(stale)) by {
                    if below.outdates(k) {
                        let since = choose|since: Version| #[trigger]
                            below.lists(StaleView { stale_since_version: since, node_key: k });
                        assert(since == u.version);
                    }
                }
                assert(leads_to_key(kvs_below, path_below)) by {
                    reveal(all_under);
                    assert(has_prefix(kvs_below[0].0, path_below));
                }
                if complete(store, key, kvs) {
                    assert(child_complete(store, key, slots, kvs, n));
                }
            },
            None => {
                lemma_built_changes_holds(u, None, kvs_below, path_below);
            },
        }
    }
}

} // verus!
