//! What holds of the counts of leaves.
use vstd::prelude::*;

use crate::batch::{Changes, NodeEntry, StaleView};
use crate::content::{
    lemma_child_holds, lemma_holds_keys, part, range_part, several, tree_holds, Content,
};
use crate::hash::{lemma_nibble_range, HashValue};
use crate::laws::{base_holds, lemma_separable};
use crate::lists::{
    count, count_lists, lemma_count_add, lemma_count_joined, lemma_count_merged, lemma_count_one,
    merged,
};
use crate::node_type::{leaf_count_upto, LeafNode, NodeKeyView, NodeView, Version};
use crate::ranges::{all_under, bucket};
use crate::sorted::{lemma_precedes_irreflexive, precedes, sorted, Digits};
use crate::update::{
    built, built_changes, built_entries, built_entries_below, built_leaves, child_changes,
    child_key, has_key, insert_changes, insert_changes_below, inserted, is_moved, leaf_bucket,
    lemma_bucket_sorted, lemma_built_depth, lemma_changes_below_wf, lemma_child_changes_wf,
    lemma_separable_below, moved_entry, one_key, outdated, separable, update_changes, KeyValue,
    Store, Update, MAX_PARALLELIZABLE_DEPTH,
};
use crate::write_laws::{leaf_content, lemma_updated, lemma_updated_part, updated};

verus! {

/// The number of keys.
pub open spec fn size<K>(content: Content<K>) -> nat {
    content.dom().len()
}

/// The part of one more nibble adds its own keys.
proof fn lemma_range_size<K>(content: Content<K>, depth: nat, n: nat)
    requires
        n < 16,
        range_part(content, depth, 0, n as int).dom().finite(),
        part(content, depth, n as u8).dom().finite(),
    ensures
        range_part(content, depth, 0, n as int + 1).dom().finite(),
        size(range_part(content, depth, 0, n as int + 1)) == size(
            range_part(content, depth, 0, n as int),
        ) + size(part(content, depth, n as u8)),
{
    let a = range_part(content, depth, 0, n as int).dom();
    let b = part(content, depth, n as u8).dom();
    let all = range_part(content, depth, 0, n as int + 1).dom();
    assert(all =~= a + b);
    assert(a.disjoint(b));
    vstd::set_lib::lemma_set_disjoint_lens(a, b);
}

/// The parts of all nibbles are the whole.
proof fn lemma_full_range<K>(content: Content<K>, depth: nat)
    requires
        depth < 64,
    ensures
        range_part(content, depth, 0, 16) == content,
{
    assert forall|k: HashValue| #[trigger] content.contains_key(k) implies range_part(
        content,
        depth,
        0,
        16,
    ).contains_key(k) by {
        lemma_nibble_range(k, depth as int);
    }
    assert(range_part(content, depth, 0, 16) =~= content);
}

/// A tree holds finitely many keys, and the leaf count of its first node is their number, as far as
/// that fits.
pub proof fn lemma_leaf_count<K>(store: Store<K>, key: NodeKeyView, content: Content<K>)
    requires
        tree_holds(store, key, content),
    ensures
        content.dom().finite(),
        size(content) <= usize::MAX ==> store[key].leaf_count() == size(content),
    decreases 64 - key.path.len(), 17nat,
{
    match store[key] {
        NodeView::Leaf(leaf) => {
            assert(content.dom() =~= Set::<HashValue>::empty().insert(leaf.account_key));
        },
        NodeView::Internal(slots) => {
            lemma_leaf_count_upto(store, key, content, 16);
            lemma_full_range(content, key.path.len());
        },
    }
}

proof fn lemma_leaf_count_upto<K>(store: Store<K>, key: NodeKeyView, content: Content<K>, n: nat)
    requires
        tree_holds(store, key, content),
        store[key] is Internal,
        n <= 16,
    ensures
        ({
            let held = range_part(content, key.path.len(), 0, n as int);
            &&& held.dom().finite()
            &&& size(held) <= usize::MAX ==> leaf_count_upto(store[key]->Internal_0, n) == size(
                held,
            )
        }),
    decreases 64 - key.path.len(), n,
{
    let d = key.path.len();
    let slots = store[key]->Internal_0;
    if n == 0 {
        assert(range_part(content, d, 0, 0).dom() =~= Set::empty());
    } else {
        let at = (n - 1) as u8;
        let below = part(content, d, at);
        lemma_leaf_count_upto(store, key, content, (n - 1) as nat);
        lemma_child_holds(store, key, content, at);
        match slots[at as int] {
            Some(child) => {
                let next = child_key(key, child, at);
                lemma_leaf_count(store, next, below);
                if let NodeView::Leaf(leaf) = store[next] {
                    assert(below.dom() =~= Set::<HashValue>::empty().insert(leaf.account_key));
                }
            },
            None => {
                assert(below.dom() =~= Set::empty());
            },
        }
        lemma_range_size(content, d, (n - 1) as nat);
    }
}

/// The keys of the entries.
pub open spec fn keys_of<V>(kvs: Seq<(HashValue, V)>) -> Set<HashValue> {
    Set::new(|k: HashValue| has_key(kvs, k))
}

/// Sorted entries have as many keys as there are entries.
proof fn lemma_keys_of<V>(kvs: Seq<(HashValue, V)>)
    requires
        sorted(kvs),
    ensures
        keys_of(kvs).finite(),
        keys_of(kvs).len() == kvs.len(),
    decreases kvs.len(),
{
    if kvs.len() == 0 {
        assert(keys_of(kvs) =~= Set::empty());
    } else {
        let rest = kvs.drop_last();
        let last = kvs.last().0;
        assert forall|i: int, j: int| 0 <= i < j < rest.len() implies precedes(
            #[trigger] rest[i].0.digits(),
            #[trigger] rest[j].0.digits(),
        ) by {
            assert(precedes(kvs[i].0.digits(), kvs[j].0.digits()));
        }
        lemma_keys_of(rest);
        assert(!keys_of(rest).contains(last)) by {
            if has_key(rest, last) {
                let i = choose|i: int| 0 <= i < rest.len() && (#[trigger] rest[i]).0 == last;
                assert(precedes(kvs[i].0.digits(), kvs[kvs.len() - 1].0.digits()));
                lemma_precedes_irreflexive(kvs[i].0.digits(), last.digits());
            }
        }
        assert(keys_of(kvs) =~= keys_of(rest).insert(last)) by {
            assert forall|k: HashValue| #[trigger] has_key(kvs, k) <==> has_key(rest, k) || k
                == last by {
                if has_key(kvs, k) {
                    let i = choose|i: int| 0 <= i < kvs.len() && (#[trigger] kvs[i]).0 == k;
                    if i < rest.len() {
                        assert(rest[i].0 == k);
                    }
                }
                if has_key(rest, k) {
                    let i = choose|i: int| 0 <= i < rest.len() && (#[trigger] rest[i]).0 == k;
                    assert(kvs[i].0 == k);
                }
                if k == last {
                    assert(kvs[kvs.len() - 1].0 == k);
                }
            }
        }
    }
}

/// A new subtree has as many leaves as keys.
proof fn lemma_built_size<'a, K>(
    u: Update,
    leaf: Option<LeafNode<K>>,
    kvs: Seq<KeyValue<'a, K>>,
)
    requires
        sorted(kvs),
    ensures
        updated(u, leaf_content(leaf), kvs).dom().finite(),
        size(updated(u, leaf_content(leaf), kvs)) == built_leaves(leaf, kvs),
{
    let content = updated(u, leaf_content(leaf), kvs);
    lemma_updated(u, leaf_content(leaf), kvs);
    lemma_keys_of(kvs);
    match leaf {
        Some(leaf) => {
            assert(content.dom() =~= keys_of(kvs).insert(leaf.account_key));
        },
        None => {
            assert(content.dom() =~= keys_of(kvs));
        },
    }
}

/// The new and the stale leaves of the changes at a node make up for the difference between the keys
/// before and the keys after.
proof fn lemma_leaf_balance_at<'a, K>(
    store: Store<K>,
    u: Update,
    key: NodeKeyView,
    content: Content<K>,
    kvs: Seq<KeyValue<'a, K>>,
)
    requires
        tree_holds(store, key, content),
        sorted(kvs),
        all_under(kvs, key.path),
    ensures
        updated(u, content, kvs).dom().finite(),
        insert_changes(store, u, key, kvs).new_leaves + size(content) == insert_changes(
            store,
            u,
            key,
            kvs,
        ).stale_leaves + size(updated(u, content, kvs)),
    decreases 64 - key.path.len(), 17nat,
{
    lemma_leaf_count(store, key, content);
    match store[key] {
        NodeView::Leaf(leaf) => {
            assert(content =~= leaf_content(Some(leaf)));
            assert(content.dom() =~= Set::<HashValue>::empty().insert(leaf.account_key));
            lemma_built_size(u, Some(leaf), kvs);
        },
        NodeView::Internal(slots) => {
            lemma_leaf_balance_below(store, u, key, content, kvs, 16);
            lemma_full_range(content, key.path.len());
            lemma_full_range(updated(u, content, kvs), key.path.len());
        },
    }
}

proof fn lemma_leaf_balance_below<'a, K>(
    store: Store<K>,
    u: Update,
    key: NodeKeyView,
    content: Content<K>,
    kvs: Seq<KeyValue<'a, K>>,
    n: nat,
)
    requires
        tree_holds(store, key, content),
        store[key] is Internal,
        sorted(kvs),
        all_under(kvs, key.path),
        n <= 16,
    ensures
        ({
            let c = insert_changes_below(store, u, key, store[key]->Internal_0, kvs, n);
            let held = range_part(content, key.path.len(), 0, n as int);
            let held_after = range_part(updated(u, content, kvs), key.path.len(), 0, n as int);
            &&& held.dom().finite()
            &&& held_after.dom().finite()
            &&& c.new_leaves + size(held) == c.stale_leaves + size(held_after)
        }),
    decreases 64 - key.path.len(), n,
{
    let d = key.path.len();
    let slots = store[key]->Internal_0;
    let after = updated(u, content, kvs);
    if n == 0 {
        assert(range_part(content, d, 0, 0).dom() =~= Set::empty());
        assert(range_part(after, d, 0, 0).dom() =~= Set::empty());
    } else {
        let at = (n - 1) as u8;
        let kvs_below = bucket(kvs, d, at);
        let below = part(content, d, at);
        let more = child_changes(store, u, key, slots, kvs, at);
        lemma_leaf_balance_below(store, u, key, content, kvs, (n - 1) as nat);
        lemma_child_holds(store, key, content, at);
        lemma_updated_part(u, content, kvs, key.path, at);
        lemma_bucket_sorted(kvs, key.path, at);
        match slots[at as int] {
            Some(child) => {
                let next = child_key(key, child, at);
                lemma_leaf_count(store, next, below);
                if kvs_below.len() > 0 {
                    lemma_leaf_balance_at(store, u, next, below, kvs_below);
                    assert(more == insert_changes(store, u, next, kvs_below));
                }
            },
            None => {
                assert(below =~= leaf_content(None));
                assert(below.dom() =~= Set::empty());
                lemma_built_size(u, None::<LeafNode<K>>, kvs_below);
                assert(more == built_changes(u, None, kvs_below, key.path.push(at)));
            },
        }
        if kvs_below.len() == 0 {
            lemma_updated(u, below, kvs_below);
            assert(updated(u, below, kvs_below) =~= below);
        }
        lemma_range_size(content, d, (n - 1) as nat);
        lemma_range_size(after, d, (n - 1) as nat);
    }
}

/// The counts of a batch balance: the keys before and the new leaves are as many as the keys after and
/// the stale leaves.
pub proof fn lemma_leaf_balance<'a, K>(
    store: Store<K>,
    u: Update,
    base: Option<Version>,
    content: Content<K>,
    kvs: Seq<KeyValue<'a, K>>,
)
    requires
        base_holds(store, base, content),
        sorted(kvs),
    ensures
        content.dom().finite(),
        updated(u, content, kvs).dom().finite(),
        size(content) + update_changes(store, u, base, kvs).new_leaves == size(
            updated(u, content, kvs),
        ) + update_changes(store, u, base, kvs).stale_leaves,
{
    match base {
        Some(version) => {
            assert(all_under(kvs, Seq::<u8>::empty())) by {
                reveal(all_under);
            }
            lemma_leaf_count(store, NodeKeyView::root(version), content);
            lemma_leaf_balance_at(store, u, NodeKeyView::root(version), content, kvs);
        },
        None => {
            assert(content =~= leaf_content(None));
            lemma_built_size(u, None::<LeafNode<K>>, kvs);
        },
    }
}

/// Whether an entry is that of a leaf.
pub open spec fn is_leaf_entry<K>() -> spec_fn(NodeEntry<K>) -> bool {
    |e: NodeEntry<K>| e.1 is Leaf
}

/// Whether a stale node is a leaf.
pub open spec fn is_stale_leaf<K>(store: Store<K>) -> spec_fn(StaleView) -> bool {
    |s: StaleView| store[s.node_key] is Leaf
}

/// Whether the counts of changes to `store` are true.
pub open spec fn counts_true<K>(store: Store<K>, c: Changes<K>) -> bool {
    &&& c.new_leaves == count_lists(c.nodes, is_leaf_entry::<K>())
    &&& c.stale_leaves == count_lists(c.stale, is_stale_leaf(store))
}

proof fn lemma_count_single<T>(item: T, p: spec_fn(T) -> bool)
    ensures
        count(seq![item], p) == if p(item) {
            1nat
        } else {
            0nat
        },
{
    reveal_with_fuel(count, 2);
    assert(seq![item].drop_last() =~= Seq::<T>::empty());
    assert(count(Seq::<T>::empty(), p) == 0);
}

/// The leaves among the nodes of a new subtree are as many as were counted.
proof fn lemma_built_count<'a, K>(
    u: Update,
    leaf: Option<LeafNode<K>>,
    kvs: Seq<KeyValue<'a, K>>,
    path: Seq<u8>,
)
    requires
        kvs.len() > 0,
        sorted(kvs),
        all_under(kvs, path),
        separable(leaf, kvs, path.len()),
    ensures
        count(built_entries(u, leaf, kvs, path), is_leaf_entry::<K>()) == built_leaves(leaf, kvs),
    decreases 64 - path.len(), 17nat,
{
    let p = is_leaf_entry::<K>();
    let own = (u.key(path), built(u, leaf, kvs, path));
    lemma_count_single(own, p);
    if one_key(leaf, kvs) {
        assert(kvs[0].0 == kvs[0].0);
        assert(has_key(kvs, kvs[0].0));
    } else {
        lemma_built_depth(leaf, kvs, path);
        let below = built_entries_below(u, leaf, kvs, path, 16);
        let moved = moved_entry(u, leaf, kvs, path);
        lemma_built_count_below(u, leaf, kvs, path, 16);
        lemma_full_range(updated(u, leaf_content(leaf), kvs), path.len());
        lemma_built_size(u, leaf, kvs);
        lemma_count_add(below, moved, p);
        lemma_count_add(below + moved, seq![own], p);
        if is_moved(leaf, kvs, path.len()) {
            lemma_count_single(moved[0], p);
            lemma_nibble_range(leaf.unwrap().account_key, path.len() as int);
        }
    }
}

proof fn lemma_built_count_below<'a, K>(
    u: Update,
    leaf: Option<LeafNode<K>>,
    kvs: Seq<KeyValue<'a, K>>,
    path: Seq<u8>,
    n: nat,
)
    requires
        kvs.len() > 0,
        sorted(kvs),
        all_under(kvs, path),
        separable(leaf, kvs, path.len()),
        path.len() < 64,
        n <= 16,
    ensures
        ({
            let d = path.len();
            let held = range_part(updated(u, leaf_content(leaf), kvs), d, 0, n as int);
            &&& held.dom().finite()
            &&& size(held) == count(
                built_entries_below(u, leaf, kvs, path, n),
                is_leaf_entry::<K>(),
            ) + if is_moved(leaf, kvs, d) && leaf.unwrap().account_key.nibble_at(d as int) < n {
                1nat
            } else {
                0nat
            }
        }),
    decreases 64 - path.len(), n,
{
    let d = path.len();
    let p = is_leaf_entry::<K>();
    let content = updated(u, leaf_content(leaf), kvs);
    if n == 0 {
        assert(range_part(content, d, 0, 0).dom() =~= Set::empty());
    } else {
        let at = (n - 1) as u8;
        let kvs_below = bucket(kvs, d, at);
        let leaf_below = leaf_bucket(leaf, d, at);
        lemma_built_count_below(u, leaf, kvs, path, (n - 1) as nat);
        lemma_updated_part(u, leaf_content(leaf), kvs, path, at);
        assert(part(leaf_content(leaf), d, at) =~= leaf_content(leaf_below));
        lemma_bucket_sorted(kvs, path, at);
        lemma_separable_below(leaf, kvs, d, at);
        lemma_built_size(u, leaf_below, kvs_below);
        if kvs_below.len() > 0 {
            lemma_built_count(u, leaf_below, kvs_below, path.push(at));
            lemma_count_add(
                built_entries_below(u, leaf, kvs, path, (n - 1) as nat),
                built_entries(u, leaf_below, kvs_below, path.push(at)),
                p,
            );
        } else {
            assert(leaf_below is Some ==> !has_key(kvs_below, leaf_below.unwrap().account_key));
        }
        lemma_range_size(content, d, (n - 1) as nat);
    }
}

/// The counts of the changes that build a new subtree are true.
proof fn lemma_built_changes_count<'a, K>(
    store: Store<K>,
    u: Update,
    kvs: Seq<KeyValue<'a, K>>,
    path: Seq<u8>,
)
    requires
        kvs.len() > 0,
        sorted(kvs),
        all_under(kvs, path),
    ensures
        counts_true(store, built_changes(u, None::<LeafNode<K>>, kvs, path)),
{
    let c = built_changes(u, None::<LeafNode<K>>, kvs, path);
    let entries = built_entries(u, None::<LeafNode<K>>, kvs, path);
    assert(separable(None::<LeafNode<K>>, kvs, path.len())) by {
        reveal(separable);
    }
    lemma_built_count(u, None::<LeafNode<K>>, kvs, path);
    assert(c.nodes =~= seq![entries]) by {
        assert(c.nodes[0] =~= entries);
    }
    lemma_count_one(entries, is_leaf_entry::<K>());
    lemma_count_one(Seq::<StaleView>::empty(), is_stale_leaf(store));
}

/// The counts of the changes at a node are true.
proof fn lemma_insert_count<'a, K>(
    store: Store<K>,
    u: Update,
    key: NodeKeyView,
    content: Content<K>,
    kvs: Seq<KeyValue<'a, K>>,
)
    requires
        tree_holds(store, key, content),
        sorted(kvs),
        all_under(kvs, key.path),
        kvs.len() > 0 || store[key] is Internal,
    ensures
        counts_true(store, insert_changes(store, u, key, kvs)),
    decreases 64 - key.path.len(), 17nat,
{
    let c = insert_changes(store, u, key, kvs);
    match store[key] {
        NodeView::Leaf(leaf) => {
            let entries = built_entries(u, Some(leaf), kvs, key.path);
            let stale = StaleView { stale_since_version: u.version, node_key: key };
            lemma_separable(leaf, kvs, key.path);
            lemma_built_count(u, Some(leaf), kvs, key.path);
            assert(c.nodes =~= seq![entries]) by {
                assert(c.nodes[0] =~= entries);
            }
            assert(c.stale =~= seq![seq![stale]]) by {
                assert(c.stale[0] =~= seq![stale]);
            }
            lemma_count_one(entries, is_leaf_entry::<K>());
            lemma_count_one(seq![stale], is_stale_leaf(store));
            lemma_count_single(stale, is_stale_leaf(store));
        },
        NodeView::Internal(slots) => {
            let own = (u.key(key.path), inserted(store, u, key, kvs));
            let below = insert_changes_below(store, u, key, slots, kvs, 16);
            lemma_insert_count_below(store, u, key, content, kvs, 16);
            lemma_changes_below_wf(store, u, key, slots, kvs, 16);
            lemma_count_merged(below.nodes, seq![seq![own]], is_leaf_entry::<K>());
            assert(merged(below.nodes, seq![seq![own]]) =~= c.nodes);
            lemma_count_one(seq![own], is_leaf_entry::<K>());
            lemma_count_single(own, is_leaf_entry::<K>());
        },
    }
}

proof fn lemma_insert_count_below<'a, K>(
    store: Store<K>,
    u: Update,
    key: NodeKeyView,
    content: Content<K>,
    kvs: Seq<KeyValue<'a, K>>,
    n: nat,
)
    requires
        tree_holds(store, key, content),
        store[key] is Internal,
        sorted(kvs),
        all_under(kvs, key.path),
        n <= 16,
    ensures
        counts_true(store, insert_changes_below(store, u, key, store[key]->Internal_0, kvs, n)),
    decreases 64 - key.path.len(), n,
{
    let d = key.path.len();
    let slots = store[key]->Internal_0;
    if n == 0 {
        let c = outdated::<K>(u, key);
        let stale = StaleView { stale_since_version: u.version, node_key: key };
        assert(c.nodes =~= seq![Seq::<NodeEntry<K>>::empty()]);
        assert(c.stale =~= seq![seq![stale]]) by {
            assert(c.stale[0] =~= seq![stale]);
        }
        lemma_count_one(Seq::<NodeEntry<K>>::empty(), is_leaf_entry::<K>());
        lemma_count_one(seq![stale], is_stale_leaf(store));
        lemma_count_single(stale, is_stale_leaf(store));
    } else {
        let at = (n - 1) as u8;
        let kvs_below = bucket(kvs, d, at);
        let before = insert_changes_below(store, u, key, slots, kvs, (n - 1) as nat);
        let more = child_changes(store, u, key, slots, kvs, at);
        lemma_insert_count_below(store, u, key, content, kvs, (n - 1) as nat);
        if kvs_below.len() > 0 {
            lemma_child_holds(store, key, content, at);
            lemma_bucket_sorted(kvs, key.path, at);
            match slots[at as int] {
                Some(child) => {
                    let next = child_key(key, child, at);
                    lemma_insert_count(store, u, next, part(content, d, at), kvs_below);
                    assert(more == insert_changes(store, u, next, kvs_below));
                },
                None => {
                    lemma_built_changes_count(store, u, kvs_below, key.path.push(at));
                    assert(more == built_changes(u, None, kvs_below, key.path.push(at)));
                },
            }
            lemma_changes_below_wf(store, u, key, slots, kvs, (n - 1) as nat);
            lemma_child_changes_wf(store, u, key, slots, kvs, at);
            if d <= MAX_PARALLELIZABLE_DEPTH {
                lemma_count_joined(before.nodes, more.nodes, is_leaf_entry::<K>());
                lemma_count_joined(before.stale, more.stale, is_stale_leaf(store));
            } else {
                lemma_count_merged(before.nodes, more.nodes, is_leaf_entry::<K>());
                lemma_count_merged(before.stale, more.stale, is_stale_leaf(store));
            }
        }
    }
}

/// A batch counts the leaves that it writes and the leaves that it outdates.
pub proof fn lemma_batch_counts<'a, K>(
    store: Store<K>,
    u: Update,
    base: Option<Version>,
    content: Content<K>,
    kvs: Seq<KeyValue<'a, K>>,
)
    requires
        base_holds(store, base, content),
        sorted(kvs),
        kvs.len() > 0 || several(content),
    ensures
        counts_true(store, update_changes(store, u, base, kvs)),
{
    assert(all_under(kvs, Seq::<u8>::empty())) by {
        reveal(all_under);
    }
    match base {
        Some(version) => {
            lemma_holds_keys(store, NodeKeyView::root(version), content);
            lemma_insert_count(store, u, NodeKeyView::root(version), content, kvs);
        },
        None => {
            lemma_built_changes_count(store, u, kvs, Seq::empty());
        },
    }
}

} // verus!
