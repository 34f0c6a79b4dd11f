//! What holds of the batch that an update comes to: no node is written twice, and none is outdated
//! twice.
use vstd::prelude::*;

use crate::batch::{Changes, NodeEntry, StaleView};
use crate::lists::{
    distinct_lists, in_lists, lemma_in_one, lemma_joined_distinct, lemma_merged_distinct, merged,
};
use crate::node_type::{Child, LeafNode, NodeKeyView, NodeView, Version};
use crate::ranges::bucket;
use crate::update::{
    built, built_changes, built_entries, built_entries_below, child_changes, child_key,
    insert_changes, insert_changes_below, inserted, is_moved, leaf_bucket, lemma_changes_below_wf,
    lemma_child_changes_wf, moved_entry, one_key, outdated, update_changes, KeyValue, Store, Update,
    MAX_PARALLELIZABLE_DEPTH,
};
use crate::write_laws::{
    child_holds, child_lists, lemma_below_holds, lemma_built_places, lemma_child_places,
    lemma_lies_under, lies_under,
};

verus! {

/// The key that an entry is written under.
pub open spec fn entry_key<K>() -> spec_fn(NodeEntry<K>) -> NodeKeyView {
    |e: NodeEntry<K>| e.0
}

/// The key of a node that becomes stale.
pub open spec fn stale_key() -> spec_fn(StaleView) -> NodeKeyView {
    |s: StaleView| s.node_key
}

/// Whether changes write no node twice and outdate none twice.
pub open spec fn distinct<K>(c: Changes<K>) -> bool {
    distinct_lists(c.nodes, entry_key::<K>()) && distinct_lists(c.stale, stale_key())
}

/// A list in two pieces has no key twice if neither piece has, and no key is in both.
proof fn lemma_list_distinct<K>(a: Seq<NodeEntry<K>>, b: Seq<NodeEntry<K>>)
    requires
        distinct_lists(seq![a], entry_key::<K>()),
        distinct_lists(seq![b], entry_key::<K>()),
        forall|x: NodeEntry<K>, y: NodeEntry<K>| #[trigger]
            a.contains(x) && #[trigger] b.contains(y) ==> x.0 != y.0,
    ensures
        distinct_lists(seq![a + b], entry_key::<K>()),
{
    lemma_in_one(a);
    lemma_in_one(b);
    lemma_merged_distinct(seq![a], seq![b], entry_key::<K>());
    assert(merged(seq![a], seq![b]) =~= seq![a + b]);
}

/// A list with a single entry has no key twice.
proof fn lemma_one_distinct<K>(e: NodeEntry<K>)
    ensures
        distinct_lists(seq![seq![e]], entry_key::<K>()),
{
    reveal(distinct_lists);
}

/// The nodes of a new subtree have different keys.
pub proof fn lemma_built_distinct<'a, K>(
    u: Update,
    leaf: Option<LeafNode<K>>,
    kvs: Seq<KeyValue<'a, K>>,
    path: Seq<u8>,
)
    ensures
        distinct_lists(seq![built_entries(u, leaf, kvs, path)], entry_key::<K>()),
    decreases 64 - path.len(), 17nat,
{
    let own = (u.key(path), built(u, leaf, kvs, path));
    lemma_one_distinct(own);
    if !(one_key(leaf, kvs) || path.len() >= 64) {
        let below = built_entries_below(u, leaf, kvs, path, 16);
        let moved = moved_entry(u, leaf, kvs, path);
        lemma_built_distinct_below(u, leaf, kvs, path, 16);
        assert(distinct_lists(seq![moved], entry_key::<K>())) by {
            if is_moved(leaf, kvs, path.len()) {
                lemma_one_distinct(moved[0]);
                assert(moved =~= seq![moved[0]]);
            } else {
                reveal(distinct_lists);
            }
        }
        assert forall|x: NodeEntry<K>, y: NodeEntry<K>| #[trigger]
            below.contains(x) && #[trigger] moved.contains(y) implies x.0 != y.0 by {
            assert(y == moved[0]);
            let n = leaf.unwrap().account_key.nibble_at(path.len() as int);
            let m = choose|m: u8|
                m < 16 && #[trigger] bucket(kvs, path.len(), m).len() > 0 && lies_under(
                    x.0.path,
                    path.push(m),
                );
            assert(m != n);
            lemma_lies_under(x.0.path, path, m);
            assert(lies_under(path.push(n), path.push(n)));
        }
        lemma_list_distinct(below, moved);
        assert forall|x: NodeEntry<K>, y: NodeEntry<K>| #[trigger]
            (below + moved).contains(x) && #[trigger] seq![own].contains(y) implies x.0 != y.0 by {
            assert(y == own);
            let i = choose|i: int| 0 <= i < (below + moved).len() && (below + moved)[i] == x;
            if i < below.len() {
                assert(below[i] == x);
                assert(below.contains(x));
                let m = choose|m: u8|
                    m < 16 && #[trigger] bucket(kvs, path.len(), m).len() > 0 && lies_under(
                        x.0.path,
                        path.push(m),
                    );
                lemma_lies_under(x.0.path, path, m);
            } else {
                assert(moved[i - below.len()] == x);
                assert(x.0.path.len() == path.len() + 1);
            }
        }
        lemma_list_distinct(below + moved, seq![own]);
    }
}

proof fn lemma_built_distinct_below<'a, K>(
    u: Update,
    leaf: Option<LeafNode<K>>,
    kvs: Seq<KeyValue<'a, K>>,
    path: Seq<u8>,
    n: nat,
)
    requires
        path.len() < 64,
        n <= 16,
    ensures
        distinct_lists(seq![built_entries_below(u, leaf, kvs, path, n)], entry_key::<K>()),
        forall|e: NodeEntry<K>| #[trigger]
            built_entries_below(u, leaf, kvs, path, n).contains(e) ==> exists|m: u8|
                m < n && #[trigger] bucket(kvs, path.len(), m).len() > 0 && lies_under(
                    e.0.path,
                    path.push(m),
                ),
    decreases 64 - path.len(), n,
{
    let all = built_entries_below(u, leaf, kvs, path, n);
    if n == 0 {
        reveal(distinct_lists);
    } else {
        let at = (n - 1) as u8;
        let before = built_entries_below(u, leaf, kvs, path, (n - 1) as nat);
        let kvs_below = bucket(kvs, path.len(), at);
        let leaf_below = leaf_bucket(leaf, path.len(), at);
        lemma_built_distinct_below(u, leaf, kvs, path, (n - 1) as nat);
        let more = if kvs_below.len() > 0 {
            built_entries(u, leaf_below, kvs_below, path.push(at))
        } else {
            Seq::empty()
        };
        if kvs_below.len() > 0 {
            lemma_built_distinct(u, leaf_below, kvs_below, path.push(at));
            lemma_built_places(u, leaf_below, kvs_below, path.push(at));
            assert forall|x: NodeEntry<K>, y: NodeEntry<K>| #[trigger]
                before.contains(x) && #[trigger] more.contains(y) implies x.0 != y.0 by {
                let m = choose|m: u8|
                    m < n - 1 && #[trigger] bucket(kvs, path.len(), m).len() > 0 && lies_under(
                        x.0.path,
                        path.push(m),
                    );
                lemma_lies_under(x.0.path, path, m);
                assert(lies_under(y.0.path, path.push(at)));
            }
            lemma_list_distinct(before, more);
        }
        assert forall|e: NodeEntry<K>| #[trigger] all.contains(e) implies exists|m: u8|
            m < n && #[trigger] bucket(kvs, path.len(), m).len() > 0 && lies_under(
                e.0.path,
                path.push(m),
            ) by {
            let i = choose|i: int| 0 <= i < all.len() && all[i] == e;
            if i < before.len() {
                assert(before[i] == e);
                assert(before.contains(e));
                let m = choose|m: u8|
                    m < n - 1 && #[trigger] bucket(kvs, path.len(), m).len() > 0 && lies_under(
                        e.0.path,
                        path.push(m),
                    );
                assert(bucket(kvs, path.len(), m).len() > 0);
            } else {
                assert(more[i - before.len()] == e);
                assert(more.contains(e));
                assert(bucket(kvs, path.len(), at).len() > 0);
            }
        }
    }
}

/// The changes that build a new subtree write no node twice.
pub proof fn lemma_built_changes_distinct<'a, K>(
    u: Update,
    leaf: Option<LeafNode<K>>,
    kvs: Seq<KeyValue<'a, K>>,
    path: Seq<u8>,
)
    ensures
        distinct(built_changes(u, leaf, kvs, path)),
{
    let entries = built_entries(u, leaf, kvs, path);
    let c = built_changes(u, leaf, kvs, path);
    lemma_built_distinct(u, leaf, kvs, path);
    assert(c.nodes =~= seq![entries]) by {
        assert(c.nodes[0] =~= entries);
    }
    assert(distinct_lists(c.stale, stale_key())) by {
        reveal(distinct_lists);
    }
}

/// The changes that put keys below a node write no node twice and outdate none twice.
pub proof fn lemma_insert_distinct<'a, K>(
    store: Store<K>,
    u: Update,
    key: NodeKeyView,
    kvs: Seq<KeyValue<'a, K>>,
)
    ensures
        distinct(insert_changes(store, u, key, kvs)),
    decreases 64 - key.path.len(), 18nat,
{
    let c = insert_changes(store, u, key, kvs);
    let alone = outdated::<K>(u, key);
    assert(distinct(alone)) by {
        reveal(distinct_lists);
    }
    match store[key] {
        NodeView::Leaf(leaf) => {
            let entries = built_entries(u, Some(leaf), kvs, key.path);
            lemma_built_distinct(u, Some(leaf), kvs, key.path);
            assert(c.nodes =~= seq![entries]) by {
                assert(c.nodes[0] =~= entries);
            }
            assert(c.stale == alone.stale);
        },
        NodeView::Internal(slots) => {
            if key.path.len() < 64 {
                let own = (u.key(key.path), inserted(store, u, key, kvs));
                let below = insert_changes_below(store, u, key, slots, kvs, 16);
                lemma_insert_distinct_below(store, u, key, slots, kvs, 16);
                lemma_changes_below_wf(store, u, key, slots, kvs, 16);
                lemma_below_holds(store, u, key, slots, kvs, 16);
                lemma_one_distinct(own);
                lemma_in_one(seq![own]);
                assert forall|x: NodeEntry<K>, y: NodeEntry<K>| #[trigger]
                    in_lists(below.nodes, x) && #[trigger] in_lists(seq![seq![own]], y) implies
                    entry_key::<K>()(x) != entry_key::<K>()(y) by {
                    assert(seq![own].contains(y));
                    assert(y == own);
                    assert(below.holds(x));
                    let m = choose|m: u8|
                        m < 16 && #[trigger] child_holds(store, u, key, slots, kvs, m, x);
                    lemma_child_places(store, u, key, slots, kvs, m);
                    assert(child_changes(store, u, key, slots, kvs, m).holds(x));
                    lemma_lies_under(x.0.path, key.path, m);
                }
                lemma_merged_distinct(below.nodes, seq![seq![own]], entry_key::<K>());
                assert(merged(below.nodes, seq![seq![own]]) =~= c.nodes);
            }
        },
    }
}

proof fn lemma_insert_distinct_below<'a, K>(
    store: Store<K>,
    u: Update,
    key: NodeKeyView,
    slots: Seq<Option<Child>>,
    kvs: Seq<KeyValue<'a, K>>,
    n: nat,
)
    requires
        key.path.len() < 64,
        n <= 16,
    ensures
        distinct(insert_changes_below(store, u, key, slots, kvs, n)),
    decreases 64 - key.path.len(), n,
{
    if n == 0 {
        reveal(distinct_lists);
    } else {
        let at = (n - 1) as u8;
        let before = insert_changes_below(store, u, key, slots, kvs, (n - 1) as nat);
        let more = child_changes(store, u, key, slots, kvs, at);
        lemma_insert_distinct_below(store, u, key, slots, kvs, (n - 1) as nat);
        if bucket(kvs, key.path.len(), at).len() > 0 {
            let kvs_below = bucket(kvs, key.path.len(), at);
            match slots[at as int] {
                Some(child) => {
                    lemma_insert_distinct(store, u, child_key(key, child, at), kvs_below);
                },
                None => {
                    lemma_built_changes_distinct(u, None, kvs_below, key.path.push(at));
                },
            }
            lemma_child_places(store, u, key, slots, kvs, at);
            lemma_below_holds(store, u, key, slots, kvs, (n - 1) as nat);
            lemma_changes_below_wf(store, u, key, slots, kvs, (n - 1) as nat);
            lemma_child_changes_wf(store, u, key, slots, kvs, at);
            assert forall|x: NodeEntry<K>, y: NodeEntry<K>| #[trigger]
                in_lists(before.nodes, x) && #[trigger] in_lists(more.nodes, y) implies
                entry_key::<K>()(x) != entry_key::<K>()(y) by {
                assert(before.holds(x) && more.holds(y));
                let m = choose|m: u8|
                    m < n - 1 && #[trigger] child_holds(store, u, key, slots, kvs, m, x);
                lemma_child_places(store, u, key, slots, kvs, m);
                assert(child_changes(store, u, key, slots, kvs, m).holds(x));
                lemma_lies_under(x.0.path, key.path, m);
                assert(lies_under(y.0.path, key.path.push(at)));
            }
            assert forall|x: StaleView, y: StaleView| #[trigger]
                in_lists(before.stale, x) && #[trigger] in_lists(more.stale, y) implies stale_key()(x)
                != stale_key()(y) by {
                assert(before.lists(x) && more.lists(y));
                assert(lies_under(y.node_key.path, key.path.push(at)));
                lemma_lies_under(y.node_key.path, key.path, at);
                if x != (StaleView { stale_since_version: u.version, node_key: key }) {
                    let m = choose|m: u8|
                        m < n - 1 && #[trigger] child_lists(store, u, key, slots, kvs, m, x);
                    lemma_child_places(store, u, key, slots, kvs, m);
                    assert(child_changes(store, u, key, slots, kvs, m).lists(x));
                    lemma_lies_under(x.node_key.path, key.path, m);
                }
            }
            if key.path.len() <= MAX_PARALLELIZABLE_DEPTH {
                lemma_joined_distinct(before.nodes, more.nodes, entry_key::<K>());
                lemma_joined_distinct(before.stale, more.stale, stale_key());
            } else {
                lemma_merged_distinct(before.nodes, more.nodes, entry_key::<K>());
                lemma_merged_distinct(before.stale, more.stale, stale_key());
            }
        }
    }
}

/// An update writes no node twice and outdates none twice, so that its batch can be committed in any
/// order.
pub proof fn lemma_batch_distinct<'a, K>(
    store: Store<K>,
    u: Update,
    base: Option<Version>,
    kvs: Seq<KeyValue<'a, K>>,
)
    ensures
        distinct(update_changes(store, u, base, kvs)),
{
    match base {
        Some(version) => {
            lemma_insert_distinct(store, u, NodeKeyView::root(version), kvs);
        },
        None => {
            lemma_built_changes_distinct(u, None, kvs, Seq::empty());
        },
    }
}

} // verus!
