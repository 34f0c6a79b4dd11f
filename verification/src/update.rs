//! What an update makes of a tree: the nodes that it writes and the nodes that it outdates.
use vstd::prelude::*;

use crate::batch::{Changes, NodeEntry, StaleView};
use crate::hash::{lemma_nibble_range, lemma_nibbles_identify, HashValue};
use crate::node_type::{
    is_leaf_child, logical_children, Child, LeafNode, NodeKeyView, NodeType, NodeView, Version,
};
use crate::ranges::{
    all_under, are_ranges, bucket, has_prefix, lemma_between_ranges, lemma_bucket,
    lemma_bucket_is_range, lemma_range, nibble_after, range_nibble, rising_at,
};
use crate::reader::{StorageError, TreeReader};
use crate::sorted::{agree, lemma_precedes_irreflexive, precedes, sorted, Digits};

verus! {

/// Down to this depth the children of a node are updated in parallel, and the changes below each
/// of them are kept in lists of their own.
pub const MAX_PARALLELIZABLE_DEPTH: usize = 2;

/// A key, with the hash of its new value and the key that the value is stored under.
pub type KeyValue<'a, K> = (HashValue, &'a (HashValue, K));

/// The nodes that a store holds.
pub type Store<K> = Map<NodeKeyView, NodeView<K>>;

/// How an update is made: the version that it makes, and the hashes of the new nodes by their path,
/// where they are known beforehand.
pub ghost struct Update {
    pub version: Version,
    pub hashes: Option<Map<Seq<u8>, HashValue>>,
}

impl Update {
    /// The hash of a new node.
    pub open spec fn hash_of<K>(self, path: Seq<u8>, node: NodeView<K>) -> HashValue {
        match self.hashes {
            Some(hashes) => hashes[path],
            None => node.hash(),
        }
    }

    /// Whether the hash of a new node at `path` can be had.
    pub open spec fn knows(self, path: Seq<u8>) -> bool {
        self.hashes is Some ==> self.hashes.unwrap().contains_key(path)
    }

    /// What the parent of a new node at `path` knows of it.
    pub open spec fn child<K>(self, path: Seq<u8>, node: NodeView<K>) -> Child {
        Child {
            hash: self.hash_of(path, node),
            version: self.version,
            node_type: node.node_type(),
        }
    }

    /// The key of a new node at `path`.
    pub open spec fn key(self, path: Seq<u8>) -> NodeKeyView {
        NodeKeyView { version: self.version, path }
    }

    /// The leaf for a key and its value.
    pub open spec fn leaf<'a, K>(self, kv: KeyValue<'a, K>) -> LeafNode<K> {
        LeafNode { account_key: kv.0, value_hash: kv.1.0, value_index: (kv.1.1, self.version) }
    }
}

/// `leaf`, if its key has nibble `n` at `depth`.
pub open spec fn leaf_bucket<K>(leaf: Option<LeafNode<K>>, depth: nat, n: u8) -> Option<
    LeafNode<K>,
> {
    if leaf is Some && leaf.unwrap().account_key.nibble_at(depth as int) == n {
        leaf
    } else {
        None
    }
}

/// Whether one of the entries has `key` as its key.
pub open spec fn has_key<V>(kvs: Seq<(HashValue, V)>, key: HashValue) -> bool {
    exists|i: int| 0 <= i < kvs.len() && (#[trigger] kvs[i]).0 == key
}

/// The subtree at `path` that holds `kvs`, and `leaf` too if it is given and `kvs` does not hold its
/// key: a leaf where that is one key, and an internal node otherwise.
pub open spec fn built<'a, K>(
    u: Update,
    leaf: Option<LeafNode<K>>,
    kvs: Seq<KeyValue<'a, K>>,
    path: Seq<u8>,
) -> NodeView<K>
    decreases 64 - path.len(), 1int,
{
    if one_key(leaf, kvs) || path.len() >= 64 {
        NodeView::Leaf(u.leaf(kvs[0]))
    } else {
        NodeView::Internal(Seq::new(16, |n: int| built_child(u, leaf, kvs, path, n as u8)))
    }
}

/// Whether `kvs`, with `leaf` if it is given, are about a single key that `kvs` holds.
pub open spec fn one_key<'a, K>(leaf: Option<LeafNode<K>>, kvs: Seq<KeyValue<'a, K>>) -> bool {
    kvs.len() == 1 && (leaf is None || leaf.unwrap().account_key == kvs[0].0)
}

/// Child `n` of the subtree that `built` describes.
pub open spec fn built_child<'a, K>(
    u: Update,
    leaf: Option<LeafNode<K>>,
    kvs: Seq<KeyValue<'a, K>>,
    path: Seq<u8>,
    n: u8,
) -> Option<Child>
    decreases 64 - path.len(), 0int,
    when path.len() < 64
{
    let below = path.push(n);
    let kvs_below = bucket(kvs, path.len(), n);
    let leaf_below = leaf_bucket(leaf, path.len(), n);
    if kvs_below.len() > 0 {
        Some(u.child(below, built(u, leaf_below, kvs_below, below)))
    } else if leaf_below is Some {
        Some(
            Child {
                hash: NodeView::Leaf(leaf_below.unwrap()).hash(),
                version: u.version,
                node_type: NodeType::Leaf,
            },
        )
    } else {
        None
    }
}

/// The nodes of the subtree that `built` describes, each behind the nodes below it.
pub open spec fn built_entries<'a, K>(
    u: Update,
    leaf: Option<LeafNode<K>>,
    kvs: Seq<KeyValue<'a, K>>,
    path: Seq<u8>,
) -> Seq<NodeEntry<K>>
    decreases 64 - path.len(), 17nat,
{
    let own = seq![(u.key(path), built(u, leaf, kvs, path))];
    if one_key(leaf, kvs) || path.len() >= 64 {
        own
    } else {
        built_entries_below(u, leaf, kvs, path, 16) + moved_entry(u, leaf, kvs, path) + own
    }
}

/// The nodes below the first `n` children of the subtree that `built` describes, without a leaf
/// that only moves down.
pub open spec fn built_entries_below<'a, K>(
    u: Update,
    leaf: Option<LeafNode<K>>,
    kvs: Seq<KeyValue<'a, K>>,
    path: Seq<u8>,
    n: nat,
) -> Seq<NodeEntry<K>>
    decreases 64 - path.len(), n,
    when path.len() < 64 && n <= 16
{
    if n == 0 {
        Seq::empty()
    } else {
        let at = (n - 1) as u8;
        let kvs_below = bucket(kvs, path.len(), at);
        let before = built_entries_below(u, leaf, kvs, path, (n - 1) as nat);
        if kvs_below.len() > 0 {
            before + built_entries(u, leaf_bucket(leaf, path.len(), at), kvs_below, path.push(at))
        } else {
            before
        }
    }
}

/// The place of `leaf` below `path`.
pub open spec fn moved_path<K>(leaf: LeafNode<K>, path: Seq<u8>) -> Seq<u8> {
    path.push(leaf.account_key.nibble_at(path.len() as int))
}

/// Whether `leaf` gets a child of its own.
pub open spec fn is_moved<'a, K>(
    leaf: Option<LeafNode<K>>,
    kvs: Seq<KeyValue<'a, K>>,
    depth: nat,
) -> bool {
    leaf is Some && bucket(
        kvs,
        depth,
        leaf.unwrap().account_key.nibble_at(depth as int),
    ).len() == 0
}

/// The entry of a leaf that only moves down.
pub open spec fn moved_entry<'a, K>(
    u: Update,
    leaf: Option<LeafNode<K>>,
    kvs: Seq<KeyValue<'a, K>>,
    path: Seq<u8>,
) -> Seq<NodeEntry<K>> {
    if is_moved(leaf, kvs, path.len()) {
        seq![(u.key(moved_path(leaf.unwrap(), path)), NodeView::Leaf(leaf.unwrap()))]
    } else {
        Seq::empty()
    }
}

/// The number of leaves in the subtree that `built` describes.
pub open spec fn built_leaves<'a, K>(
    leaf: Option<LeafNode<K>>,
    kvs: Seq<KeyValue<'a, K>>,
) -> nat {
    if leaf is Some && !has_key(kvs, leaf.unwrap().account_key) {
        kvs.len() + 1
    } else {
        kvs.len()
    }
}

/// The changes that bring the subtree that `built` describes.
pub open spec fn built_changes<'a, K>(
    u: Update,
    leaf: Option<LeafNode<K>>,
    kvs: Seq<KeyValue<'a, K>>,
    path: Seq<u8>,
) -> Changes<K> {
    Changes::none().with_nodes(built_entries(u, leaf, kvs, path)).with_new_leaves(
        built_leaves(leaf, kvs),
    )
}

/// Whether `leaf` differs from each other key at `depth` or below.
#[verifier::opaque]
pub open spec fn separable<'a, K>(
    leaf: Option<LeafNode<K>>,
    kvs: Seq<KeyValue<'a, K>>,
    depth: nat,
) -> bool {
    leaf is Some ==> forall|i: int|
        0 <= i < kvs.len() && (#[trigger] kvs[i]).0 != leaf.unwrap().account_key ==> exists|j: int|
            depth <= j < 64 && #[trigger] kvs[i].0.nibble_at(j)
                != leaf.unwrap().account_key.nibble_at(j)
}

/// Whether the hash of each new node below the subtree that `built` describes can be had.
#[verifier::opaque]
pub open spec fn knows_built<'a, K>(
    u: Update,
    leaf: Option<LeafNode<K>>,
    kvs: Seq<KeyValue<'a, K>>,
    path: Seq<u8>,
) -> bool
    decreases 64 - path.len(),
{
    one_key(leaf, kvs) || path.len() >= 64 || forall|n: u8|
        n < 16 && #[trigger] bucket(kvs, path.len(), n).len() > 0 ==> u.knows(path.push(n))
            && knows_built(
            u,
            leaf_bucket(leaf, path.len(), n),
            bucket(kvs, path.len(), n),
            path.push(n),
        )
}

/// The node that takes the place of the one at `key` when `kvs` are put below it.
pub open spec fn inserted<'a, K>(
    store: Store<K>,
    u: Update,
    key: NodeKeyView,
    kvs: Seq<KeyValue<'a, K>>,
) -> NodeView<K>
    decreases 64 - key.path.len(), 1int,
{
    match store[key] {
        NodeView::Leaf(leaf) => built(u, Some(leaf), kvs, key.path),
        NodeView::Internal(slots) => if key.path.len() >= 64 {
            store[key]
        } else {
            NodeView::Internal(
                Seq::new(16, |n: int| inserted_child(store, u, key, slots, kvs, n as u8)),
            )
        },
    }
}

/// Where child `n` of the node at `key` is stored.
pub open spec fn child_key(key: NodeKeyView, child: Child, n: u8) -> NodeKeyView {
    NodeKeyView { version: child.version, path: key.path.push(n) }
}

/// Child `n` of the node that `inserted` describes, where the node at `key` has children `slots`.
pub open spec fn inserted_child<'a, K>(
    store: Store<K>,
    u: Update,
    key: NodeKeyView,
    slots: Seq<Option<Child>>,
    kvs: Seq<KeyValue<'a, K>>,
    n: u8,
) -> Option<Child>
    decreases 64 - key.path.len(), 0int,
    when key.path.len() < 64
{
    let below = key.path.push(n);
    let kvs_below = bucket(kvs, key.path.len(), n);
    if kvs_below.len() == 0 {
        slots[n as int]
    } else {
        match slots[n as int] {
            Some(child) => Some(
                u.child(below, inserted(store, u, child_key(key, child, n), kvs_below)),
            ),
            None => Some(u.child(below, built(u, None, kvs_below, below))),
        }
    }
}

/// The changes that put `kvs` below the node at `key`.
pub open spec fn insert_changes<'a, K>(
    store: Store<K>,
    u: Update,
    key: NodeKeyView,
    kvs: Seq<KeyValue<'a, K>>,
) -> Changes<K>
    decreases 64 - key.path.len(), 18nat,
{
    match store[key] {
        NodeView::Leaf(leaf) => outdated(u, key).with_stale_leaves(1).with_nodes(
            built_entries(u, Some(leaf), kvs, key.path),
        ).with_new_leaves(built_leaves(Some(leaf), kvs)),
        NodeView::Internal(slots) => if key.path.len() >= 64 {
            outdated(u, key)
        } else {
            insert_changes_below(store, u, key, slots, kvs, 16).with_nodes(
                seq![(u.key(key.path), inserted(store, u, key, kvs))],
            )
        },
    }
}

/// The change that outdates the node at `key`.
pub open spec fn outdated<K>(u: Update, key: NodeKeyView) -> Changes<K> {
    Changes::none().with_stale(seq![StaleView { stale_since_version: u.version, node_key: key }])
}

/// Whether a batch that held `before` can hold `after` when an error came from below the node at `key`:
/// the node is marked stale. Where its children are updated at the same time, that is all; where they
/// are updated one after the other, what was done below may stand behind it.
pub open spec fn left_behind<K>(
    u: Update,
    key: NodeKeyView,
    before: Changes<K>,
    after: Changes<K>,
) -> bool {
    if key.path.len() <= MAX_PARALLELIZABLE_DEPTH {
        after == before.absorb(outdated(u, key))
    } else {
        before.absorb(outdated(u, key)).grows_to(after)
    }
}

/// The changes that outdate the node at `key`, and put `kvs` below its first `n` children.
pub open spec fn insert_changes_below<'a, K>(
    store: Store<K>,
    u: Update,
    key: NodeKeyView,
    slots: Seq<Option<Child>>,
    kvs: Seq<KeyValue<'a, K>>,
    n: nat,
) -> Changes<K>
    decreases 64 - key.path.len(), n,
    when key.path.len() < 64 && n <= 16
{
    if n == 0 {
        outdated(u, key)
    } else {
        let at = (n - 1) as u8;
        let before = insert_changes_below(store, u, key, slots, kvs, (n - 1) as nat);
        if bucket(kvs, key.path.len(), at).len() == 0 {
            before
        } else if key.path.len() <= MAX_PARALLELIZABLE_DEPTH {
            before.combine(child_changes(store, u, key, slots, kvs, at))
        } else {
            before.absorb(child_changes(store, u, key, slots, kvs, at))
        }
    }
}

/// The changes that put those of `kvs` that belong there below child `n` of the node at `key`.
pub open spec fn child_changes<'a, K>(
    store: Store<K>,
    u: Update,
    key: NodeKeyView,
    slots: Seq<Option<Child>>,
    kvs: Seq<KeyValue<'a, K>>,
    n: u8,
) -> Changes<K>
    decreases 64 - key.path.len(), 0nat,
    when key.path.len() < 64
{
    let kvs_below = bucket(kvs, key.path.len(), n);
    match slots[n as int] {
        Some(child) => insert_changes(store, u, child_key(key, child, n), kvs_below),
        None => built_changes(u, None, kvs_below, key.path.push(n)),
    }
}

/// Whether the store holds all nodes that are asked for when `kvs` are put below the node at `key`.
pub open spec fn complete<'a, K>(
    store: Store<K>,
    key: NodeKeyView,
    kvs: Seq<KeyValue<'a, K>>,
) -> bool
    decreases 64 - key.path.len(), 1int,
{
    store.contains_key(key) && match store[key] {
        NodeView::Leaf(_) => true,
        NodeView::Internal(slots) => key.path.len() < 64 ==> forall|n: u8|
            n < 16 && #[trigger] bucket(kvs, key.path.len(), n).len() > 0 ==> child_complete(
                store,
                key,
                slots,
                kvs,
                n,
            ),
    }
}

/// Whether `complete` holds below child `n`.
pub open spec fn child_complete<'a, K>(
    store: Store<K>,
    key: NodeKeyView,
    slots: Seq<Option<Child>>,
    kvs: Seq<KeyValue<'a, K>>,
    n: u8,
) -> bool
    decreases 64 - key.path.len(), 0int,
    when key.path.len() < 64
{
    slots[n as int] is Some ==> complete(
        store,
        child_key(key, slots[n as int].unwrap(), n),
        bucket(kvs, key.path.len(), n),
    )
}

/// Whether putting `kvs` below the node at `key` can come to an end at a node `missing` that the store
/// does not hold. Where the children of a node are updated one after the other, that is below the
/// first of them that misses a node.
pub open spec fn misses<'a, K>(
    store: Store<K>,
    key: NodeKeyView,
    kvs: Seq<KeyValue<'a, K>>,
    missing: NodeKeyView,
) -> bool
    decreases 64 - key.path.len(), 1int,
{
    if !store.contains_key(key) {
        missing == key
    } else {
        match store[key] {
            NodeView::Leaf(_) => false,
            NodeView::Internal(slots) => key.path.len() < 64 && exists|n: u8|
                n < 16 && #[trigger] bucket(kvs, key.path.len(), n).len() > 0 && child_misses(
                    store,
                    key,
                    slots,
                    kvs,
                    n,
                    missing,
                ),
        }
    }
}

/// Whether `misses` holds below child `n`, and the children before it do not come first.
pub open spec fn child_misses<'a, K>(
    store: Store<K>,
    key: NodeKeyView,
    slots: Seq<Option<Child>>,
    kvs: Seq<KeyValue<'a, K>>,
    n: u8,
    missing: NodeKeyView,
) -> bool
    decreases 64 - key.path.len(), 0int,
    when key.path.len() < 64
{
    let kvs_below = bucket(kvs, key.path.len(), n);
    &&& slots[n as int] is Some
    &&& misses(store, child_key(key, slots[n as int].unwrap(), n), kvs_below, missing)
    &&& key.path.len() > MAX_PARALLELIZABLE_DEPTH ==> first_children_complete(
        store,
        key,
        slots,
        kvs,
        n as nat,
    )
}

/// Whether the store holds all nodes that are asked for below the first `n` children.
pub open spec fn first_children_complete<'a, K>(
    store: Store<K>,
    key: NodeKeyView,
    slots: Seq<Option<Child>>,
    kvs: Seq<KeyValue<'a, K>>,
    n: nat,
) -> bool {
    forall|m: u8|
        m < n && #[trigger] bucket(kvs, key.path.len(), m).len() > 0 ==> child_complete(
            store,
            key,
            slots,
            kvs,
            m,
        )
}

/// Whether putting `kvs` below the node at `key` can come to an end with `error` of the store: at the
/// node itself, or below it.
pub open spec fn fails<'a, K, R: TreeReader<K>>(
    reader: &R,
    key: NodeKeyView,
    kvs: Seq<KeyValue<'a, K>>,
    error: StorageError,
) -> bool
    decreases 64 - key.path.len(), 2int,
{
    reader.may_fail_with(key, error) || fails_below(reader, key, kvs, error)
}

/// Whether putting `kvs` below the node at `key` can come to an end with `error` of the store below that
/// node. Where the children of a node are updated one after the other, no node is missing below the
/// children before.
pub open spec fn fails_below<'a, K, R: TreeReader<K>>(
    reader: &R,
    key: NodeKeyView,
    kvs: Seq<KeyValue<'a, K>>,
    error: StorageError,
) -> bool
    decreases 64 - key.path.len(), 1int,
{
    reader.nodes().contains_key(key) && match reader.nodes()[key] {
        NodeView::Leaf(_) => false,
        NodeView::Internal(slots) => key.path.len() < 64 && exists|n: u8|
            n < 16 && #[trigger] bucket(kvs, key.path.len(), n).len() > 0 && child_fails(
                reader,
                key,
                slots,
                kvs,
                n,
                error,
            ),
    }
}

/// Whether `fails` holds below child `n`, and the children before it do not come first.
pub open spec fn child_fails<'a, K, R: TreeReader<K>>(
    reader: &R,
    key: NodeKeyView,
    slots: Seq<Option<Child>>,
    kvs: Seq<KeyValue<'a, K>>,
    n: u8,
    error: StorageError,
) -> bool
    decreases 64 - key.path.len(), 0int,
    when key.path.len() < 64
{
    let kvs_below = bucket(kvs, key.path.len(), n);
    &&& slots[n as int] is Some
    &&& fails(reader, child_key(key, slots[n as int].unwrap(), n), kvs_below, error)
    &&& key.path.len() > MAX_PARALLELIZABLE_DEPTH ==> first_children_complete(
        reader.nodes(),
        key,
        slots,
        kvs,
        n as nat,
    )
}

/// A node that is missing lies at or below the node that keys are put below.
pub proof fn lemma_missing_place<'a, K>(
    store: Store<K>,
    key: NodeKeyView,
    kvs: Seq<KeyValue<'a, K>>,
    missing: NodeKeyView,
)
    requires
        misses(store, key, kvs, missing),
    ensures
        missing.path.len() >= key.path.len(),
    decreases 64 - key.path.len(),
{
    if store.contains_key(key) {
        if let NodeView::Internal(slots) = store[key] {
            let n = choose|n: u8|
                n < 16 && #[trigger] bucket(kvs, key.path.len(), n).len() > 0 && child_misses(
                    store,
                    key,
                    slots,
                    kvs,
                    n,
                    missing,
                );
            lemma_missing_place(
                store,
                child_key(key, slots[n as int].unwrap(), n),
                bucket(kvs, key.path.len(), n),
                missing,
            );
        }
    }
}

/// A node is missing if and only if not all nodes that are asked for are there.
pub proof fn lemma_misses<'a, K>(
    store: Store<K>,
    key: NodeKeyView,
    kvs: Seq<KeyValue<'a, K>>,
)
    ensures
        complete(store, key, kvs) <==> forall|missing: NodeKeyView| !misses(
            store,
            key,
            kvs,
            missing,
        ),
    decreases 64 - key.path.len(), 17nat,
{
    if !store.contains_key(key) {
        assert(misses(store, key, kvs, key));
    } else if let NodeView::Internal(slots) = store[key] {
        if key.path.len() < 64 {
            lemma_first_missing(store, key, slots, kvs, 16);
            if complete(store, key, kvs) {
                assert forall|missing: NodeKeyView| !misses(store, key, kvs, missing) by {
                    if misses(store, key, kvs, missing) {
                        let n = choose|n: u8|
                            n < 16 && #[trigger] bucket(kvs, key.path.len(), n).len() > 0
                                && child_misses(store, key, slots, kvs, n, missing);
                        assert(child_complete(store, key, slots, kvs, n));
                        let next = child_key(key, slots[n as int].unwrap(), n);
                        lemma_misses(store, next, bucket(kvs, key.path.len(), n));
                        assert(!misses(store, next, bucket(kvs, key.path.len(), n), missing));
                    }
                }
            } else {
                let (n, missing) = choose|n: u8, missing: NodeKeyView|
                    n < 16 && bucket(kvs, key.path.len(), n).len() > 0 && #[trigger] child_misses(
                        store,
                        key,
                        slots,
                        kvs,
                        n,
                        missing,
                    );
                assert(bucket(kvs, key.path.len(), n).len() > 0);
                assert(misses(store, key, kvs, missing));
            }
        }
    }
}

/// If a node is missing below the first `n` children, one of them is the first to miss a node.
proof fn lemma_first_missing<'a, K>(
    store: Store<K>,
    key: NodeKeyView,
    slots: Seq<Option<Child>>,
    kvs: Seq<KeyValue<'a, K>>,
    n: nat,
)
    requires
        key.path.len() < 64,
        n <= 16,
    ensures
        first_children_complete(store, key, slots, kvs, n) || exists|m: u8, missing: NodeKeyView|
            m < n && bucket(kvs, key.path.len(), m).len() > 0 && #[trigger] child_misses(
                store,
                key,
                slots,
                kvs,
                m,
                missing,
            ),
    decreases 64 - key.path.len(), n,
{
    if n > 0 {
        let at = (n - 1) as u8;
        let kvs_below = bucket(kvs, key.path.len(), at);
        lemma_first_missing(store, key, slots, kvs, (n - 1) as nat);
        if first_children_complete(store, key, slots, kvs, (n - 1) as nat) {
            if kvs_below.len() > 0 && !child_complete(store, key, slots, kvs, at) {
                let next = child_key(key, slots[at as int].unwrap(), at);
                lemma_misses(store, next, kvs_below);
                let missing = choose|missing: NodeKeyView| misses(store, next, kvs_below, missing);
                assert(child_misses(store, key, slots, kvs, at, missing));
            } else {
                assert forall|m: u8|
                    m < n && #[trigger] bucket(kvs, key.path.len(), m).len()
                        > 0 implies child_complete(store, key, slots, kvs, m) by {
                    if m < n - 1 {
                        assert(bucket(kvs, key.path.len(), m).len() > 0);
                    }
                }
            }
        } else {
            let (m, missing) = choose|m: u8, missing: NodeKeyView|
                m < n - 1 && bucket(kvs, key.path.len(), m).len() > 0 && #[trigger] child_misses(
                    store,
                    key,
                    slots,
                    kvs,
                    m,
                    missing,
                );
            assert(child_misses(store, key, slots, kvs, m, missing));
        }
    }
}

/// Whether `kvs` can be put below the node at `key`, as far as the store holds the nodes that are
/// asked for: no internal node lies deeper than keys reach, each leaf on the way can be told apart
/// from the new keys, each internal node gets children that it can have, and the hashes of the
/// new nodes can be had.
pub open spec fn insertable<'a, K>(
    store: Store<K>,
    u: Update,
    key: NodeKeyView,
    kvs: Seq<KeyValue<'a, K>>,
) -> bool
    decreases 64 - key.path.len(), 1int,
{
    store.contains_key(key) ==> match store[key] {
        NodeView::Leaf(leaf) => {
            &&& kvs.len() > 0
            &&& separable(Some(leaf), kvs, key.path.len())
            &&& knows_built(u, Some(leaf), kvs, key.path)
        },
        NodeView::Internal(slots) => {
            &&& key.path.len() < 64
            &&& complete(store, key, kvs) ==> logical_children(
                inserted(store, u, key, kvs)->Internal_0,
            )
            &&& forall|n: u8|
                n < 16 && #[trigger] bucket(kvs, key.path.len(), n).len() > 0 ==> child_insertable(
                    store,
                    u,
                    key,
                    slots,
                    kvs,
                    n,
                )
        },
    }
}

/// Whether `insertable` holds below child `n`.
pub open spec fn child_insertable<'a, K>(
    store: Store<K>,
    u: Update,
    key: NodeKeyView,
    slots: Seq<Option<Child>>,
    kvs: Seq<KeyValue<'a, K>>,
    n: u8,
) -> bool
    decreases 64 - key.path.len(), 0int,
    when key.path.len() < 64
{
    let kvs_below = bucket(kvs, key.path.len(), n);
    &&& u.knows(key.path.push(n))
    &&& match slots[n as int] {
        Some(child) => insertable(store, u, child_key(key, child, n), kvs_below),
        None => knows_built(u, None, kvs_below, key.path.push(n)),
    }
}

/// The root of the tree at `u.version`, made of the tree at `base` and `kvs`.
pub open spec fn updated_root<'a, K>(
    store: Store<K>,
    u: Update,
    base: Option<Version>,
    kvs: Seq<KeyValue<'a, K>>,
) -> NodeView<K> {
    match base {
        Some(version) => inserted(store, u, NodeKeyView::root(version), kvs),
        None => built(u, None, kvs, Seq::empty()),
    }
}

/// The changes that make the tree at `u.version` of the tree at `base` and `kvs`.
pub open spec fn update_changes<'a, K>(
    store: Store<K>,
    u: Update,
    base: Option<Version>,
    kvs: Seq<KeyValue<'a, K>>,
) -> Changes<K> {
    match base {
        Some(version) => insert_changes(store, u, NodeKeyView::root(version), kvs),
        None => built_changes(u, None, kvs, Seq::empty()),
    }
}

/// Whether the tree at `u.version` can be made of the tree at `base` and `kvs`.
pub open spec fn updatable<'a, K>(
    store: Store<K>,
    u: Update,
    base: Option<Version>,
    kvs: Seq<KeyValue<'a, K>>,
) -> bool {
    match base {
        Some(version) => insertable(store, u, NodeKeyView::root(version), kvs),
        None => kvs.len() > 0 && knows_built(u, None, kvs, Seq::empty()),
    }
}

/// Sorted keys below one path rise in the nibble behind it.
pub proof fn lemma_rising<V>(kvs: Seq<(HashValue, V)>, path: Seq<u8>)
    requires
        sorted(kvs),
        all_under(kvs, path),
        path.len() < 64,
    ensures
        rising_at(kvs, path.len() as int),
{
    reveal(all_under);
    let d = path.len() as int;
    assert forall|i: int, j: int| 0 <= i <= j < kvs.len() implies (#[trigger] kvs[i]).0.nibble_at(d)
        <= (#[trigger] kvs[j]).0.nibble_at(d) by {
        if i < j {
            let a = kvs[i].0.digits();
            let b = kvs[j].0.digits();
            assert(precedes(a, b));
            let k = choose|k: int| #[trigger]
                agree(a, b, k) && k < b.len() && (k == a.len() || a[k] < b[k]);
            assert(has_prefix(kvs[i].0, path) && has_prefix(kvs[j].0, path));
            if k < d {
                assert(kvs[i].0.nibble_at(k) == path[k]);
                assert(kvs[j].0.nibble_at(k) == path[k]);
            } else if k > d {
                assert(a[d] == b[d]);
            }
        }
    }
}

/// Several sorted keys can lie below a path only if it is shorter than a key.
pub proof fn lemma_several_keys<V>(kvs: Seq<(HashValue, V)>, path: Seq<u8>)
    requires
        sorted(kvs),
        all_under(kvs, path),
        kvs.len() >= 2,
    ensures
        path.len() < 64,
        kvs[0].0 != kvs[1].0,
{
    reveal(all_under);
    let a = kvs[0].0;
    let b = kvs[1].0;
    assert(precedes(kvs[0].0.digits(), kvs[1].0.digits()));
    lemma_precedes_irreflexive(a.digits(), b.digits());
    if path.len() >= 64 {
        assert(has_prefix(a, path) && has_prefix(b, path));
        assert forall|i: int| 0 <= i < 64 implies #[trigger] a.nibble_at(i) == b.nibble_at(i) by {
            assert(a.nibble_at(i) == path[i]);
            assert(b.nibble_at(i) == path[i]);
        }
        lemma_nibbles_identify(a, b);
    }
}

/// The entries of a bucket are sorted and lie below the bucket's path.
pub proof fn lemma_bucket_sorted<V>(kvs: Seq<(HashValue, V)>, path: Seq<u8>, n: u8)
    requires
        sorted(kvs),
        all_under(kvs, path),
    ensures
        sorted(bucket(kvs, path.len(), n)),
        all_under(bucket(kvs, path.len(), n), path.push(n)),
    decreases kvs.len(),
{
    reveal(Seq::filter);
    reveal(all_under);
    lemma_bucket(kvs, path.len(), n);
    let b = bucket(kvs, path.len(), n);
    assert forall|i: int| 0 <= i < b.len() implies has_prefix(
        (#[trigger] b[i]).0,
        path.push(n),
    ) by {
        let j = choose|j: int| 0 <= j < kvs.len() && kvs[j] == b[i];
        assert(has_prefix(kvs[j].0, path));
        assert forall|k: int| 0 <= k < path.push(n).len() implies #[trigger] b[i].0.nibble_at(k)
            == path.push(n)[k] by {
            if k < path.len() {
                assert(kvs[j].0.nibble_at(k) == path[k]);
            }
        }
    }
    if kvs.len() > 0 {
        let rest = kvs.drop_last();
        let inner = bucket(rest, path.len(), n);
        assert forall|i: int, j: int| 0 <= i < j < rest.len() implies precedes(
            #[trigger] rest[i].0.digits(),
            #[trigger] rest[j].0.digits(),
        ) by {
            assert(precedes(kvs[i].0.digits(), kvs[j].0.digits()));
        }
        assert forall|i: int| 0 <= i < rest.len() implies has_prefix((#[trigger] rest[i]).0, path) by {
            assert(has_prefix(kvs[i].0, path));
        }
        lemma_bucket_sorted(rest, path, n);
        lemma_bucket(rest, path.len(), n);
        assert forall|i: int, j: int| 0 <= i < j < b.len() implies precedes(
            #[trigger] b[i].0.digits(),
            #[trigger] b[j].0.digits(),
        ) by {
            if j < inner.len() {
                assert(precedes(inner[i].0.digits(), inner[j].0.digits()));
            } else {
                assert(b[i] == inner[i]);
                let k = choose|k: int| 0 <= k < rest.len() && rest[k] == inner[i];
                assert(precedes(kvs[k].0.digits(), kvs[kvs.len() - 1].0.digits()));
            }
        }
    }
}

/// A leaf stays separable from the keys of its bucket.
pub proof fn lemma_separable_below<'a, K>(
    leaf: Option<LeafNode<K>>,
    kvs: Seq<KeyValue<'a, K>>,
    depth: nat,
    n: u8,
)
    requires
        separable(leaf, kvs, depth),
    ensures
        separable(leaf_bucket(leaf, depth, n), bucket(kvs, depth, n), depth + 1),
{
    reveal(separable);
    let b = bucket(kvs, depth, n);
    lemma_bucket(kvs, depth, n);
    if leaf_bucket(leaf, depth, n) is Some {
        let key = leaf.unwrap().account_key;
        assert forall|i: int| 0 <= i < b.len() && (#[trigger] b[i]).0 != key implies exists|j: int|
            depth + 1 <= j < 64 && #[trigger] b[i].0.nibble_at(j) != key.nibble_at(j) by {
            let k = choose|k: int| 0 <= k < kvs.len() && kvs[k] == b[i];
            assert(kvs[k].0 != key);
            let j = choose|j: int|
                depth <= j < 64 && #[trigger] kvs[k].0.nibble_at(j) != key.nibble_at(j);
            assert(j != depth);
            assert(b[i].0.nibble_at(j) != key.nibble_at(j));
        }
    }
}

/// Keys that are not one differ behind the path that they lie below.
pub proof fn lemma_built_depth<'a, K>(
    leaf: Option<LeafNode<K>>,
    kvs: Seq<KeyValue<'a, K>>,
    path: Seq<u8>,
)
    requires
        kvs.len() > 0,
        sorted(kvs),
        all_under(kvs, path),
        separable(leaf, kvs, path.len()),
        !one_key(leaf, kvs),
    ensures
        path.len() < 64,
{
    reveal(separable);
    if kvs.len() >= 2 {
        lemma_several_keys(kvs, path);
    } else {
        assert(kvs[0].0 != leaf.unwrap().account_key);
    }
}

/// A bucket that all entries belong to holds them all.
pub proof fn lemma_full_bucket<V>(kvs: Seq<(HashValue, V)>, depth: nat, n: u8)
    requires
        forall|i: int| 0 <= i < kvs.len() ==> (#[trigger] kvs[i]).0.nibble_at(depth as int) == n,
    ensures
        bucket(kvs, depth, n) == kvs,
{
    lemma_bucket_is_range(kvs, depth, n, 0, kvs.len() as int);
    assert(kvs.subrange(0, kvs.len() as int) =~= kvs);
}

/// A new internal node has children that it can have.
pub proof fn lemma_built_logical<'a, K>(
    u: Update,
    leaf: Option<LeafNode<K>>,
    kvs: Seq<KeyValue<'a, K>>,
    path: Seq<u8>,
)
    requires
        kvs.len() > 0,
        sorted(kvs),
        all_under(kvs, path),
        separable(leaf, kvs, path.len()),
        !one_key(leaf, kvs),
    ensures
        built(u, leaf, kvs, path) is Internal,
        logical_children(built(u, leaf, kvs, path)->Internal_0),
{
    lemma_built_depth(leaf, kvs, path);
    let d = path.len();
    let slots = built(u, leaf, kvs, path)->Internal_0;
    assert forall|i: int| 0 <= i < kvs.len() implies {
        let n = (#[trigger] kvs[i]).0.nibble_at(d as int);
        n < 16 && slots[n as int] is Some && bucket(kvs, d, n).len() > 0
    } by {
        let n = kvs[i].0.nibble_at(d as int);
        lemma_nibble_range(kvs[i].0, d as int);
        lemma_bucket(kvs, d, n);
        assert(bucket(kvs, d, n).contains(kvs[i]));
        assert(slots[n as int] == built_child(u, leaf, kvs, path, n));
    }
    assert(kvs[0].0.nibble_at(d as int) < 16);
    assert forall|i: int| 0 <= i < 16 && is_leaf_child(#[trigger] slots[i]) implies exists|j: int|
        0 <= j < 16 && j != i && #[trigger] slots[j] is Some by {
        let n = i as u8;
        assert(slots[i] == built_child(u, leaf, kvs, path, n));
        if forall|j: int| 0 <= j < 16 && j != i ==> !(#[trigger] slots[j] is Some) {
            assert forall|k: int| 0 <= k < kvs.len() implies (#[trigger] kvs[k]).0.nibble_at(
                d as int,
            ) == n by {
                let m = kvs[k].0.nibble_at(d as int);
                assert(slots[m as int] is Some);
            }
            lemma_full_bucket(kvs, d, n);
            if leaf is Some {
                let m = leaf.unwrap().account_key.nibble_at(d as int);
                lemma_nibble_range(leaf.unwrap().account_key, d as int);
                assert(slots[m as int] == built_child(u, leaf, kvs, path, m));
                assert(slots[m as int] is Some);
                assert(m == n);
            }
            assert(leaf_bucket(leaf, d, n) == leaf);
            lemma_separable_below(leaf, kvs, d, n);
            lemma_bucket_sorted(kvs, path, n);
            lemma_built_depth(leaf, kvs, path.push(n));
            assert(false);
        }
    }
}

/// The hashes of the new nodes below a child can be had if those below its parent can.
pub proof fn lemma_knows_below<'a, K>(
    u: Update,
    leaf: Option<LeafNode<K>>,
    kvs: Seq<KeyValue<'a, K>>,
    path: Seq<u8>,
    n: u8,
)
    requires
        knows_built(u, leaf, kvs, path),
        !one_key(leaf, kvs),
        path.len() < 64,
        n < 16,
        bucket(kvs, path.len(), n).len() > 0,
    ensures
        u.knows(path.push(n)),
        knows_built(
            u,
            leaf_bucket(leaf, path.len(), n),
            bucket(kvs, path.len(), n),
            path.push(n),
        ),
{
    reveal(knows_built);
}

/// What is known of a range of entries that share a nibble.
pub proof fn lemma_range_step<V>(
    kvs: Seq<(HashValue, V)>,
    path: Seq<u8>,
    ranges: Seq<(usize, usize)>,
    i: int,
)
    requires
        sorted(kvs),
        all_under(kvs, path),
        path.len() < 64,
        are_ranges(kvs, path.len(), ranges),
        0 <= i < ranges.len(),
    ensures
        ({
            let n = range_nibble(kvs, path.len(), ranges, i);
            let (left, right) = ranges[i];
            &&& left <= right < kvs.len()
            &&& left == if i == 0 {
                0
            } else {
                ranges[i - 1].1 + 1
            }
            &&& bucket(kvs, path.len(), n) == kvs.subrange(left as int, right + 1)
            &&& bucket(kvs, path.len(), n).len() == right + 1 - left
            &&& sorted(bucket(kvs, path.len(), n))
            &&& all_under(bucket(kvs, path.len(), n), path.push(n))
            &&& 0 <= nibble_after(kvs, path.len(), ranges, i) <= n < 16
            &&& nibble_after(kvs, path.len(), ranges, i + 1) == n + 1
            &&& forall|m: u8|
                nibble_after(kvs, path.len(), ranges, i) <= m < n ==> #[trigger] bucket(
                    kvs,
                    path.len(),
                    m,
                ).len() == 0
        }),
{
    lemma_range(kvs, path.len(), ranges, i);
    lemma_between_ranges(kvs, path.len(), ranges, i);
    lemma_bucket_sorted(kvs, path, range_nibble(kvs, path.len(), ranges, i));
}

/// Whether `range` is the range of the entries that share a nibble with the first of them.
pub open spec fn is_group<V>(
    kvs: Seq<(HashValue, V)>,
    path: Seq<u8>,
    range: (usize, usize),
) -> bool {
    let n = kvs[range.0 as int].0.nibble_at(path.len() as int);
    &&& range.0 <= range.1 < kvs.len()
    &&& n < 16
    &&& bucket(kvs, path.len(), n) == kvs.subrange(range.0 as int, range.1 + 1)
    &&& sorted(bucket(kvs, path.len(), n))
    &&& all_under(bucket(kvs, path.len(), n), path.push(n))
}

/// Empty buckets bring no nodes.
pub proof fn lemma_skip_entries<'a, K>(
    u: Update,
    leaf: Option<LeafNode<K>>,
    kvs: Seq<KeyValue<'a, K>>,
    path: Seq<u8>,
    from: nat,
    to: nat,
)
    requires
        path.len() < 64,
        from <= to <= 16,
        forall|m: u8| from <= m < to ==> #[trigger] bucket(kvs, path.len(), m).len() == 0,
    ensures
        built_entries_below(u, leaf, kvs, path, to) == built_entries_below(
            u,
            leaf,
            kvs,
            path,
            from,
        ),
    decreases to,
{
    if from < to {
        assert(bucket(kvs, path.len(), (to - 1) as u8).len() == 0);
        lemma_skip_entries(u, leaf, kvs, path, from, (to - 1) as nat);
    }
}

/// Empty buckets bring no changes.
pub proof fn lemma_skip_changes<'a, K>(
    store: Store<K>,
    u: Update,
    key: NodeKeyView,
    slots: Seq<Option<Child>>,
    kvs: Seq<KeyValue<'a, K>>,
    from: nat,
    to: nat,
)
    requires
        key.path.len() < 64,
        from <= to <= 16,
        forall|m: u8| from <= m < to ==> #[trigger] bucket(kvs, key.path.len(), m).len() == 0,
    ensures
        insert_changes_below(store, u, key, slots, kvs, to) == insert_changes_below(
            store,
            u,
            key,
            slots,
            kvs,
            from,
        ),
    decreases to,
{
    if from < to {
        assert(bucket(kvs, key.path.len(), (to - 1) as u8).len() == 0);
        lemma_skip_changes(store, u, key, slots, kvs, from, (to - 1) as nat);
    }
}

/// Changes hold a list of each kind.
pub proof fn lemma_changes_wf<'a, K>(
    store: Store<K>,
    u: Update,
    key: NodeKeyView,
    kvs: Seq<KeyValue<'a, K>>,
)
    ensures
        insert_changes(store, u, key, kvs).wf(),
    decreases 64 - key.path.len(), 18nat,
{
    if let NodeView::Internal(slots) = store[key] {
        if key.path.len() < 64 {
            lemma_changes_below_wf(store, u, key, slots, kvs, 16);
        }
    }
}

/// Changes below a child hold a list of each kind.
pub proof fn lemma_child_changes_wf<'a, K>(
    store: Store<K>,
    u: Update,
    key: NodeKeyView,
    slots: Seq<Option<Child>>,
    kvs: Seq<KeyValue<'a, K>>,
    n: u8,
)
    requires
        key.path.len() < 64,
    ensures
        child_changes(store, u, key, slots, kvs, n).wf(),
{
    if let Some(child) = slots[n as int] {
        lemma_changes_wf(store, u, child_key(key, child, n), bucket(kvs, key.path.len(), n));
    }
}

/// Changes below a node hold a list of each kind.
pub proof fn lemma_changes_below_wf<'a, K>(
    store: Store<K>,
    u: Update,
    key: NodeKeyView,
    slots: Seq<Option<Child>>,
    kvs: Seq<KeyValue<'a, K>>,
    n: nat,
)
    requires
        key.path.len() < 64,
        n <= 16,
    ensures
        insert_changes_below(store, u, key, slots, kvs, n).wf(),
    decreases 64 - key.path.len(), n,
{
    if n > 0 {
        lemma_changes_below_wf(store, u, key, slots, kvs, (n - 1) as nat);
    }
}

} // verus!
