//! What a tree holds, and the hash of what it holds.
use vstd::prelude::*;

use crate::hash::{
    binary_hash, leaf_hash, lemma_names, lemma_nibble_range, nibble_bit, placeholder_hash, sha3_256,
    text_bytes, HashValue, INTERNAL_DOMAIN, LEAF_DOMAIN,
};
use crate::node_type::{
    has_lone_leaf, is_leaf_child, lone_leaf, merkle_root, range_empty, the_lone_leaf, Child,
    LeafNode, NodeKeyView, NodeView, Version,
};
use crate::ranges::has_prefix;
use crate::update::{child_key, Store};

verus! {

/// What a tree holds: the leaf of each key.
pub type Content<K> = Map<HashValue, LeafNode<K>>;

/// Whether there is no key.
pub open spec fn nothing<K>(content: Content<K>) -> bool {
    forall|k: HashValue| !#[trigger] content.contains_key(k)
}

/// Whether there is more than one key.
pub open spec fn several<K>(content: Content<K>) -> bool {
    exists|a: HashValue, b: HashValue| #[trigger]
        content.contains_key(a) && #[trigger] content.contains_key(b) && a != b
}

/// One of the keys.
pub open spec fn some_key<K>(content: Content<K>) -> HashValue {
    choose|k: HashValue| content.contains_key(k)
}

/// The part with the keys that have nibble `n` at `depth`.
pub open spec fn part<K>(content: Content<K>, depth: nat, n: u8) -> Content<K> {
    Map::new(
        |k: HashValue| content.contains_key(k) && k.nibble_at(depth as int) == n,
        |k: HashValue| content[k],
    )
}

/// The part with the keys that have `bit` at bit position `depth`.
pub open spec fn half<K>(content: Content<K>, depth: nat, bit: bool) -> Content<K> {
    Map::new(
        |k: HashValue| content.contains_key(k) && k.bit_at(depth as int) == bit,
        |k: HashValue| content[k],
    )
}

/// The hash of a binary sparse Merkle tree that holds `content`, all keys of which agree in their
/// first `depth` bits: the placeholder for no key, the hash of the leaf for one key, and else the
/// hash over the hashes of the two halves that the next bit makes.
pub open spec fn content_hash<K>(content: Content<K>, depth: nat) -> HashValue
    decreases 256 - depth,
{
    if nothing(content) || depth > 256 {
        placeholder_hash()
    } else if !several(content) || depth == 256 {
        let leaf = content[some_key(content)];
        leaf_hash(leaf.account_key, leaf.value_hash)
    } else {
        binary_hash(
            content_hash(half(content, depth, false), depth + 1),
            content_hash(half(content, depth, true), depth + 1),
        )
    }
}

/// Whether the subtree at `key` holds `content`: all its nodes are in the store, a leaf stands for
/// one key and an internal node for several, each child holds the part that belongs to it, and
/// what a node knows of its children is true.
pub open spec fn tree_holds<K>(store: Store<K>, key: NodeKeyView, content: Content<K>) -> bool
    decreases 64 - key.path.len(),
{
    &&& store.contains_key(key)
    &&& match store[key] {
        NodeView::Leaf(leaf) => {
            &&& has_prefix(leaf.account_key, key.path)
            &&& content =~= Map::<HashValue, LeafNode<K>>::empty().insert(leaf.account_key, leaf)
        },
        NodeView::Internal(slots) => {
            &&& key.path.len() < 64
            &&& slots.len() == 16
            &&& several(content)
            &&& forall|k: HashValue| #[trigger]
                content.contains_key(k) ==> has_prefix(k, key.path) && content[k].account_key == k
            &&& forall|n: u8|
                n < 16 ==> match #[trigger] slots[n as int] {
                    None => nothing(part(content, key.path.len(), n)),
                    Some(child) => {
                        &&& tree_holds(
                            store,
                            child_key(key, child, n),
                            part(content, key.path.len(), n),
                        )
                        &&& child.hash == content_hash(
                            part(content, key.path.len(), n),
                            4 * (key.path.len() + 1),
                        )
                        &&& child.node_type == store[child_key(key, child, n)].node_type()
                    },
                }
        },
    }
}

/// Child `n` of an internal node holds the part that belongs to it.
pub proof fn lemma_child_holds<K>(store: Store<K>, key: NodeKeyView, content: Content<K>, n: u8)
    requires
        tree_holds(store, key, content),
        store[key] is Internal,
        n < 16,
    ensures
        ({
            let slots = store[key]->Internal_0;
            let below = part(content, key.path.len(), n);
            match slots[n as int] {
                None => nothing(below),
                Some(child) => {
                    &&& tree_holds(store, child_key(key, child, n), below)
                    &&& child.hash == content_hash(below, 4 * (key.path.len() + 1))
                    &&& child.node_type == store[child_key(key, child, n)].node_type()
                    &&& is_leaf_child(slots[n as int]) == !several(below)
                    &&& !nothing(below)
                },
            }
        }),
{
    let slots = store[key]->Internal_0;
    let below = part(content, key.path.len(), n);
    let _ = slots[n as int];
    if let Some(child) = slots[n as int] {
        lemma_holds_keys(store, child_key(key, child, n), below);
    }
}

/// A tree holds at least one key, each below its path and with a leaf of its own; it holds more
/// than one if it starts with an internal node.
pub proof fn lemma_holds_keys<K>(store: Store<K>, key: NodeKeyView, content: Content<K>)
    requires
        tree_holds(store, key, content),
    ensures
        !nothing(content),
        several(content) == (store[key] is Internal),
        key.path.len() <= 64 || !several(content),
        forall|k: HashValue| #[trigger]
            content.contains_key(k) ==> has_prefix(k, key.path) && content[k].account_key == k,
{
    match store[key] {
        NodeView::Leaf(leaf) => {
            assert(content.contains_key(leaf.account_key));
        },
        NodeView::Internal(slots) => {
            let (a, b) = choose|a: HashValue, b: HashValue| #[trigger]
                content.contains_key(a) && #[trigger] content.contains_key(b) && a != b;
            assert(content.contains_key(a));
        },
    }
}

/// The number of children in a range of a binary tree over sixteen, given how many bits of the
/// nibble are fixed.
pub open spec fn span(bits: nat) -> int {
    if bits == 0 {
        16
    } else if bits == 1 {
        8
    } else if bits == 2 {
        4
    } else if bits == 3 {
        2
    } else {
        1
    }
}

/// The part with the keys whose nibble at `depth` is one of `width` from `start` on.
pub open spec fn range_part<K>(
    content: Content<K>,
    depth: nat,
    start: int,
    width: int,
) -> Content<K> {
    Map::new(
        |k: HashValue|
            content.contains_key(k) && start <= k.nibble_at(depth as int) < start + width,
        |k: HashValue| content[k],
    )
}

/// A bit of a nibble tells which half of an aligned range the nibble is in.
pub proof fn lemma_nibble_half(n: u8, bits: nat, start: int)
    requires
        n < 16,
        bits < 4,
        start % span(bits) == 0,
        start <= n < start + span(bits),
    ensures
        nibble_bit(n, bits as int) == (n >= start + span(bits) / 2),
        start % span(bits + 1) == 0,
        (start + span(bits) / 2) % span(bits + 1) == 0,
        span(bits + 1) == span(bits) / 2,
{
    if bits == 0 {
        assert(start % 16 == 0);
        assert(start % 8 == 0 && (start + 8) % 8 == 0);
    } else if bits == 1 {
        assert(start % 8 == 0);
        assert(start % 4 == 0 && (start + 4) % 4 == 0);
    } else if bits == 2 {
        assert(start % 4 == 0);
        assert(start % 2 == 0 && (start + 2) % 2 == 0);
    } else {
        assert(start % 2 == 0);
        assert(start % 1 == 0 && (start + 1) % 1 == 0);
    }
}

/// Halving the part of an aligned range gives the parts of its two halves.
pub proof fn lemma_half_of_range<K>(content: Content<K>, depth: nat, start: int, bits: nat)
    requires
        depth < 64,
        bits < 4,
        start % span(bits) == 0,
        0 <= start,
        start + span(bits) <= 16,
    ensures
        half(range_part(content, depth, start, span(bits)), 4 * depth + bits, false) == range_part(
            content,
            depth,
            start,
            span(bits + 1),
        ),
        half(range_part(content, depth, start, span(bits)), 4 * depth + bits, true) == range_part(
            content,
            depth,
            start + span(bits) / 2,
            span(bits + 1),
        ),
        start % span(bits + 1) == 0,
        (start + span(bits) / 2) % span(bits + 1) == 0,
        span(bits + 1) == span(bits) / 2,
{
    let whole = range_part(content, depth, start, span(bits));
    let at = (4 * depth + bits) as int;
    assert(at / 4 == depth && at % 4 == bits);
    assert forall|k: HashValue| #[trigger] whole.contains_key(k) implies k.bit_at(at) == (
    k.nibble_at(depth as int) >= start + span(bits) / 2) by {
        lemma_nibble_range(k, depth as int);
        lemma_nibble_half(k.nibble_at(depth as int), bits, start);
    }
    assert(half(whole, at as nat, false) =~= range_part(content, depth, start, span(bits + 1)));
    assert(half(whole, at as nat, true) =~= range_part(
        content,
        depth,
        start + span(bits) / 2,
        span(bits + 1),
    ));
}

/// What is in the part of a range is in the part of one of its nibbles, and the other way round.
pub proof fn lemma_range_parts<K>(content: Content<K>, depth: nat, start: int, width: int)
    requires
        depth < 64,
        0 <= start,
        0 < width,
        start + width <= 16,
    ensures
        forall|k: HashValue| #[trigger]
            range_part(content, depth, start, width).contains_key(k) ==> {
                let n = k.nibble_at(depth as int);
                start <= n < start + width && n < 16 && part(content, depth, n).contains_key(k)
            },
        forall|n: u8, k: HashValue|
            start <= n < start + width && #[trigger] part(content, depth, n).contains_key(k)
                ==> range_part(content, depth, start, width).contains_key(k),
        width == 1 ==> range_part(content, depth, start, width) == part(content, depth, start as u8),
{
    if width == 1 {
        assert(range_part(content, depth, start, width) =~= part(content, depth, start as u8));
    }
}

/// The root hash of the binary tree over a range of children is the hash of what they hold.
pub proof fn lemma_range_hash<K>(
    store: Store<K>,
    key: NodeKeyView,
    content: Content<K>,
    start: int,
    bits: nat,
)
    requires
        tree_holds(store, key, content),
        store[key] is Internal,
        bits <= 4,
        start % span(bits) == 0,
        0 <= start,
        start + span(bits) <= 16,
    ensures
        ({
            let slots = store[key]->Internal_0;
            let held = range_part(content, key.path.len(), start, span(bits));
            &&& range_empty(slots, start, span(bits)) == nothing(held)
            &&& merkle_root(slots, start, span(bits)) == content_hash(
                held,
                4 * key.path.len() + bits,
            )
            &&& has_lone_leaf(slots, start, span(bits)) == (!nothing(held) && !several(held))
        }),
    decreases 4 - bits,
{
    let depth = key.path.len();
    let slots = store[key]->Internal_0;
    let width = span(bits);
    let held = range_part(content, depth, start, width);
    lemma_range_parts(content, depth, start, width);
    // where there is a child there is a key
    assert forall|i: int| start <= i < start + width implies (#[trigger] slots[i] is Some) == !nothing(
        part(content, depth, i as u8),
    ) by {
        lemma_child_holds(store, key, content, i as u8);
    }
    assert(range_empty(slots, start, width) == nothing(held)) by {
        if range_empty(slots, start, width) {
            assert forall|k: HashValue| !#[trigger] held.contains_key(k) by {
                if held.contains_key(k) {
                    let n = k.nibble_at(depth as int);
                    assert(slots[n as int] is None);
                    assert(part(content, depth, n).contains_key(k));
                }
            }
        } else {
            let i = choose|i: int| start <= i < start + width && !(#[trigger] slots[i] is None);
            assert(!nothing(part(content, depth, i as u8)));
            let k = choose|k: HashValue| #[trigger] part(content, depth, i as u8).contains_key(k);
            assert(held.contains_key(k));
        }
    }
    if has_lone_leaf(slots, start, width) {
        let i = the_lone_leaf(slots, start, width);
        assert(lone_leaf(slots, start, width, i));
        lemma_child_holds(store, key, content, i as u8);
        let below = part(content, depth, i as u8);
        assert(held =~= below) by {
            assert forall|k: HashValue| #[trigger] held.contains_key(k) implies below.contains_key(
                k,
            ) by {
                let n = k.nibble_at(depth as int);
                assert(part(content, depth, n).contains_key(k));
                assert(slots[n as int] is Some);
                assert(n == i);
            }
        }
        assert(!several(held));
    } else if !nothing(held) && !several(held) {
        // a single key makes a single leaf
        let k = some_key(held);
        assert(held.contains_key(k));
        let n = k.nibble_at(depth as int);
        assert(part(content, depth, n).contains_key(k));
        lemma_child_holds(store, key, content, n);
        assert(slots[n as int] is Some);
        assert(!several(part(content, depth, n))) by {
            if several(part(content, depth, n)) {
                let below = part(content, depth, n);
                let (a, b) = choose|a: HashValue, b: HashValue| #[trigger]
                    below.contains_key(a) && #[trigger] below.contains_key(b) && a != b;
                assert(held.contains_key(a) && held.contains_key(b));
            }
        }
        assert forall|j: int| start <= j < start + width && j != n implies
            #[trigger] slots[j] is None by {
            if slots[j] is Some {
                assert(!nothing(part(content, depth, j as u8)));
                let other = choose|other: HashValue| #[trigger]
                    part(content, depth, j as u8).contains_key(other);
                assert(held.contains_key(other));
                assert(other != k);
            }
        }
        assert(lone_leaf(slots, start, width, n as int));
        assert(false);
    }
    if range_empty(slots, start, width) {
    } else if width <= 1 {
        lemma_child_holds(store, key, content, start as u8);
        assert(held == part(content, depth, start as u8));
    } else if has_lone_leaf(slots, start, width) {
        let i = the_lone_leaf(slots, start, width);
        assert(lone_leaf(slots, start, width, i));
        lemma_child_holds(store, key, content, i as u8);
        assert(4 * (depth + 1) <= 256);
    } else {
        lemma_half_of_range(content, depth, start, bits);
        lemma_range_hash(store, key, content, start, bits + 1);
        lemma_range_hash(store, key, content, start + width / 2, bits + 1);
    }
}

/// The hash of a node is the hash of what the tree below it holds.
///
/// So the root hash of a tree is that of the binary sparse Merkle tree over its keys, however
/// the tree came about.
pub proof fn lemma_node_hash<K>(store: Store<K>, key: NodeKeyView, content: Content<K>)
    requires
        tree_holds(store, key, content),
        key.path.len() <= 64,
    ensures
        store[key].hash() == content_hash(content, 4 * key.path.len()),
{
    lemma_holds_keys(store, key, content);
    match store[key] {
        NodeView::Leaf(leaf) => {
            assert(content.contains_key(some_key(content)));
        },
        NodeView::Internal(slots) => {
            lemma_range_hash(store, key, content, 0, 0);
            assert(range_part(content, key.path.len(), 0, 16) =~= content) by {
                assert forall|k: HashValue| #[trigger] content.contains_key(k) implies range_part(
                    content,
                    key.path.len(),
                    0,
                    16,
                ).contains_key(k) by {
                    lemma_nibble_range(k, key.path.len() as int);
                }
            }
        },
    }
}

/// The hash of what a tree holds depends on the keys and the hashes of their values only.
pub proof fn lemma_same_values<K>(a: Content<K>, b: Content<K>, depth: nat)
    requires
        forall|k: HashValue| #[trigger] a.contains_key(k) <==> b.contains_key(k),
        forall|k: HashValue| #[trigger]
            a.contains_key(k) ==> a[k].account_key == b[k].account_key && a[k].value_hash
                == b[k].value_hash,
    ensures
        content_hash(a, depth) == content_hash(b, depth),
    decreases 256 - depth,
{
    assert(a.dom() =~= b.dom());
    if depth <= 256 && !nothing(a) {
        assert(!nothing(b)) by {
            let k = choose|k: HashValue| #[trigger] a.contains_key(k);
            assert(b.contains_key(k));
        }
        assert(several(a) == several(b)) by {
            if several(a) {
                let (x, y) = choose|x: HashValue, y: HashValue| #[trigger]
                    a.contains_key(x) && #[trigger] a.contains_key(y) && x != y;
                assert(b.contains_key(x) && b.contains_key(y));
            }
            if several(b) {
                let (x, y) = choose|x: HashValue, y: HashValue| #[trigger]
                    b.contains_key(x) && #[trigger] b.contains_key(y) && x != y;
                assert(a.contains_key(x) && a.contains_key(y));
            }
        }
        assert(a.contains_key(some_key(a)));
        assert(b.contains_key(some_key(b)));
        if !several(a) {
            assert(a.contains_key(some_key(b)));
            assert(some_key(a) == some_key(b));
        } else if depth < 256 {
            lemma_same_values(half(a, depth, false), half(b, depth, false), depth + 1);
            lemma_same_values(half(a, depth, true), half(b, depth, true), depth + 1);
        }
    }
}

/// Two trees with the same keys and the same hashes of values have the same root hash, whatever
/// updates they came about by.
pub proof fn lemma_same_root_hash<K>(
    store: Store<K>,
    version: Version,
    content: Content<K>,
    other_store: Store<K>,
    other_version: Version,
    other_content: Content<K>,
)
    requires
        tree_holds(store, NodeKeyView::root(version), content),
        tree_holds(other_store, NodeKeyView::root(other_version), other_content),
        forall|k: HashValue| #[trigger]
            content.contains_key(k) <==> other_content.contains_key(k),
        forall|k: HashValue| #[trigger]
            content.contains_key(k) ==> content[k].value_hash == other_content[k].value_hash,
    ensures
        store[NodeKeyView::root(version)].hash() == other_store[NodeKeyView::root(
            other_version,
        )].hash(),
{
    lemma_node_hash(store, NodeKeyView::root(version), content);
    lemma_node_hash(other_store, NodeKeyView::root(other_version), other_content);
    lemma_holds_keys(store, NodeKeyView::root(version), content);
    lemma_holds_keys(other_store, NodeKeyView::root(other_version), other_content);
    lemma_same_values(content, other_content, 0);
}

/// The hash of no key at all is the placeholder, spelled out.
pub proof fn lemma_hash_of_none<K>(content: Content<K>, depth: nat)
    requires
        forall|k: HashValue| !#[trigger] content.contains_key(k),
    ensures
        content_hash(content, depth).hash@ == text_bytes("SPARSE_MERKLE_PLACEHOLDER_HASH"@) + seq![
            0u8,
            0u8,
        ],
{
    lemma_names();
}

/// The hash of a single key, at whatever depth, is the digest of the key and of its value hash behind the
/// digest of the name of the leaves' domain.
pub proof fn lemma_hash_of_one<K>(content: Content<K>, key: HashValue, depth: nat)
    requires
        depth <= 256,
        forall|k: HashValue| #[trigger] content.contains_key(k) <==> k == key,
        content[key].account_key == key,
    ensures
        content_hash(content, depth).hash == sha3_256(
            sha3_256(text_bytes("APTOS::SparseMerkleLeafNode"@))@ + key.hash@
                + content[key].value_hash.hash@,
        ),
{
    lemma_names();
    assert(content.contains_key(key));
    assert(content.contains_key(some_key(content)));
    let tag = sha3_256(LEAF_DOMAIN@)@;
    let value = content[key].value_hash.hash@;
    assert(tag + (key.hash@ + value) =~= tag + key.hash@ + value);
}

/// The hash of several keys is the digest of the hash of those with a zero at the next bit and of the hash
/// of those with a one, in this order, behind the digest of the name of the internal nodes' domain.
/// It makes no difference whether one of the halves is empty.
pub proof fn lemma_hash_of_several<K>(
    content: Content<K>,
    depth: nat,
    a: HashValue,
    b: HashValue,
    left: Content<K>,
    right: Content<K>,
)
    requires
        depth < 256,
        content.contains_key(a),
        content.contains_key(b),
        a != b,
        forall|k: HashValue| #[trigger]
            left.contains_key(k) <==> content.contains_key(k) && !k.bit_at(depth as int),
        forall|k: HashValue| #[trigger]
            right.contains_key(k) <==> content.contains_key(k) && k.bit_at(depth as int),
        forall|k: HashValue| #[trigger] left.contains_key(k) ==> left[k] == content[k],
        forall|k: HashValue| #[trigger] right.contains_key(k) ==> right[k] == content[k],
    ensures
        content_hash(content, depth).hash == sha3_256(
            sha3_256(text_bytes("APTOS::SparseMerkleInternal"@))@ + content_hash(
                left,
                depth + 1,
            ).hash@ + content_hash(right, depth + 1).hash@,
        ),
{
    lemma_names();
    assert(left =~= half(content, depth, false));
    assert(right =~= half(content, depth, true));
    assert(several(content));
    let tag = sha3_256(INTERNAL_DOMAIN@)@;
    let x = content_hash(left, depth + 1).hash@;
    let y = content_hash(right, depth + 1).hash@;
    assert(tag + (x + y) =~= tag + x + y);
}

} // verus!
