//! What holds of calls on single nodes: hashes and counts of leaves.
use vstd::prelude::*;

use crate::content::{lemma_nibble_half, span};
use crate::hash::{
    binary_hash, lemma_binary_digest, lemma_leaf_digest, lemma_names, nibble_bit, placeholder_hash,
    sha3_256, text_bytes, HashValue,
};
use crate::nibble::{Nibble, NibblePath};
use crate::node_type::{
    child_leaf_count, descend, has_lone_leaf, leaf_count_upto, lemma_descend,
    lemma_lone_leaf_unique, lone_leaf, merkle_root, range_empty, the_lone_leaf, Child, InternalNode,
    Node, NodeKey, NodeType,
};

verus! {

/// The hash over a range of children, by the hashes over its two halves. If there is no child, it is the
/// placeholder. If there is a single child and it is a leaf, it is the hash of that child. Otherwise it is
/// the digest of the hashes over the two halves, the left one first, behind the digest of the name of the
/// internal nodes' domain; an empty half is no exception.
pub proof fn lemma_merkle_hash(
    node: &InternalNode,
    start: usize,
    width: usize,
    whole: HashValue,
    left: HashValue,
    right: HashValue,
)
    requires
        width == 2 || width == 4 || width == 8 || width == 16,
        start + width <= 16,
        call_ensures(InternalNode::merkle_hash, (node, start, width), whole),
        call_ensures(InternalNode::merkle_hash, (node, start, (width / 2) as usize), left),
        call_ensures(
            InternalNode::merkle_hash,
            (node, (start + width / 2) as usize, (width / 2) as usize),
            right,
        ),
    ensures
        ({
            let slots = node.children.slots@;
            let none = forall|i: int| start <= i < start + width ==> #[trigger] slots[i] is None;
            let single = |i: int|
                {
                    &&& start <= i < start + width
                    &&& slots[i] matches Some(child) && child.node_type is Leaf
                    &&& forall|j: int|
                        start <= j < start + width && j != i ==> #[trigger] slots[j] is None
                };
            &&& none ==> whole.hash@ == text_bytes("SPARSE_MERKLE_PLACEHOLDER_HASH"@) + seq![
                0u8,
                0u8,
            ]
            &&& forall|i: int| #[trigger] single(i) ==> whole == slots[i].unwrap().hash
            &&& !none && (forall|i: int| !#[trigger] single(i)) ==> whole.hash == sha3_256(
                sha3_256(text_bytes("APTOS::SparseMerkleInternal"@))@ + left.hash@ + right.hash@,
            )
        }),
{
    let slots = node.children.slots@;
    lemma_names();
    lemma_binary_digest(left, right);
    let single = |i: int|
        {
            &&& start <= i < start + width
            &&& slots[i] matches Some(child) && child.node_type is Leaf
            &&& forall|j: int| start <= j < start + width && j != i ==> #[trigger] slots[j] is None
        };
    assert forall|i: int| #[trigger] single(i) == lone_leaf(slots, start as int, width as int, i) by {}
    assert forall|i: int| #[trigger] single(i) implies whole == slots[i].unwrap().hash by {
        lemma_lone_leaf_unique(slots, start as int, width as int, i);
    }
    if forall|i: int| !#[trigger] single(i) {
        if has_lone_leaf(slots, start as int, width as int) {
            let i = choose|i: int| lone_leaf(slots, start as int, width as int, i);
            assert(single(i));
        }
    }
}

/// The hash over a single place is the hash of the child there, or the placeholder.
pub proof fn lemma_merkle_hash_of_child(node: &InternalNode, start: usize, whole: HashValue)
    requires
        start < 16,
        call_ensures(InternalNode::merkle_hash, (node, start, 1usize), whole),
    ensures
        match node.children.slots@[start as int] {
            None => whole.hash@ == text_bytes("SPARSE_MERKLE_PLACEHOLDER_HASH"@) + seq![0u8, 0u8],
            Some(child) => whole == child.hash,
        },
{
    lemma_names();
    let slots = node.children.slots@;
    assert(range_empty(slots, start as int, 1) == (slots[start as int] is None));
}

/// The hash of a node: that over all sixteen places for an internal node, and for a leaf the digest of its
/// key and its value hash behind the digest of the name of the leaves' domain.
pub proof fn lemma_hash_of_node<K>(node: &Node<K>, hash: HashValue, over_all: HashValue)
    requires
        call_ensures(Node::<K>::hash, (node,), hash),
        *node matches Node::Internal(internal) ==> call_ensures(
            InternalNode::merkle_hash,
            (&internal, 0usize, 16usize),
            over_all,
        ),
    ensures
        match *node {
            Node::Internal(_) => hash == over_all,
            Node::Leaf(leaf) => hash.hash == sha3_256(
                sha3_256(text_bytes("APTOS::SparseMerkleLeafNode"@))@ + leaf.account_key.hash@
                    + leaf.value_hash.hash@,
            ),
        },
{
    if let Node::Leaf(leaf) = *node {
        lemma_leaf_digest(leaf.account_key, leaf.value_hash);
    }
}

/// Whether `hashes` are what comes of hashing the first of them with each of the siblings in turn, from the
/// bottom up, each on the side that the bits of the nibble `n` leave to it.
pub open spec fn folds_nibble(n: u8, siblings: Seq<HashValue>, hashes: Seq<HashValue>) -> bool {
    let tag = sha3_256(text_bytes("APTOS::SparseMerkleInternal"@))@;
    &&& hashes.len() == siblings.len() + 1
    &&& forall|i: int|
        #![trigger siblings[i]]
        0 <= i < siblings.len() ==> hashes[i + 1].hash == if nibble_bit(
            n,
            siblings.len() - 1 - i,
        ) {
            sha3_256(tag + siblings[i].hash@ + hashes[i].hash@)
        } else {
            sha3_256(tag + hashes[i].hash@ + siblings[i].hash@)
        }
}

/// The hashes on the way to a child, from the bottom up, where `bits` bits of its nibble are used up.
proof fn lemma_descend_hashes(slots: Seq<Option<Child>>, n: u8, start: int, bits: nat) -> (hashes: Seq<
    HashValue,
>)
    requires
        n < 16,
        bits < 4,
        0 <= start,
        start + span(bits) <= 16,
        start % span(bits) == 0,
        start <= n < start + span(bits),
        !range_empty(slots, start, span(bits)),
        !has_lone_leaf(slots, start, span(bits)),
    ensures
        ({
            let (end, top_down) = descend(slots, n as int, start, span(bits));
            let len = top_down.len();
            &&& hashes.len() == len + 1
            &&& hashes[0] == match end {
                Some(i) => slots[i].unwrap().hash,
                None => placeholder_hash(),
            }
            &&& hashes.last() == merkle_root(slots, start, span(bits))
            &&& forall|i: int|
                0 <= i < len ==> #[trigger] hashes[i + 1] == if nibble_bit(n, bits + len - 1 - i) {
                    binary_hash(top_down[len - 1 - i], hashes[i])
                } else {
                    binary_hash(hashes[i], top_down[len - 1 - i])
                }
        }),
    decreases 4 - bits,
{
    let width = span(bits);
    let half = width / 2;
    lemma_nibble_half(n, bits, start);
    let near = if n < start + half {
        start
    } else {
        start + half
    };
    let far = if n < start + half {
        start + half
    } else {
        start
    };
    let (end, top_down) = descend(slots, n as int, start, width);
    let beside = merkle_root(slots, far, half);
    let whole = merkle_root(slots, start, width);
    assert(whole == if nibble_bit(n, bits as int) {
        binary_hash(beside, merkle_root(slots, near, half))
    } else {
        binary_hash(merkle_root(slots, near, half), beside)
    });
    if range_empty(slots, near, half) {
        let hashes = seq![placeholder_hash(), whole];
        assert(hashes[1] == whole);
        hashes
    } else if half == 1 {
        assert(near == n);
        assert(slots[near] is Some) by {
            assert(range_empty(slots, near, 1) == (slots[near] is None));
        }
        let hashes = seq![slots[n as int].unwrap().hash, whole];
        assert(hashes[1] == whole);
        hashes
    } else if has_lone_leaf(slots, near, half) {
        let i = the_lone_leaf(slots, near, half);
        let hashes = seq![slots[i].unwrap().hash, whole];
        assert(hashes[1] == whole);
        hashes
    } else {
        let below = lemma_descend_hashes(slots, n, near, bits + 1);
        let rest = descend(slots, n as int, near, half).1;
        let len = top_down.len();
        let hashes = below.push(whole);
        assert(top_down =~= seq![beside] + rest);
        assert forall|i: int| 0 <= i < len implies #[trigger] hashes[i + 1] == if nibble_bit(
            n,
            bits + len - 1 - i,
        ) {
            binary_hash(top_down[len - 1 - i], hashes[i])
        } else {
            binary_hash(hashes[i], top_down[len - 1 - i])
        } by {
            if i < len - 1 {
                assert(below[i + 1] == hashes[i + 1]);
                assert(bits + len - 1 - i == (bits + 1) + rest.len() - 1 - i);
                assert(top_down[len - 1 - i] == rest[rest.len() - 1 - i]);
            }
        }
        hashes
    }
}

/// The child at which the way to nibble `n` goes on, and the siblings beside the way within the node, from
/// the top down. The child is the one with that nibble, or a leaf in its place if there is none, and it is
/// told by its version and its path; if there is no child, there is none with that nibble. Hashing the
/// child's hash, or the placeholder, with the siblings gives the hash of the node. The node has to have
/// two children, or one that is an internal node.
pub proof fn lemma_child_with_siblings(
    node: &InternalNode,
    node_key: &NodeKey,
    n: Nibble,
    child: Option<NodeKey>,
    siblings: Vec<HashValue>,
    whole: HashValue,
)
    requires
        n.value < 16,
        call_ensures(
            InternalNode::get_child_with_siblings,
            (node, node_key, n),
            (child, siblings),
        ),
        call_ensures(InternalNode::merkle_hash, (node, 0usize, 16usize), whole),
        exists|i: int, j: int|
            0 <= i < 16 && 0 <= j < 16 && (#[trigger] node.children.slots@[i]) is Some && (
            #[trigger] node.children.slots@[j]) is Some && (i != j || !(
            node.children.slots@[i].unwrap().node_type is Leaf)),
    ensures
        1 <= siblings@.len() <= 4,
        ({
            let slots = node.children.slots@;
            &&& match child {
                None => slots[n.value as int] is None,
                Some(key) => exists|i: u8|
                    {
                        &&& i < 16
                        &&& (#[trigger] slots[i as int]) is Some
                        &&& i == n.value || (slots[n.value as int] is None
                            && slots[i as int].unwrap().node_type is Leaf)
                        &&& key.version == slots[i as int].unwrap().version
                        &&& key.nibble_path@ == node_key.nibble_path@.push(i)
                        &&& exists|hashes: Seq<HashValue>| #[trigger]
                            folds_nibble(n.value, siblings@.reverse(), hashes) && hashes[0]
                                == slots[i as int].unwrap().hash && hashes.last() == whole
                    },
            }
            &&& child is None ==> exists|hashes: Seq<HashValue>| #[trigger]
                folds_nibble(n.value, siblings@.reverse(), hashes) && hashes[0].hash@ == text_bytes(
                    "SPARSE_MERKLE_PLACEHOLDER_HASH"@,
                ) + seq![0u8, 0u8] && hashes.last() == whole
        }),
{
    let slots = node.children.slots@;
    let (end, top_down) = descend(slots, n.value as int, 0, 16);
    let bottom_up = siblings@.reverse();
    let len = top_down.len();
    lemma_names();
    lemma_descend(slots, n.value as int, 0, 16);
    let (i, j) = choose|i: int, j: int|
        0 <= i < 16 && 0 <= j < 16 && (#[trigger] slots[i]) is Some && (#[trigger] slots[j]) is Some
            && (i != j || !(slots[i].unwrap().node_type is Leaf));
    assert(slots[i] is Some && slots[j] is Some);
    if has_lone_leaf(slots, 0, 16) {
        let m = choose|m: int| lone_leaf(slots, 0, 16, m);
        assert(lone_leaf(slots, 0, 16, m));
    }
    let hashes = lemma_descend_hashes(slots, n.value, 0, 0);
    let tag = sha3_256(text_bytes("APTOS::SparseMerkleInternal"@))@;
    assert(folds_nibble(n.value, bottom_up, hashes)) by {
        assert forall|i: int| #![trigger bottom_up[i]] 0 <= i < bottom_up.len() implies hashes[i
            + 1].hash == if nibble_bit(n.value, bottom_up.len() - 1 - i) {
            sha3_256(tag + bottom_up[i].hash@ + hashes[i].hash@)
        } else {
            sha3_256(tag + hashes[i].hash@ + bottom_up[i].hash@)
        } by {
            assert(bottom_up[i] == top_down[len - 1 - i]);
            assert(hashes[i + 1] == if nibble_bit(n.value, 0 + len - 1 - i) {
                binary_hash(top_down[len - 1 - i], hashes[i])
            } else {
                binary_hash(hashes[i], top_down[len - 1 - i])
            });
            lemma_binary_digest(bottom_up[i], hashes[i]);
            lemma_binary_digest(hashes[i], bottom_up[i]);
        }
    }
    if let Some(m) = end {
        assert(slots[m as u8 as int] is Some);
    }
}

/// The sum of the counts of the first `n` children.
spec fn total(slots: Seq<Option<Child>>, n: nat) -> int
    decreases n,
{
    if n == 0 {
        0
    } else {
        total(slots, (n - 1) as nat) + child_leaf_count(slots[n - 1])
    }
}

/// Counts are added up as far as numbers go.
proof fn lemma_total(slots: Seq<Option<Child>>, n: nat)
    ensures
        leaf_count_upto(slots, n) == total(slots, n) % (usize::MAX + 1),
        total(slots, n) >= 0,
    decreases n,
{
    let m = usize::MAX + 1;
    if n > 0 {
        lemma_total(slots, (n - 1) as nat);
        let a = total(slots, (n - 1) as nat);
        let before = leaf_count_upto(slots, (n - 1) as nat);
        let more = child_leaf_count(slots[n - 1]);
        let sum = before + more;
        vstd::arithmetic::div_mod::lemma_add_mod_noop(a, more as int, m);
        vstd::arithmetic::div_mod::lemma_small_mod(more as nat, m as nat);
        assert((a + more) % m == sum % m);
        if sum < m {
            vstd::arithmetic::div_mod::lemma_small_mod(sum as nat, m as nat);
            assert(before.wrapping_add(more) == sum);
        } else {
            vstd::arithmetic::div_mod::lemma_mod_sub_multiples_vanish(sum, m);
            vstd::arithmetic::div_mod::lemma_small_mod((sum - m) as nat, m as nat);
            assert(before.wrapping_add(more) == sum - m);
        }
    } else {
        vstd::arithmetic::div_mod::lemma_small_mod(0, m as nat);
    }
}

proof fn lemma_total_with(slots: Seq<Option<Child>>, at: int, child: Child, n: nat)
    requires
        0 <= at < slots.len(),
        slots[at] is None,
        n <= slots.len(),
    ensures
        total(slots.update(at, Some(child)), n) == total(slots, n) + if at < n {
            child_leaf_count(Some(child)) as int
        } else {
            0
        },
    decreases n,
{
    if n > 0 {
        lemma_total_with(slots, at, child, (n - 1) as nat);
    }
}

/// The number of leaves below a node is the sum over its children, where a leaf counts as one and an internal
/// node as often as it says: without children it is zero, and one more child adds its own number. It is
/// taken modulo the size of the type.
pub proof fn lemma_leaf_counts(
    node: &InternalNode,
    count: usize,
    with_child: &InternalNode,
    count_with_child: usize,
    at: int,
    child: Child,
)
    requires
        call_ensures(InternalNode::leaf_count, (node,), count),
        call_ensures(InternalNode::leaf_count, (with_child,), count_with_child),
        0 <= at < 16,
        node.children.slots@[at] is None,
        with_child.children.slots@ == node.children.slots@.update(at, Some(child)),
    ensures
        (forall|i: int| 0 <= i < 16 ==> (#[trigger] node.children.slots@[i]) is None) ==> count == 0,
        count_with_child == (count + match child.node_type {
            NodeType::Leaf => 1,
            NodeType::Internal { leaf_count } => leaf_count as int,
        }) % (usize::MAX + 1),
{
    let slots = node.children.slots@;
    let b = child_leaf_count(Some(child)) as int;
    let m = usize::MAX + 1;
    lemma_total(slots, 16);
    lemma_total(with_child.children.slots@, 16);
    lemma_total_with(slots, at, child, 16);
    let a = total(slots, 16);
    vstd::arithmetic::div_mod::lemma_add_mod_noop(a, b, m);
    vstd::arithmetic::div_mod::lemma_small_mod(b as nat, m as nat);
    if forall|i: int| 0 <= i < 16 ==> (#[trigger] slots[i]) is None {
        lemma_total_none(slots, 16);
    }
}

proof fn lemma_total_none(slots: Seq<Option<Child>>, n: nat)
    requires
        n <= 16,
        forall|i: int| 0 <= i < 16 ==> (#[trigger] slots[i]) is None,
    ensures
        total(slots, n) == 0,
    decreases n,
{
    if n > 0 {
        lemma_total_none(slots, (n - 1) as nat);
        assert(slots[n - 1] is None);
    }
}

/// A leaf is one leaf, and an internal node has as many as it has below it.
pub proof fn lemma_leaf_count_of_node<K>(node: &Node<K>, count: usize, below: usize)
    requires
        call_ensures(Node::<K>::leaf_count, (node,), count),
        *node matches Node::Internal(internal) ==> call_ensures(
            InternalNode::leaf_count,
            (&internal,),
            below,
        ),
    ensures
        match *node {
            Node::Internal(_) => count == below,
            Node::Leaf(_) => count == 1,
        },
{
}

/// Hash values, paths and node keys are equal exactly if all their bytes, all their nibbles, and both their
/// versions and their paths are.
pub proof fn lemma_equal(
    a: HashValue,
    b: HashValue,
    same_hash: bool,
    p: NibblePath,
    q: NibblePath,
    same_path: bool,
    x: NodeKey,
    y: NodeKey,
    same_key: bool,
)
    requires
        call_ensures(<HashValue as PartialEq>::eq, (&a, &b), same_hash),
        call_ensures(<NibblePath as PartialEq>::eq, (&p, &q), same_path),
        call_ensures(<NodeKey as PartialEq>::eq, (&x, &y), same_key),
    ensures
        same_hash <==> forall|i: int| 0 <= i < 32 ==> #[trigger] a.hash[i] == b.hash[i],
        same_path <==> p.nibbles@ == q.nibbles@,
        same_key <==> x.version == y.version && x.nibble_path.nibbles@ == y.nibble_path.nibbles@,
{
    assert((forall|i: int| 0 <= i < 32 ==> #[trigger] a.hash[i] == b.hash[i]) ==> a.hash =~= b.hash);
}

} // verus!
