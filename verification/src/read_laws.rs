//! What holds of reading: a read finds what the tree holds, and its proof is a proof.
use vstd::prelude::*;

use crate::content::{
    content_hash, half, lemma_child_holds, lemma_half_of_range, lemma_holds_keys, lemma_nibble_half,
    lemma_node_hash, lemma_range_hash, lemma_range_parts, nothing, part, range_part, several,
    some_key, span, tree_holds, Content,
};
use crate::hash::{
    binary_hash, leaf_hash, lemma_nibble_bits, lemma_nibble_range, nibble_bit, placeholder_hash,
    HashValue,
};
use crate::lookup::{is_proof_of, lemma_siblings_len, lookup, lookup_at, right_siblings, Lookup};
use crate::merkle_proof::{SparseMerkleProof, SparseMerkleRangeProof};
use crate::node_type::{
    descend, has_lone_leaf, is_leaf_child, lone_leaf, merkle_root, range_empty, the_lone_leaf,
    LeafNode, NodeKeyView, NodeView, Version,
};
use crate::ranges::has_prefix;
use crate::sorted::{agree, precedes};
use crate::update::{child_key, Store};

verus! {

/// Whether two keys agree in their first `depth` bits.
pub open spec fn agree_bits(a: HashValue, b: HashValue, depth: nat) -> bool {
    forall|j: int| 0 <= j < depth ==> #[trigger] a.bit_at(j) == b.bit_at(j)
}

/// The part with the keys that agree with `key` in their first `depth` bits.
#[verifier::opaque]
pub open spec fn along<K>(content: Content<K>, key: HashValue, depth: nat) -> Content<K> {
    Map::new(
        |k: HashValue| content.contains_key(k) && agree_bits(k, key, depth),
        |k: HashValue| content[k],
    )
}

/// The part with the keys that agree with `key` in their first `depth` bits, and not in the next.
#[verifier::opaque]
pub open spec fn beside<K>(content: Content<K>, key: HashValue, depth: nat) -> Content<K> {
    Map::new(
        |k: HashValue|
            content.contains_key(k) && agree_bits(k, key, depth) && k.bit_at(depth as int)
                != key.bit_at(depth as int),
        |k: HashValue| content[k],
    )
}

/// The hash at the end of a way: that of the leaf, or of an empty subtree.
pub open spec fn end_hash<K>(found: Lookup<K>) -> HashValue {
    match found.leaf() {
        Some(leaf) => leaf_hash(leaf.account_key, leaf.value_hash),
        None => placeholder_hash(),
    }
}

/// The root hash that follows from a hash `end` and the hashes beside the way to it from the top,
/// where the way starts at bit `depth` of `key`.
pub open spec fn path_root(
    key: HashValue,
    end: HashValue,
    siblings: Seq<HashValue>,
    depth: nat,
) -> HashValue
    decreases siblings.len(),
{
    if siblings.len() == 0 {
        end
    } else {
        let below = path_root(key, end, siblings.drop_first(), depth + 1);
        if key.bit_at(depth as int) {
            binary_hash(siblings[0], below)
        } else {
            binary_hash(below, siblings[0])
        }
    }
}

/// The root hash that a proof for `key` gives.
pub open spec fn proof_root(shown: SparseMerkleProof, key: HashValue) -> HashValue {
    path_root(
        key,
        match shown.leaf {
            Some(leaf) => leaf_hash(leaf.key, leaf.value_hash),
            None => placeholder_hash(),
        },
        shown.siblings@.reverse(),
        0,
    )
}

/// Whether `sibling` is the hash of the part beside the way to `key` at bit `depth`, where there are
/// several keys.
pub open spec fn is_beside<K>(
    content: Content<K>,
    key: HashValue,
    sibling: HashValue,
    depth: nat,
) -> bool {
    several(along(content, key, depth)) && sibling == content_hash(
        beside(content, key, depth),
        depth + 1,
    )
}

/// Whether the hashes of `siblings` are those of the parts beside the way to `key` from bit `depth`
/// on, each at a place where there are several keys.
pub open spec fn are_beside<K>(
    content: Content<K>,
    key: HashValue,
    siblings: Seq<HashValue>,
    depth: nat,
) -> bool {
    forall|i: nat|
        i < siblings.len() ==> #[trigger] is_beside(content, key, siblings[i as int], depth + i)
}

/// What lies along a key.
pub proof fn lemma_along<K>(content: Content<K>, key: HashValue, depth: nat)
    ensures
        forall|k: HashValue| #[trigger]
            along(content, key, depth).contains_key(k) <==> content.contains_key(k) && agree_bits(
                k,
                key,
                depth,
            ),
        forall|k: HashValue| #[trigger]
            along(content, key, depth).contains_key(k) ==> along(content, key, depth)[k]
                == content[k],
{
    reveal(along);
}

/// Hashes that are beside a way, and those beside the rest of it.
proof fn lemma_beside_join<K>(
    content: Content<K>,
    key: HashValue,
    above: Seq<HashValue>,
    below: Seq<HashValue>,
    depth: nat,
)
    requires
        are_beside(content, key, above, depth),
        are_beside(content, key, below, depth + above.len()),
    ensures
        are_beside(content, key, above + below, depth),
{
    let all = above + below;
    assert forall|i: nat| i < all.len() implies #[trigger] is_beside(
        content,
        key,
        all[i as int],
        depth + i,
    ) by {
        if i < above.len() {
            assert(is_beside(content, key, above[i as int], depth + i));
        } else {
            let j = (i - above.len()) as nat;
            assert(is_beside(content, key, below[j as int], depth + above.len() + j));
        }
    }
}

/// The next bit of a key parts what lies along it from what lies beside it.
pub proof fn lemma_along_halves<K>(content: Content<K>, key: HashValue, depth: nat)
    ensures
        half(along(content, key, depth), depth, key.bit_at(depth as int)) == along(
            content,
            key,
            depth + 1,
        ),
        half(along(content, key, depth), depth, !key.bit_at(depth as int)) == beside(
            content,
            key,
            depth,
        ),
{
    reveal(along);
    reveal(beside);
    assert forall|k: HashValue|
        agree_bits(k, key, depth + 1) == (#[trigger] agree_bits(k, key, depth) && k.bit_at(
            depth as int,
        ) == key.bit_at(depth as int)) by {
        if agree_bits(k, key, depth) && k.bit_at(depth as int) == key.bit_at(depth as int) {
            assert forall|j: int| 0 <= j < depth + 1 implies #[trigger] k.bit_at(j) == key.bit_at(
                j,
            ) by {}
        }
        if agree_bits(k, key, depth + 1) {
            assert(k.bit_at(depth as int) == key.bit_at(depth as int));
        }
    }
    assert(half(along(content, key, depth), depth, key.bit_at(depth as int)) =~= along(
        content,
        key,
        depth + 1,
    ));
    assert(half(along(content, key, depth), depth, !key.bit_at(depth as int)) =~= beside(
        content,
        key,
        depth,
    ));
}

/// Keys that share a path agree in its bits.
pub proof fn lemma_prefix_bits(a: HashValue, b: HashValue, path: Seq<u8>)
    requires
        has_prefix(a, path),
        has_prefix(b, path),
    ensures
        agree_bits(a, b, 4 * path.len()),
{
    assert forall|j: int| 0 <= j < 4 * path.len() implies #[trigger] a.bit_at(j) == b.bit_at(
        j,
    ) by {
        assert(a.nibble_at(j / 4) == path[j / 4]);
        assert(b.nibble_at(j / 4) == path[j / 4]);
    }
}

/// All that a subtree holds lies along each key below its path.
pub proof fn lemma_all_along<K>(
    store: Store<K>,
    node_key: NodeKeyView,
    content: Content<K>,
    key: HashValue,
)
    requires
        tree_holds(store, node_key, content),
        has_prefix(key, node_key.path),
    ensures
        along(content, key, 4 * node_key.path.len()) == content,
{
    lemma_holds_keys(store, node_key, content);
    assert forall|k: HashValue| #[trigger] content.contains_key(k) implies agree_bits(
        k,
        key,
        4 * node_key.path.len(),
    ) by {
        lemma_prefix_bits(k, key, node_key.path);
    }
    reveal(along);
    assert(along(content, key, 4 * node_key.path.len()) =~= content);
}

/// What the way down within a node passes by, and what it ends at.
proof fn lemma_descend_levels<K>(
    store: Store<K>,
    node_key: NodeKeyView,
    content: Content<K>,
    key: HashValue,
    start: int,
    bits: nat,
)
    requires
        tree_holds(store, node_key, content),
        store[node_key] is Internal,
        bits < 4,
        0 <= start,
        start % span(bits) == 0,
        start + span(bits) <= 16,
        start <= key.nibble_at(node_key.path.len() as int) < start + span(bits),
        range_part(content, node_key.path.len(), start, span(bits)) == along(
            content,
            key,
            4 * node_key.path.len() + bits,
        ),
        several(along(content, key, 4 * node_key.path.len() + bits)),
    ensures
        ({
            let slots = store[node_key]->Internal_0;
            let depth = node_key.path.len();
            let n = key.nibble_at(depth as int) as int;
            let (end, siblings) = descend(slots, n, start, span(bits));
            let after = along(content, key, 4 * depth + bits + siblings.len());
            &&& are_beside(content, key, siblings, 4 * depth + bits)
            &&& match end {
                None => nothing(after),
                Some(i) => {
                    &&& 0 <= i < 16
                    &&& slots[i] is Some
                    &&& after == part(content, depth, i as u8)
                    &&& is_leaf_child(slots[i]) || (i == n && siblings.len() == 4 - bits)
                },
            }
        }),
    decreases 4 - bits,
{
    let slots = store[node_key]->Internal_0;
    let depth = node_key.path.len();
    let n = key.nibble_at(depth as int) as int;
    let width = span(bits);
    let at = 4 * depth + bits;
    lemma_nibble_range(key, depth as int);
    lemma_half_of_range(content, depth, start, bits);
    lemma_along_halves(content, key, at);
    let h = width / 2;
    let near = if n < start + h {
        start
    } else {
        start + h
    };
    let far = if n < start + h {
        start + h
    } else {
        start
    };
    assert(key.bit_at(at as int) == (n >= start + h)) by {
        assert(at as int / 4 == depth && at as int % 4 == bits);
        lemma_nibble_half(n as u8, bits, start);
    }
    let near_part = range_part(content, depth, near, span(bits + 1));
    assert(near_part == along(content, key, at + 1));
    assert(range_part(content, depth, far, span(bits + 1)) == beside(content, key, at));
    lemma_range_hash(store, node_key, content, near, bits + 1);
    lemma_range_hash(store, node_key, content, far, bits + 1);
    let first = merkle_root(slots, far, h);
    assert(first == content_hash(beside(content, key, at), at + 1));
    lemma_range_parts(content, depth, near, span(bits + 1));
    assert(are_beside(content, key, seq![first], at)) by {
        assert(is_beside(content, key, first, at));
    }
    let (end, siblings) = descend(slots, n, start, width);
    if range_empty(slots, near, h) {
    } else if h == 1 {
        assert(near == n);
        assert(near_part == part(content, depth, n as u8));
        assert(!nothing(near_part));
        lemma_child_holds(store, node_key, content, n as u8);
    } else if has_lone_leaf(slots, near, h) {
        let i = the_lone_leaf(slots, near, h);
        assert(lone_leaf(slots, near, h, i));
        assert(near_part =~= part(content, depth, i as u8)) by {
            assert forall|k: HashValue| #[trigger] near_part.contains_key(k) implies k.nibble_at(
                depth as int,
            ) == i by {
                let m = k.nibble_at(depth as int);
                lemma_child_holds(store, node_key, content, m);
                assert(part(content, depth, m).contains_key(k));
                assert(slots[m as int] is Some);
            }
            assert forall|k: HashValue| #[trigger]
                part(content, depth, i as u8).contains_key(k) implies near_part.contains_key(k) by {
            }
        }
    } else {
        lemma_descend_levels(store, node_key, content, key, near, bits + 1);
        let below = descend(slots, n, near, h).1;
        lemma_beside_join(content, key, seq![first], below, at);
        assert(at + 1 + below.len() == at + siblings.len());
    }
}

/// Along and beside a key, a part that holds all that lies along the key at some depth holds the same
/// as the whole from there on.
proof fn lemma_along_part<K>(content: Content<K>, key: HashValue, depth: nat, from: nat)
    requires
        from >= depth,
    ensures
        along(along(content, key, depth), key, from) == along(content, key, from),
        beside(along(content, key, depth), key, from) == beside(content, key, from),
{
    reveal(along);
    reveal(beside);
    assert forall|k: HashValue| #[trigger] agree_bits(k, key, from) implies agree_bits(
        k,
        key,
        depth,
    ) by {}
    assert(along(along(content, key, depth), key, from) =~= along(content, key, from));
    assert(beside(along(content, key, depth), key, from) =~= beside(content, key, from));
}

/// What is beside the way in a part that holds all that lies along the key is beside the way.
proof fn lemma_beside_part<K>(
    content: Content<K>,
    key: HashValue,
    siblings: Seq<HashValue>,
    depth: nat,
)
    requires
        are_beside(along(content, key, depth), key, siblings, depth),
    ensures
        are_beside(content, key, siblings, depth),
{
    assert forall|i: nat| i < siblings.len() implies #[trigger] is_beside(
        content,
        key,
        siblings[i as int],
        depth + i,
    ) by {
        assert(is_beside(along(content, key, depth), key, siblings[i as int], depth + i));
        lemma_along_part(content, key, depth, depth + i);
    }
}

/// The way down from a node that holds `content` towards `key` ends, passes by what lies beside the
/// key, and ends at the only leaf that lies along the key there, or where nothing lies along it.
pub proof fn lemma_lookup_levels<K>(
    store: Store<K>,
    node_key: NodeKeyView,
    content: Content<K>,
    key: HashValue,
)
    requires
        tree_holds(store, node_key, content),
        has_prefix(key, node_key.path),
        node_key.path.len() <= 64,
    ensures
        ({
            let depth = node_key.path.len();
            let found = lookup(store, node_key, key, depth);
            let after = along(content, key, 4 * depth + found.siblings().len());
            &&& found.ends()
            &&& are_beside(content, key, found.siblings(), 4 * depth)
            &&& match found.leaf() {
                Some(leaf) => after == Map::<HashValue, LeafNode<K>>::empty().insert(
                    leaf.account_key,
                    leaf,
                ),
                None => nothing(after),
            }
        }),
    decreases 64 - node_key.path.len(),
{
    let depth = node_key.path.len();
    let found = lookup(store, node_key, key, depth);
    lemma_all_along(store, node_key, content, key);
    match store[node_key] {
        NodeView::Leaf(leaf) => {
                    assert(found.siblings() =~= Seq::empty());
        },
        NodeView::Internal(slots) => {
            lemma_nibble_range(key, depth as int);
            let n = key.nibble_at(depth as int);
            assert(range_part(content, depth, 0, 16) =~= content) by {
                assert forall|k: HashValue| #[trigger] content.contains_key(k) implies range_part(
                    content,
                    depth,
                    0,
                    16,
                ).contains_key(k) by {
                    lemma_nibble_range(k, depth as int);
                }
            }
            lemma_descend_levels(store, node_key, content, key, 0, 0);
            let (end, siblings) = descend(slots, n as int, 0, 16);
            if let Some(i) = end {
                let child = slots[i].unwrap();
                let next = child_key(node_key, child, i as u8);
                let below = part(content, depth, i as u8);
                lemma_child_holds(store, node_key, content, i as u8);
                let rest = lookup(store, next, key, depth + 1);
                if is_leaf_child(slots[i]) {
                    let leaf = store[next]->Leaf_0;
                    assert(rest == Lookup::Leaf(leaf, Seq::empty()));
                    assert(siblings + Seq::<HashValue>::empty() =~= siblings);
                } else {
                    assert(has_prefix(key, next.path));
                    lemma_lookup_levels(store, next, below, key);
                    let at = 4 * depth + 4;
                    assert(below == along(content, key, at));
                    assert(4 * (depth + 1) == at);
                    lemma_beside_part(content, key, rest.siblings(), at);
                    lemma_beside_join(content, key, siblings, rest.siblings(), 4 * depth);
                    let last = 4 * depth + found.siblings().len();
                    assert(last == 4 * (depth + 1) + rest.siblings().len());
                    lemma_along_part(content, key, at, last);
                }
            }
        },
    }
}

/// Reading any key from a tree that holds `content` ends without an error, and finds what `content` has
/// under the key.
pub proof fn lemma_read<K>(
    store: Store<K>,
    version: Version,
    content: Content<K>,
    key: HashValue,
)
    requires
        tree_holds(store, NodeKeyView::root(version), content),
    ensures
        lookup_at(store, version, key).ends(),
        lookup_at(store, version, key).value(key) == if content.contains_key(key) {
            Some((content[key].value_hash, content[key].value_index))
        } else {
            None
        },
{
    let root = NodeKeyView::root(version);
    let found = lookup_at(store, version, key);
    lemma_lookup_levels(store, root, content, key);
    lemma_holds_keys(store, root, content);
    let after = along(content, key, found.siblings().len());
    lemma_along(content, key, found.siblings().len());
    assert(agree_bits(key, key, found.siblings().len()));
    assert(content.contains_key(key) == after.contains_key(key));
    if let Some(leaf) = found.leaf() {
        assert(after.contains_key(leaf.account_key));
    }
}

/// The hashes beside a way, and the hash at its end, give the hash of what lies along the way.
pub proof fn lemma_path_root<K>(
    content: Content<K>,
    key: HashValue,
    end: HashValue,
    siblings: Seq<HashValue>,
    depth: nat,
)
    requires
        are_beside(content, key, siblings, depth),
        depth + siblings.len() <= 256,
        end == content_hash(along(content, key, depth + siblings.len()), depth + siblings.len()),
    ensures
        path_root(key, end, siblings, depth) == content_hash(along(content, key, depth), depth),
    decreases siblings.len(),
{
    if siblings.len() > 0 {
        let rest = siblings.drop_first();
        assert(is_beside(content, key, siblings[0], depth + 0));
        assert forall|i: nat| i < rest.len() implies #[trigger] is_beside(
            content,
            key,
            rest[i as int],
            depth + 1 + i,
        ) by {
            assert(is_beside(content, key, siblings[i as int + 1], depth + (i + 1)));
        }
        lemma_path_root(content, key, end, rest, depth + 1);
        lemma_along_halves(content, key, depth);
        let here = along(content, key, depth);
        assert(!nothing(here)) by {
            let (a, b) = choose|a: HashValue, b: HashValue| #[trigger]
                here.contains_key(a) && #[trigger] here.contains_key(b) && a != b;
            assert(here.contains_key(a));
        }
    }
}

/// The hash of a single leaf, at any depth.
pub proof fn lemma_single_hash<K>(leaf: LeafNode<K>, depth: nat)
    requires
        depth <= 256,
    ensures
        content_hash(
            Map::<HashValue, LeafNode<K>>::empty().insert(leaf.account_key, leaf),
            depth,
        ) == leaf_hash(leaf.account_key, leaf.value_hash),
{
    let content = Map::<HashValue, LeafNode<K>>::empty().insert(leaf.account_key, leaf);
    assert(content.contains_key(leaf.account_key));
    assert(content.contains_key(some_key(content)));
}

/// The proof that comes with a read is a proof. Together with the key it gives the root hash of the tree.
/// The leaf that it shows, if there is one, is in the tree, and is the only one whose key agrees with
/// the key that was asked for in as many bits as there are siblings; if it shows none, there is no
/// such leaf. So the key that was asked for is in the tree if and only if it is that leaf's key.
pub proof fn lemma_read_proof<K>(
    store: Store<K>,
    version: Version,
    content: Content<K>,
    key: HashValue,
    shown: SparseMerkleProof,
)
    requires
        tree_holds(store, NodeKeyView::root(version), content),
        is_proof_of(lookup_at(store, version, key), shown),
    ensures
        proof_root(shown, key) == store[NodeKeyView::root(version)].hash(),
        shown.siblings@.len() <= 256,
        match shown.leaf {
            Some(leaf) => {
                &&& content.contains_key(leaf.key)
                &&& content[leaf.key].value_hash == leaf.value_hash
                &&& agree_bits(leaf.key, key, shown.siblings@.len())
                &&& forall|k: HashValue|
                    content.contains_key(k) && #[trigger] agree_bits(k, key, shown.siblings@.len())
                        ==> k == leaf.key
            },
            None => forall|k: HashValue| #[trigger]
                content.contains_key(k) ==> !agree_bits(k, key, shown.siblings@.len()),
        },
        content.contains_key(key) == (shown.leaf is Some && shown.leaf.unwrap().key == key),
{
    let root = NodeKeyView::root(version);
    let found = lookup_at(store, version, key);
    lemma_lookup_levels(store, root, content, key);
    lemma_node_hash(store, root, content);
    lemma_holds_keys(store, root, content);
    lemma_all_along(store, root, content, key);
    lemma_siblings_len(store, root, key, 0);
    let len = found.siblings().len();
    if let Some(leaf) = found.leaf() {
        lemma_single_hash(leaf, len);
    }
    lemma_path_root(content, key, end_hash(found), found.siblings(), 0);
    assert(shown.siblings@.reverse() =~= found.siblings());
    lemma_along(content, key, len);
    let after = along(content, key, len);
    assert(agree_bits(key, key, len));
    if let Some(leaf) = found.leaf() {
        assert(after.contains_key(leaf.account_key));
        assert forall|k: HashValue| content.contains_key(k) && #[trigger] agree_bits(
            k,
            key,
            len,
        ) implies k == leaf.account_key by {
            assert(after.contains_key(k));
        }
    } else {
        assert forall|k: HashValue| #[trigger] content.contains_key(k) implies !agree_bits(
            k,
            key,
            len,
        ) by {
            assert(!after.contains_key(k));
        }
    }
    assert(content.contains_key(key) == after.contains_key(key));
}

/// The part with the keys from the leftmost one up to `key`.
pub open spec fn up_to<K>(content: Content<K>, key: HashValue) -> Content<K> {
    Map::new(
        |k: HashValue|
            content.contains_key(k) && (k == key || precedes(k.nibbles(), key.nibbles())),
        |k: HashValue| content[k],
    )
}

/// The root hash that follows from all keys up to `key` and the hashes on the right of the way to it,
/// from the top, where the way starts at bit `depth` of `key`.
pub open spec fn range_root<K>(
    known: Content<K>,
    key: HashValue,
    right: Seq<HashValue>,
    depth: nat,
) -> HashValue
    decreases 256 - depth,
{
    if depth >= 256 || (right.len() == 0 && !several(known)) {
        content_hash(known, depth)
    } else if key.bit_at(depth as int) {
        binary_hash(
            content_hash(half(known, depth, false), depth + 1),
            range_root(half(known, depth, true), key, right, depth + 1),
        )
    } else {
        binary_hash(
            range_root(half(known, depth, false), key, right.drop_first(), depth + 1),
            right[0],
        )
    }
}

/// Those of the hashes beside the way to `key` from bit `depth` on that lie on the right of it.
spec fn right_from(key: HashValue, siblings: Seq<HashValue>, depth: nat) -> Seq<HashValue>
    decreases siblings.len(),
{
    if siblings.len() == 0 {
        Seq::empty()
    } else {
        let below = right_from(key, siblings.drop_first(), depth + 1);
        if key.bit_at(depth as int) {
            below
        } else {
            seq![siblings[0]] + below
        }
    }
}

proof fn lemma_right_push(key: HashValue, siblings: Seq<HashValue>, last: HashValue, depth: nat)
    ensures
        right_from(key, siblings.push(last), depth) == if key.bit_at((depth + siblings.len()) as int) {
            right_from(key, siblings, depth)
        } else {
            right_from(key, siblings, depth).push(last)
        },
    decreases siblings.len(),
{
    let all = siblings.push(last);
    if siblings.len() == 0 {
        assert(all.drop_first() =~= Seq::empty());
        assert(right_from(key, all.drop_first(), depth + 1) =~= Seq::empty());
        assert(seq![last] + Seq::<HashValue>::empty() =~= Seq::<HashValue>::empty().push(last));
    } else {
        assert(all.drop_first() =~= siblings.drop_first().push(last));
        lemma_right_push(key, siblings.drop_first(), last, depth + 1);
        let below = right_from(key, siblings.drop_first(), depth + 1);
        assert(seq![siblings[0]] + below.push(last) =~= (seq![siblings[0]] + below).push(last));
    }
}

proof fn lemma_right_siblings(key: HashValue, siblings: Seq<HashValue>)
    ensures
        right_siblings(key, siblings) == right_from(key, siblings, 0),
    decreases siblings.len(),
{
    if siblings.len() > 0 {
        lemma_right_siblings(key, siblings.drop_last());
        lemma_right_push(key, siblings.drop_last(), siblings.last(), 0);
        assert(siblings =~= siblings.drop_last().push(siblings.last()));
    }
}

/// Of two nibbles the one with the smaller bit where they first differ is the smaller one.
proof fn lemma_nibble_order(a: u8, b: u8, r: int)
    requires
        a < 16,
        b < 16,
        0 <= r < 4,
        forall|j: int| 0 <= j < r ==> #[trigger] nibble_bit(a, j) == nibble_bit(b, j),
        !nibble_bit(a, r),
        nibble_bit(b, r),
    ensures
        a < b,
{
    assert(r > 0 ==> nibble_bit(a, 0) == nibble_bit(b, 0));
    assert(r > 1 ==> nibble_bit(a, 1) == nibble_bit(b, 1));
    assert(r > 2 ==> nibble_bit(a, 2) == nibble_bit(b, 2));
}

/// Of two keys the one with the smaller bit where they first differ comes first.
proof fn lemma_bits_order(a: HashValue, b: HashValue, depth: nat)
    requires
        depth < 256,
        agree_bits(a, b, depth),
        !a.bit_at(depth as int),
        b.bit_at(depth as int),
    ensures
        precedes(a.nibbles(), b.nibbles()),
{
    let i = depth as int / 4;
    let r = depth as int % 4;
    assert forall|n: int| 0 <= n < i implies #[trigger] a.nibble_at(n) == b.nibble_at(n) by {
        lemma_nibble_range(a, n);
        lemma_nibble_range(b, n);
        assert forall|j: int| 0 <= j < 4 implies #[trigger] nibble_bit(a.nibble_at(n), j)
            == nibble_bit(b.nibble_at(n), j) by {
            lemma_same_bit(a, b, n, j);
        }
        lemma_nibble_bits(a.nibble_at(n), b.nibble_at(n));
    }
    lemma_nibble_range(a, i);
    lemma_nibble_range(b, i);
    assert forall|j: int| 0 <= j < r implies #[trigger] nibble_bit(a.nibble_at(i), j) == nibble_bit(
        b.nibble_at(i),
        j,
    ) by {
        lemma_same_bit(a, b, i, j);
    }
    lemma_nibble_order(a.nibble_at(i), b.nibble_at(i), r);
    assert(agree(a.nibbles(), b.nibbles(), i));
}

/// Bit `j` of nibble `n` is bit `4 * n + j` of the key.
proof fn lemma_same_bit(a: HashValue, b: HashValue, n: int, j: int)
    requires
        0 <= j < 4,
    ensures
        (a.bit_at(4 * n + j) == b.bit_at(4 * n + j)) == (nibble_bit(a.nibble_at(n), j)
            == nibble_bit(b.nibble_at(n), j)),
{
    assert((4 * n + j) / 4 == n && (4 * n + j) % 4 == j);
}

/// A key that agrees with `key` up to a bit is up to `key` if it is on the left there.
proof fn lemma_up_to_halves<K>(content: Content<K>, key: HashValue, depth: nat)
    requires
        depth < 256,
    ensures
        ({
            let known = up_to(along(content, key, depth), key);
            let below = up_to(along(content, key, depth + 1), key);
            &&& half(known, depth, key.bit_at(depth as int)) == below
            &&& key.bit_at(depth as int) ==> half(known, depth, false) == beside(
                content,
                key,
                depth,
            )
        }),
{
    let here = along(content, key, depth);
    let known = up_to(here, key);
    let next = along(content, key, depth + 1);
    lemma_along_halves(content, key, depth);
    lemma_along(content, key, depth);
    assert(half(known, depth, key.bit_at(depth as int)) =~= up_to(next, key));
    if key.bit_at(depth as int) {
        assert forall|k: HashValue| #[trigger]
            beside(content, key, depth).contains_key(k) implies known.contains_key(k) by {
            assert(half(here, depth, false).contains_key(k));
            lemma_bits_order(k, key, depth);
        }
        assert(half(known, depth, false) =~= beside(content, key, depth));
    }
}

/// If no hash lies on the right of the way to a key, other keys are on the left of it.
proof fn lemma_none_right<K>(
    content: Content<K>,
    key: HashValue,
    siblings: Seq<HashValue>,
    depth: nat,
)
    requires
        content.contains_key(key),
        are_beside(content, key, siblings, depth),
        siblings.len() > 0,
        depth + siblings.len() <= 256,
        !several(along(content, key, depth + siblings.len())),
        right_from(key, siblings, depth).len() == 0,
    ensures
        several(up_to(along(content, key, depth), key)),
    decreases siblings.len(),
{
    let here = along(content, key, depth);
    let known = up_to(here, key);
    let next = along(content, key, depth + 1);
    lemma_along(content, key, depth);
    lemma_along(content, key, depth + 1);
    lemma_along_halves(content, key, depth);
    lemma_up_to_halves(content, key, depth);
    assert(agree_bits(key, key, depth));
    assert(known.contains_key(key));
    assert(is_beside(content, key, siblings[0], depth + 0));
    assert(key.bit_at(depth as int));
    if nothing(beside(content, key, depth)) {
        let (a, b) = choose|a: HashValue, b: HashValue| #[trigger]
            here.contains_key(a) && #[trigger] here.contains_key(b) && a != b;
        assert(!half(here, depth, false).contains_key(a));
        assert(!half(here, depth, false).contains_key(b));
        assert(half(here, depth, true).contains_key(a) && half(here, depth, true).contains_key(b));
        assert(several(next));
        let rest = siblings.drop_first();
        assert forall|i: nat| i < rest.len() implies #[trigger] is_beside(
            content,
            key,
            rest[i as int],
            depth + 1 + i,
        ) by {
            assert(is_beside(content, key, siblings[i as int + 1], depth + (i + 1)));
        }
        assert(depth + 1 + rest.len() == depth + siblings.len());
        lemma_none_right(content, key, rest, depth + 1);
        let below = up_to(next, key);
        let (c, d) = choose|c: HashValue, d: HashValue| #[trigger]
            below.contains_key(c) && #[trigger] below.contains_key(d) && c != d;
        assert(half(known, depth, true).contains_key(c) && half(known, depth, true).contains_key(d));
        assert(known.contains_key(c) && known.contains_key(d));
    } else {
        let k = choose|k: HashValue| #[trigger] beside(content, key, depth).contains_key(k);
        assert(half(known, depth, false).contains_key(k));
        assert(known.contains_key(k));
    }
}

/// The keys up to a key and the hashes on the right of the way to it give the hash of all that lies
/// along the way.
proof fn lemma_range_root<K>(
    content: Content<K>,
    key: HashValue,
    siblings: Seq<HashValue>,
    depth: nat,
)
    requires
        content.contains_key(key),
        are_beside(content, key, siblings, depth),
        depth + siblings.len() <= 256,
        along(content, key, depth + siblings.len()) == Map::<HashValue, LeafNode<K>>::empty().insert(
            key,
            content[key],
        ),
    ensures
        range_root(
            up_to(along(content, key, depth), key),
            key,
            right_from(key, siblings, depth),
            depth,
        ) == content_hash(along(content, key, depth), depth),
    decreases siblings.len(),
{
    let here = along(content, key, depth);
    let known = up_to(here, key);
    let right = right_from(key, siblings, depth);
    if siblings.len() == 0 {
        assert(known =~= here);
    } else {
        if right.len() == 0 {
            lemma_none_right(content, key, siblings, depth);
        }
        lemma_along_halves(content, key, depth);
        lemma_up_to_halves(content, key, depth);
        assert(is_beside(content, key, siblings[0], depth + 0));
        let rest = siblings.drop_first();
        assert forall|i: nat| i < rest.len() implies #[trigger] is_beside(
            content,
            key,
            rest[i as int],
            depth + 1 + i,
        ) by {
            assert(is_beside(content, key, siblings[i as int + 1], depth + (i + 1)));
        }
        assert(depth + 1 + rest.len() == depth + siblings.len());
        lemma_range_root(content, key, rest, depth + 1);
        let below = right_from(key, rest, depth + 1);
        if !key.bit_at(depth as int) {
            assert(right.drop_first() =~= below);
        }
        assert(!nothing(here)) by {
            let (a, b) = choose|a: HashValue, b: HashValue| #[trigger]
                here.contains_key(a) && #[trigger] here.contains_key(b) && a != b;
            assert(here.contains_key(a));
        }
    }
}

/// The range proof for a key shows that the keys up to it are in the tree: they and the siblings of
/// the proof give the root hash of the tree.
pub proof fn lemma_range_proof<K>(
    store: Store<K>,
    version: Version,
    content: Content<K>,
    key: HashValue,
    shown: SparseMerkleRangeProof,
)
    requires
        tree_holds(store, NodeKeyView::root(version), content),
        content.contains_key(key),
        shown.right_siblings@ == right_siblings(
            key,
            lookup_at(store, version, key).siblings(),
        ).reverse(),
    ensures
        range_root(up_to(content, key), key, shown.right_siblings@.reverse(), 0)
            == store[NodeKeyView::root(version)].hash(),
{
    let root = NodeKeyView::root(version);
    let found = lookup_at(store, version, key);
    let len = found.siblings().len();
    lemma_lookup_levels(store, root, content, key);
    lemma_node_hash(store, root, content);
    lemma_holds_keys(store, root, content);
    lemma_all_along(store, root, content, key);
    lemma_siblings_len(store, root, key, 0);
    lemma_right_siblings(key, found.siblings());
    assert(shown.right_siblings@.reverse() =~= right_from(key, found.siblings(), 0));
    lemma_along(content, key, len);
    assert(agree_bits(key, key, len));
    let after = along(content, key, len);
    assert(after.contains_key(key));
    lemma_range_root(content, key, found.siblings(), 0);
}

} // verus!
