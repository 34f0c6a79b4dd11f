//! What holds of calls: what comes back for what is handed in, in terms of the keys and values that a tree
//! holds, and how the results of several calls stand to each other.
//!
//! A premise `call_ensures(f, arguments, result)` says that `result` came back from a call of `f`.
use vstd::prelude::*;

use crate::content::{
    content_hash, lemma_hash_of_one, lemma_hash_of_several, lemma_holds_keys, lemma_node_hash,
    nothing, several, tree_holds, Content,
};
use crate::count_laws::lemma_leaf_count;
use crate::hash::{
    leaf_hash, lemma_binary_digest, lemma_leaf_digest, lemma_names, placeholder_hash, sha3_256,
    text_bytes, HashValue,
};
use crate::lookup::{for_each_bit, lemma_siblings_len, lookup_at, right_siblings, Answer};
use crate::merkle_proof::{SparseMerkleProof, SparseMerkleRangeProof};
use crate::node_type::{Node, NodeKeyView, Version};
use crate::read_laws::{
    agree_bits, along, are_beside, beside, is_beside, lemma_along, lemma_lookup_levels, lemma_read,
    lemma_read_proof, path_root,
};
use crate::reader::{Key, MissingRootError, StorageError, TreeError, TreeReader};
use crate::tree::{range_proof_of, JellyfishMerkleTree};

verus! {

/// Whether reading from a tree that is all there may fail with `error`: only where the store itself
/// fails, and a failure to read the root is reported as that the root is missing.
pub open spec fn store_failed<K, R: TreeReader<K>>(
    reader: &R,
    version: Version,
    error: TreeError,
) -> bool {
    match error {
        TreeError::MissingRoot(missing) => missing.version == version && exists|e: StorageError|
            reader.may_fail_with(NodeKeyView::root(version), e),
        TreeError::Storage(e) => exists|k: NodeKeyView|
            k != NodeKeyView::root(version) && reader.may_fail_with(k, e),
        _ => false,
    }
}

/// Reading a key from a tree that holds `content` gives the hash of the key's value and where the value is
/// to be found, key and version of the write, exactly as the tree holds them; or that the key is not
/// there, exactly if it is not. It fails only if the store fails.
pub proof fn lemma_get_with_proof_value<'a, R: TreeReader<K> + Sync, K: Key>(
    tree: &JellyfishMerkleTree<'a, R, K>,
    key: HashValue,
    version: Version,
    content: Content<K>,
    answer: Answer<K>,
)
    requires
        call_ensures(JellyfishMerkleTree::<'a, R, K>::get_with_proof, (tree, key, version), answer),
        tree_holds(tree.reader.nodes(), NodeKeyView::root(version), content),
    ensures
        match answer {
            Ok((Some((value_hash, (state_key, written_at))), _)) => {
                &&& content.contains_key(key)
                &&& value_hash == content[key].value_hash
                &&& state_key == content[key].value_index.0
                &&& written_at == content[key].value_index.1
            },
            Ok((None, _)) => !content.contains_key(key),
            Err(error) => store_failed(tree.reader, version, error),
        },
{
    lemma_read(tree.reader.nodes(), version, content, key);
}

/// Whether another key of `content` agrees with `key` in its first `depth` bits.
pub open spec fn not_alone<K>(content: Content<K>, key: HashValue, depth: nat) -> bool {
    exists|other: HashValue|
        other != key && #[trigger] content.contains_key(other) && agree_bits(other, key, depth)
}

/// Whether `part` is what `content` has beside the way to `key` at bit `depth`: the keys that agree with
/// `key` in all bits before, and not in that one.
pub open spec fn is_part_beside<K>(
    content: Content<K>,
    key: HashValue,
    depth: nat,
    part: Content<K>,
) -> bool {
    &&& forall|k: HashValue| #[trigger]
        part.contains_key(k) <==> content.contains_key(k) && agree_bits(k, key, depth) && k.bit_at(
            depth as int,
        ) != key.bit_at(depth as int)
    &&& forall|k: HashValue| #[trigger] part.contains_key(k) ==> part[k] == content[k]
}

/// Whether `hashes` are what comes of hashing the first of them with each of the siblings in turn, from
/// the bottom up, each on the side that the bits of `key` leave to it.
pub open spec fn folds(key: HashValue, siblings: Seq<HashValue>, hashes: Seq<HashValue>) -> bool {
    let tag = sha3_256(text_bytes("APTOS::SparseMerkleInternal"@))@;
    &&& hashes.len() == siblings.len() + 1
    &&& forall|i: int|
        #![trigger siblings[i]]
        0 <= i < siblings.len() ==> hashes[i + 1].hash == if key.bit_at(siblings.len() - 1 - i) {
            sha3_256(tag + siblings[i].hash@ + hashes[i].hash@)
        } else {
            sha3_256(tag + hashes[i].hash@ + siblings[i].hash@)
        }
}

/// The hashes on a way, from the bottom up.
proof fn lemma_folds(key: HashValue, end: HashValue, top_down: Seq<HashValue>) -> (hashes: Seq<
    HashValue,
>)
    ensures
        folds(key, top_down.reverse(), hashes),
        hashes[0] == end,
        hashes.last() == path_root(key, end, top_down, 0),
{
    let n = top_down.len();
    let siblings = top_down.reverse();
    let hashes = Seq::new(
        n + 1,
        |i: int| path_root(key, end, top_down.skip(n - i), (n - i) as nat),
    );
    assert(top_down.skip(n as int) =~= Seq::empty());
    assert(top_down.skip(0) =~= top_down);
    assert forall|i: int| #![trigger siblings[i]] 0 <= i < n implies hashes[i + 1].hash
        == if key.bit_at(n - 1 - i) {
        sha3_256(
            sha3_256(text_bytes("APTOS::SparseMerkleInternal"@))@ + siblings[i].hash@
                + hashes[i].hash@,
        )
    } else {
        sha3_256(
            sha3_256(text_bytes("APTOS::SparseMerkleInternal"@))@ + hashes[i].hash@
                + siblings[i].hash@,
        )
    } by {
        let d = (n - 1 - i) as nat;
        let rest = top_down.skip(d as int);
        assert(rest.drop_first() =~= top_down.skip(d as int + 1));
        assert(rest[0] == siblings[i]);
        lemma_binary_digest(siblings[i], hashes[i]);
        lemma_binary_digest(hashes[i], siblings[i]);
    }
    hashes
}

/// What is beside a way, level by level.
proof fn lemma_levels<K>(
    content: Content<K>,
    key: HashValue,
    siblings: Seq<HashValue>,
    depth: nat,
)
    requires
        are_beside(content, key, siblings, 0),
        depth < siblings.len(),
    ensures
        not_alone(content, key, depth),
        forall|part: Content<K>| #[trigger]
            is_part_beside(content, key, depth, part) ==> siblings[depth as int] == content_hash(
                part,
                depth + 1,
            ),
{
    assert(is_beside(content, key, siblings[depth as int], 0 + depth));
    lemma_along(content, key, depth);
    let here = along(content, key, depth);
    let (a, b) = choose|a: HashValue, b: HashValue| #[trigger]
        here.contains_key(a) && #[trigger] here.contains_key(b) && a != b;
    assert(content.contains_key(a) && content.contains_key(b));
    assert forall|part: Content<K>| #[trigger]
        is_part_beside(content, key, depth, part) implies siblings[depth as int] == content_hash(
        part,
        depth + 1,
    ) by {
        reveal(beside);
        assert(part =~= beside(content, key, depth));
    }
}

/// The proof that comes with a read, from nothing but what the tree holds. Let there be `n` siblings. They
/// are the hashes of what lies beside the way to the key at each of its first `n` bits, from the bottom
/// up, and up to there the key is not alone. The leaf that is shown is the only one that agrees with the
/// key in `n` bits; if none is shown there is no such leaf. Hashing the leaf, or the placeholder, with the
/// siblings gives what a call for the root hash gives.
pub proof fn lemma_get_with_proof_shown<'a, R: TreeReader<K> + Sync, K: Key>(
    tree: &JellyfishMerkleTree<'a, R, K>,
    key: HashValue,
    version: Version,
    content: Content<K>,
    value: Option<(HashValue, (K, Version))>,
    shown: SparseMerkleProof,
    root_hash: HashValue,
)
    requires
        call_ensures(
            JellyfishMerkleTree::<'a, R, K>::get_with_proof,
            (tree, key, version),
            Ok::<(Option<(HashValue, (K, Version))>, SparseMerkleProof), TreeError>((value, shown)),
        ),
        call_ensures(
            JellyfishMerkleTree::<'a, R, K>::get_root_hash,
            (tree, version),
            Ok::<HashValue, TreeError>(root_hash),
        ),
        tree_holds(tree.reader.nodes(), NodeKeyView::root(version), content),
    ensures
        ({
            let n = shown.siblings@.len();
            &&& n <= 256
            &&& forall|depth: nat|
                depth < n ==> #[trigger] not_alone(content, key, depth)
            &&& forall|depth: nat, part: Content<K>|
                depth < n && #[trigger] is_part_beside(content, key, depth, part)
                    ==> shown.siblings@[n - 1 - depth] == content_hash(part, depth + 1)
            &&& match shown.leaf {
                Some(leaf) => {
                    &&& content.contains_key(leaf.key)
                    &&& content[leaf.key].value_hash == leaf.value_hash
                    &&& agree_bits(leaf.key, key, n)
                    &&& forall|k: HashValue| #[trigger]
                        content.contains_key(k) && agree_bits(k, key, n) ==> k == leaf.key
                },
                None => forall|k: HashValue| #[trigger]
                    content.contains_key(k) ==> !agree_bits(k, key, n),
            }
            &&& exists|hashes: Seq<HashValue>|
                {
                    &&& #[trigger] folds(key, shown.siblings@, hashes)
                    &&& hashes[0].hash@ == match shown.leaf {
                        Some(leaf) => sha3_256(
                            sha3_256(text_bytes("APTOS::SparseMerkleLeafNode"@))@ + leaf.key.hash@
                                + leaf.value_hash.hash@,
                        )@,
                        None => text_bytes("SPARSE_MERKLE_PLACEHOLDER_HASH"@) + seq![0u8, 0u8],
                    }
                    &&& hashes.last() == root_hash
                }
        }),
        value is Some <==> shown.leaf is Some && shown.leaf.unwrap().key == key,
{
    let store = tree.reader.nodes();
    let root = NodeKeyView::root(version);
    let found = lookup_at(store, version, key);
    let n = shown.siblings@.len();
    lemma_read(store, version, content, key);
    lemma_read_proof(store, version, content, key, shown);
    lemma_lookup_levels(store, root, content, key);
    lemma_names();
    let siblings = found.siblings();
    assert forall|depth: nat| depth < n implies #[trigger] not_alone(content, key, depth) by {
        lemma_levels(content, key, siblings, depth);
    }
    assert forall|depth: nat, part: Content<K>|
        depth < n && #[trigger] is_part_beside(
            content,
            key,
            depth,
            part,
        ) implies shown.siblings@[n - 1 - depth] == content_hash(part, depth + 1) by {
        lemma_levels(content, key, siblings, depth);
    }
    let end = match shown.leaf {
        Some(leaf) => leaf_hash(leaf.key, leaf.value_hash),
        None => placeholder_hash(),
    };
    if let Some(leaf) = shown.leaf {
        lemma_leaf_digest(leaf.key, leaf.value_hash);
    }
    let hashes = lemma_folds(key, end, shown.siblings@.reverse());
    assert(shown.siblings@.reverse().reverse() =~= shown.siblings@);
    assert(folds(key, shown.siblings@, hashes));
}

/// A call for the hash of a key's value gives the hash that the tree holds for the key, or that there is
/// none, and fails only if the store fails.
pub proof fn lemma_get<'a, R: TreeReader<K> + Sync, K: Key>(
    tree: &JellyfishMerkleTree<'a, R, K>,
    key: HashValue,
    version: Version,
    content: Content<K>,
    r: Result<Option<HashValue>, TreeError>,
)
    requires
        call_ensures(JellyfishMerkleTree::<'a, R, K>::get, (tree, key, version), r),
        tree_holds(tree.reader.nodes(), NodeKeyView::root(version), content),
    ensures
        match r {
            Ok(Some(value_hash)) => content.contains_key(key) && value_hash
                == content[key].value_hash,
            Ok(None) => !content.contains_key(key),
            Err(error) => store_failed(tree.reader, version, error),
        },
{
    lemma_read(tree.reader.nodes(), version, content, key);
}

/// A call for the root hash of a tree that holds `content` gives the hash of `content`, and fails only if
/// the store fails to read the root.
pub proof fn lemma_get_root_hash<'a, R: TreeReader<K> + Sync, K: Key>(
    tree: &JellyfishMerkleTree<'a, R, K>,
    version: Version,
    content: Content<K>,
    r: Result<HashValue, TreeError>,
    option: Result<Option<HashValue>, TreeError>,
)
    requires
        call_ensures(JellyfishMerkleTree::<'a, R, K>::get_root_hash, (tree, version), r),
        call_ensures(JellyfishMerkleTree::<'a, R, K>::get_root_hash_option, (tree, version), option),
        tree_holds(tree.reader.nodes(), NodeKeyView::root(version), content),
    ensures
        match r {
            Ok(hash) => hash == content_hash(content, 0),
            Err(error) => error matches TreeError::Storage(e) && tree.reader.may_fail_with(
                NodeKeyView::root(version),
                e,
            ),
        },
        match option {
            Ok(Some(hash)) => hash == content_hash(content, 0),
            Ok(None) => false,
            Err(error) => error matches TreeError::Storage(e) && tree.reader.may_fail_with(
                NodeKeyView::root(version),
                e,
            ),
        },
{
    lemma_node_hash(tree.reader.nodes(), NodeKeyView::root(version), content);
}

/// The root hash of a tree with a single key is the digest of that key and of its value hash behind the
/// digest of the name of the leaves' domain.
pub proof fn lemma_root_hash_of_one<'a, R: TreeReader<K> + Sync, K: Key>(
    tree: &JellyfishMerkleTree<'a, R, K>,
    version: Version,
    content: Content<K>,
    key: HashValue,
    hash: HashValue,
)
    requires
        call_ensures(
            JellyfishMerkleTree::<'a, R, K>::get_root_hash,
            (tree, version),
            Ok::<HashValue, TreeError>(hash),
        ),
        tree_holds(tree.reader.nodes(), NodeKeyView::root(version), content),
        forall|k: HashValue| #[trigger] content.contains_key(k) <==> k == key,
    ensures
        hash.hash == sha3_256(
            sha3_256(text_bytes("APTOS::SparseMerkleLeafNode"@))@ + key.hash@
                + content[key].value_hash.hash@,
        ),
{
    let root = NodeKeyView::root(version);
    lemma_node_hash(tree.reader.nodes(), root, content);
    lemma_holds_keys(tree.reader.nodes(), root, content);
    assert(content.contains_key(key));
    lemma_hash_of_one(content, key, 0);
}

/// The root hash of a tree with several keys is the digest of the hash of those that start with a zero and
/// of the hash of those that start with a one, in this order, behind the digest of the name of the
/// internal nodes' domain. An empty half counts with the placeholder.
pub proof fn lemma_root_hash_of_several<'a, R: TreeReader<K> + Sync, K: Key>(
    tree: &JellyfishMerkleTree<'a, R, K>,
    version: Version,
    content: Content<K>,
    a: HashValue,
    b: HashValue,
    left: Content<K>,
    right: Content<K>,
    hash: HashValue,
)
    requires
        call_ensures(
            JellyfishMerkleTree::<'a, R, K>::get_root_hash,
            (tree, version),
            Ok::<HashValue, TreeError>(hash),
        ),
        tree_holds(tree.reader.nodes(), NodeKeyView::root(version), content),
        content.contains_key(a),
        content.contains_key(b),
        a != b,
        forall|k: HashValue| #[trigger]
            left.contains_key(k) <==> content.contains_key(k) && !k.bit_at(0),
        forall|k: HashValue| #[trigger]
            right.contains_key(k) <==> content.contains_key(k) && k.bit_at(0),
        forall|k: HashValue| #[trigger] left.contains_key(k) ==> left[k] == content[k],
        forall|k: HashValue| #[trigger] right.contains_key(k) ==> right[k] == content[k],
    ensures
        hash.hash == sha3_256(
            sha3_256(text_bytes("APTOS::SparseMerkleInternal"@))@ + content_hash(left, 1).hash@
                + content_hash(right, 1).hash@,
        ),
{
    lemma_node_hash(tree.reader.nodes(), NodeKeyView::root(version), content);
    lemma_hash_of_several(content, 0, a, b, left, right);
}

/// A call for the number of leaves of a tree that holds `content` gives the number of its keys, and fails
/// only if the store fails to read the root.
pub proof fn lemma_get_leaf_count<'a, R: TreeReader<K> + Sync, K: Key>(
    tree: &JellyfishMerkleTree<'a, R, K>,
    version: Version,
    content: Content<K>,
    r: Result<usize, TreeError>,
)
    requires
        call_ensures(JellyfishMerkleTree::<'a, R, K>::get_leaf_count, (tree, version), r),
        tree_holds(tree.reader.nodes(), NodeKeyView::root(version), content),
    ensures
        content.dom().finite(),
        match r {
            Ok(count) => content.dom().len() <= usize::MAX ==> count == content.dom().len(),
            Err(error) => error matches TreeError::Storage(e) && tree.reader.may_fail_with(
                NodeKeyView::root(version),
                e,
            ),
        },
{
    lemma_leaf_count(tree.reader.nodes(), NodeKeyView::root(version), content);
}

/// The positions of the zeros among the first `n` bits of a key, from the first on.
spec fn zeros(key: HashValue, n: nat) -> Seq<nat>
    decreases n,
{
    if n == 0 {
        Seq::empty()
    } else if key.bit_at(n - 1) {
        zeros(key, (n - 1) as nat)
    } else {
        zeros(key, (n - 1) as nat).push((n - 1) as nat)
    }
}

/// What lies on the right lies beside the zeros.
proof fn lemma_zeros(key: HashValue, siblings: Seq<HashValue>)
    ensures
        ({
            let at = zeros(key, siblings.len());
            let right = right_siblings(key, siblings);
            &&& right.len() == at.len()
            &&& forall|i: int| 0 <= i < at.len() ==> (#[trigger] at[i]) < siblings.len() && right[i]
                == siblings[at[i] as int]
            &&& forall|i: int, j: int| 0 <= i < j < at.len() ==> #[trigger] at[i] < #[trigger] at[j]
            &&& forall|d: nat| #[trigger]
                at.contains(d) <==> d < siblings.len() && !key.bit_at(d as int)
        }),
    decreases siblings.len(),
{
    if siblings.len() > 0 {
        let rest = siblings.drop_last();
        lemma_zeros(key, rest);
        let before = zeros(key, rest.len());
        let at = zeros(key, siblings.len());
        assert forall|d: nat| #[trigger]
            at.contains(d) <==> d < siblings.len() && !key.bit_at(d as int) by {
            if before.contains(d) {
                let i = choose|i: int| 0 <= i < before.len() && before[i] == d;
                assert(at[i] == d);
            }
            if at.contains(d) && d != rest.len() {
                let i = choose|i: int| 0 <= i < at.len() && at[i] == d;
                assert(before[i] == d);
                assert(before.contains(d));
            }
            if d == rest.len() && !key.bit_at(d as int) {
                assert(at[at.len() - 1] == d);
            }
            if d == rest.len() && key.bit_at(d as int) {
                assert(at == before);
                assert(!before.contains(d));
            }
        }
    }
}

/// Whether `at` are the positions of the zeros among the first `n` bits of `key`, from the last on.
pub open spec fn are_zeros(key: HashValue, n: nat, at: Seq<nat>) -> bool {
    &&& forall|i: int, j: int| 0 <= i < j < at.len() ==> #[trigger] at[i] > #[trigger] at[j]
    &&& forall|depth: nat| #[trigger] at.contains(depth) <==> depth < n && !key.bit_at(depth as int)
}

/// Whether `at` are the positions of the zeros among the first `n` bits of `key`, from the last on, where
/// `n` is the number of bits that tell `key` apart from the other keys of `content`.
pub open spec fn is_right_of<K>(
    content: Content<K>,
    key: HashValue,
    n: nat,
    at: Seq<nat>,
) -> bool {
    &&& n <= 256
    &&& forall|depth: nat|
        depth < n ==> #[trigger] not_alone(content, key, depth)
    &&& forall|other: HashValue| #[trigger]
        content.contains_key(other) && agree_bits(other, key, n) ==> other == key
    &&& are_zeros(key, n, at)
}

/// A call for a range proof, from nothing but what the tree holds. There is one exactly if the key is
/// there. Its siblings are the hashes of what lies on the right of the way to the key, from the bottom up:
/// one for each zero among the bits that tell the key apart from the others.
pub proof fn lemma_get_range_proof<'a, R: TreeReader<K> + Sync, K: Key>(
    tree: &JellyfishMerkleTree<'a, R, K>,
    key: HashValue,
    version: Version,
    content: Content<K>,
    r: Result<SparseMerkleRangeProof, TreeError>,
)
    requires
        call_ensures(JellyfishMerkleTree::<'a, R, K>::get_range_proof, (tree, key, version), r),
        tree_holds(tree.reader.nodes(), NodeKeyView::root(version), content),
    ensures
        match r {
            Ok(shown) => {
                &&& content.contains_key(key)
                &&& exists|n: nat, at: Seq<nat>|
                    {
                        &&& #[trigger] is_right_of(content, key, n, at)
                        &&& at.len() == shown.right_siblings@.len()
                        &&& forall|i: int, part: Content<K>|
                            0 <= i < at.len() && #[trigger] is_part_beside(
                                content,
                                key,
                                at[i],
                                part,
                            ) ==> shown.right_siblings@[i] == content_hash(part, at[i] + 1)
                    }
            },
            Err(TreeError::RightmostKeyMissing) => !content.contains_key(key),
            Err(error) => store_failed(tree.reader, version, error),
        },
{
    let store = tree.reader.nodes();
    let root = NodeKeyView::root(version);
    let found = lookup_at(store, version, key);
    let siblings = found.siblings();
    let n = siblings.len();
    lemma_read(store, version, content, key);
    lemma_lookup_levels(store, root, content, key);
    lemma_siblings_len(store, root, key, 0);
    if let Ok(shown) = r {
        let up = zeros(key, n);
        let at = up.reverse();
        let right = shown.right_siblings@;
        lemma_zeros(key, siblings);
        lemma_along(content, key, n);
        assert(agree_bits(key, key, n));
        let after = along(content, key, n);
        assert(is_right_of(content, key, n, at)) by {
            assert forall|depth: nat| depth < n implies #[trigger] not_alone(content, key, depth) by {
                lemma_levels(content, key, siblings, depth);
            }
            assert forall|other: HashValue| #[trigger]
                content.contains_key(other) && agree_bits(other, key, n) implies other == key by {
                assert(after.contains_key(other));
                assert(after.contains_key(key));
            }
            assert forall|depth: nat| #[trigger] at.contains(depth) <==> depth < n && !key.bit_at(
                depth as int,
            ) by {
                if at.contains(depth) {
                    let i = choose|i: int| 0 <= i < at.len() && at[i] == depth;
                    assert(up[up.len() - 1 - i] == depth);
                    assert(up.contains(depth));
                }
                if up.contains(depth) {
                    let i = choose|i: int| 0 <= i < up.len() && up[i] == depth;
                    assert(at[up.len() - 1 - i] == depth);
                }
            }
        }
        assert forall|i: int, part: Content<K>|
            0 <= i < at.len() && #[trigger] is_part_beside(content, key, at[i], part) implies
            right[i] == content_hash(part, at[i] + 1) by {
            assert(at[i] == up[up.len() - 1 - i]);
            lemma_levels(content, key, siblings, at[i]);
        }
    }
}

/// The range proof that follows from an answer: the error of the answer, that the key is missing if nothing
/// was found, and else those siblings of the proof that lie on the right of the way, in the order of the
/// proof: one for each bit of the key that is zero, as far as there are bits.
pub proof fn lemma_range_proof_of<K>(
    key: HashValue,
    answer: Answer<K>,
    r: Result<SparseMerkleRangeProof, TreeError>,
)
    requires
        call_ensures(range_proof_of::<K>, (key, answer), r),
    ensures
        match answer {
            Err(error) => r matches Err(e) && e == error,
            Ok((None, _)) => r matches Err(e) && e == TreeError::RightmostKeyMissing,
            Ok((Some(_), shown)) => {
                let n = shown.siblings@.len();
                r matches Ok(range) && exists|len: nat, at: Seq<nat>|
                    {
                        &&& #[trigger] are_zeros(key, len, at)
                        &&& len <= n && len <= 256 && (len == n || len == 256)
                        &&& at.len() == range.right_siblings@.len()
                        &&& forall|i: int|
                            0 <= i < at.len() ==> range.right_siblings@[i] == shown.siblings@[n - 1
                                - #[trigger] at[i]]
                    }
            },
        },
{
    if let Ok((Some(_), shown)) = answer {
        let n = shown.siblings@.len();
        let all = shown.siblings@.reverse();
        let hashes = for_each_bit(all);
        let up = zeros(key, hashes.len());
        let at = up.reverse();
        let right = r->Ok_0.right_siblings@;
        lemma_zeros(key, hashes);
        let len = if n < 256 {
            n
        } else {
            256
        };
        assert(hashes.len() == len);
        assert forall|depth: nat| #[trigger] at.contains(depth) <==> depth < len && !key.bit_at(
            depth as int,
        ) by {
            if at.contains(depth) {
                let i = choose|i: int| 0 <= i < at.len() && at[i] == depth;
                assert(up[up.len() - 1 - i] == depth);
                assert(up.contains(depth));
            }
            if up.contains(depth) {
                let i = choose|i: int| 0 <= i < up.len() && up[i] == depth;
                assert(at[up.len() - 1 - i] == depth);
            }
        }
        assert forall|i: int| 0 <= i < at.len() implies right[i] == shown.siblings@[n - 1
            - #[trigger] at[i]] by {
            assert(at[i] == up[up.len() - 1 - i]);
        }
        assert(are_zeros(key, len, at));
    }
}

/// Whatever else the store holds: a call for the root hash, or for the number of leaves, tells that of the
/// node that the store has for the root. That there is no root is told exactly if there is none, and the only
/// other error is one of the store's for the root.
pub proof fn lemma_root_calls<'a, R: TreeReader<K> + Sync, K: Key>(
    tree: &JellyfishMerkleTree<'a, R, K>,
    version: Version,
    root: Node<K>,
    root_hash: HashValue,
    root_count: usize,
    hash: Result<HashValue, TreeError>,
    option: Result<Option<HashValue>, TreeError>,
    count: Result<usize, TreeError>,
)
    requires
        call_ensures(JellyfishMerkleTree::<'a, R, K>::get_root_hash, (tree, version), hash),
        call_ensures(JellyfishMerkleTree::<'a, R, K>::get_root_hash_option, (tree, version), option),
        call_ensures(JellyfishMerkleTree::<'a, R, K>::get_leaf_count, (tree, version), count),
        tree.reader.nodes().contains_key(NodeKeyView { version, path: Seq::empty() }) ==> root@
            == tree.reader.nodes()[NodeKeyView { version, path: Seq::empty() }],
        call_ensures(Node::<K>::hash, (&root,), root_hash),
        call_ensures(Node::<K>::leaf_count, (&root,), root_count),
    ensures
        ({
            let key = NodeKeyView { version, path: Seq::empty() };
            let there = tree.reader.nodes().contains_key(key);
            &&& match hash {
                Ok(h) => there && h == root_hash,
                Err(TreeError::RootNotFound(missing)) => !there && missing == version,
                Err(TreeError::Storage(e)) => tree.reader.may_fail_with(key, e),
                Err(_) => false,
            }
            &&& match option {
                Ok(Some(h)) => there && h == root_hash,
                Ok(None) => !there,
                Err(TreeError::Storage(e)) => tree.reader.may_fail_with(key, e),
                Err(_) => false,
            }
            &&& match count {
                Ok(n) => there && n == root_count,
                Err(TreeError::RootNotFound(missing)) => !there && missing == version,
                Err(TreeError::Storage(e)) => tree.reader.may_fail_with(key, e),
                Err(_) => false,
            }
        }),
{
}

/// A version without a root cannot be read. A call for a key, or for a range proof, reports that the root of
/// that version is missing; a call for the root hash or for the number of leaves reports that there is no
/// root, unless the store fails; and a call that may find no root finds none, unless the store fails.
pub proof fn lemma_calls_without_root<'a, R: TreeReader<K> + Sync, K: Key>(
    tree: &JellyfishMerkleTree<'a, R, K>,
    key: HashValue,
    version: Version,
    answer: Answer<K>,
    range: Result<SparseMerkleRangeProof, TreeError>,
    value: Result<Option<HashValue>, TreeError>,
    hash: Result<HashValue, TreeError>,
    option: Result<Option<HashValue>, TreeError>,
    count: Result<usize, TreeError>,
)
    requires
        !tree.reader.nodes().contains_key(NodeKeyView { version, path: Seq::empty() }),
        call_ensures(JellyfishMerkleTree::<'a, R, K>::get_with_proof, (tree, key, version), answer),
        call_ensures(JellyfishMerkleTree::<'a, R, K>::get_range_proof, (tree, key, version), range),
        call_ensures(JellyfishMerkleTree::<'a, R, K>::get, (tree, key, version), value),
        call_ensures(JellyfishMerkleTree::<'a, R, K>::get_root_hash, (tree, version), hash),
        call_ensures(JellyfishMerkleTree::<'a, R, K>::get_root_hash_option, (tree, version), option),
        call_ensures(JellyfishMerkleTree::<'a, R, K>::get_leaf_count, (tree, version), count),
    ensures
        ({
            let missing = TreeError::MissingRoot(MissingRootError { version });
            let not_found = TreeError::RootNotFound(version);
            &&& answer matches Err(error) && error == missing
            &&& range matches Err(error) && error == missing
            &&& value matches Err(error) && error == missing
            &&& hash matches Err(error) && (error == not_found || error is Storage)
            &&& option == Ok::<Option<HashValue>, TreeError>(None) || (option matches Err(error)
                && error is Storage)
            &&& count matches Err(error) && (error == not_found || error is Storage)
        }),
{
}

} // verus!
