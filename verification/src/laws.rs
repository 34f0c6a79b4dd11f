//! The laws of the tree: what reads, writes and pruning mean for each other.
use vstd::prelude::*;

use crate::content::{
    content_hash, lemma_child_holds, lemma_holds_keys, lemma_node_hash, nothing, part, several,
    tree_holds, Content,
};
use crate::hash::{lemma_nibble_range, lemma_nibbles_identify, HashValue};
use crate::lookup::{is_answer, is_range_proof_of, lookup_at, Answer};
use crate::merkle_proof::{SparseMerkleProof, SparseMerkleRangeProof};
use crate::node_type::{
    is_leaf_child, logical_children, LeafNode, Node, NodeKeyView, NodeView, Version,
};
use crate::ranges::{all_under, bucket, has_prefix};
use crate::read_laws::lemma_read;
use crate::reader::{MissingRootError, TreeError, TreeReader};
use crate::sorted::{
    lemma_precedes_irreflexive, lemma_sorted_set, lemma_with_entry, precedes, sorted, sorted_set,
    Digits,
};
use crate::tree::{is_hash_of, is_hash_option_of};
use crate::update::{
    built_entries, child_complete, child_insertable, child_key, complete, has_key, insertable,
    inserted, inserted_child, knows_built, leaf_bucket, lemma_bucket_sorted, separable, updatable,
    update_changes, updated_root, KeyValue, Store, Update,
};
use crate::write_laws::{
    commits, entry_of, has_entries, index_of_key, lemma_built_changes_holds, lemma_built_holds,
    lemma_entry_of, lemma_insert_holds, lemma_updated, truthful, under, updated,
};

verus! {

/// Whether `content` is what the tree at `base` holds; where there is no such tree, that is nothing.
pub open spec fn base_holds<K>(
    store: Store<K>,
    base: Option<Version>,
    content: Content<K>,
) -> bool {
    match base {
        Some(version) => tree_holds(store, NodeKeyView::root(version), content),
        None => content == Map::<HashValue, LeafNode<K>>::empty(),
    }
}

/// Once the changes of an update are committed, the tree at the new version holds what the tree at
/// the base version holds, with the new values put into it. Its root is the root that the update came
/// to, and the hash of that root is the hash of what the tree holds.
///
/// The outdated nodes need not be there any more for this to hold.
pub proof fn lemma_update<'a, K>(
    before: Store<K>,
    after: Store<K>,
    u: Update,
    base: Option<Version>,
    content: Content<K>,
    kvs: Seq<KeyValue<'a, K>>,
)
    requires
        base_holds(before, base, content),
        sorted(kvs),
        updatable(before, u, base, kvs),
        truthful(u, updated(u, content, kvs)),
        commits(before, after, update_changes(before, u, base, kvs)),
    ensures
        tree_holds(after, NodeKeyView::root(u.version), updated(u, content, kvs)),
        after[NodeKeyView::root(u.version)] == updated_root(before, u, base, kvs),
        updated_root(before, u, base, kvs).hash() == content_hash(updated(u, content, kvs), 0),
{
    let whole = updated(u, content, kvs);
    let top = Seq::<u8>::empty();
    assert(under(whole, top) =~= whole);
    assert(u.key(top) == NodeKeyView::root(u.version));
    assert(all_under(kvs, top)) by {
        reveal(all_under);
    }
    let c = update_changes(before, u, base, kvs);
    match base {
        Some(version) => {
            lemma_insert_holds(
                before,
                after,
                u,
                NodeKeyView::root(version),
                content,
                kvs,
                whole,
            );
        },
        None => {
            let entries = built_entries(u, None, kvs, top);
            lemma_built_changes_holds(u, None, kvs, top);
            assert(has_entries(after, entries)) by {
                reveal(has_entries);
                assert forall|i: int| 0 <= i < entries.len() implies after.contains_key(
                    (#[trigger] entries[i]).0,
                ) && after[entries[i].0] == entries[i].1 by {
                    assert(entries.contains(entries[i]));
                    assert(c.holds(entries[i]));
                }
            }
            assert(separable(None::<LeafNode<K>>, kvs, 0)) by {
                reveal(separable);
            }
            lemma_built_holds(after, u, None, kvs, top, whole);
        },
    }
    lemma_node_hash(after, NodeKeyView::root(u.version), whole);
}

/// The last of the pairs with `key` as its key.
pub open spec fn last_entry<V>(pairs: Seq<(HashValue, V)>, key: HashValue) -> (HashValue, V)
    decreases pairs.len(),
{
    if pairs.len() == 0 || pairs.last().0 == key {
        pairs.last()
    } else {
        last_entry(pairs.drop_last(), key)
    }
}

/// Keys with the same digits are the same key.
pub proof fn lemma_same_digits(a: HashValue, b: HashValue)
    requires
        a.digits() == b.digits(),
    ensures
        a == b,
{
    assert forall|i: int| 0 <= i < 64 implies #[trigger] a.nibble_at(i) == b.nibble_at(i) by {
        assert(a.nibbles()[i] == b.nibbles()[i]);
    }
    lemma_nibbles_identify(a, b);
}

/// Putting pairs in order drops no key and adds none, and the last pair of each key is the one that
/// counts.
pub proof fn lemma_last_counts<V>(pairs: Seq<(HashValue, V)>, key: HashValue)
    ensures
        sorted(sorted_set(pairs)),
        has_key(sorted_set(pairs), key) <==> has_key(pairs, key),
        has_key(pairs, key) ==> entry_of(sorted_set(pairs), key) == last_entry(pairs, key)
            && last_entry(pairs, key).0 == key,
    decreases pairs.len(),
{
    lemma_sorted_set(pairs);
    let all = sorted_set(pairs);
    if pairs.len() > 0 {
        let rest = pairs.drop_last();
        let last = pairs.last();
        let before = sorted_set(rest);
        lemma_sorted_set(rest);
        lemma_last_counts(rest, key);
        lemma_with_entry(before, last.0, last.1);
        assert(pairs[pairs.len() - 1] == last);
        assert(has_key(rest, key) ==> has_key(pairs, key)) by {
            if has_key(rest, key) {
                let i = index_of_key(rest, key);
                assert(rest[i].0 == key);
                assert(pairs[i].0 == key);
            }
        }
        assert(has_key(pairs, key) ==> last.0 == key || has_key(rest, key)) by {
            if has_key(pairs, key) {
                let i = index_of_key(pairs, key);
                assert(pairs[i].0 == key);
                if i < rest.len() {
                    assert(rest[i].0 == key);
                }
            }
        }
        if last.0 == key {
            assert(all.contains(last));
            let i = choose|i: int| 0 <= i < all.len() && all[i] == last;
            assert(all[i].0 == key);
            lemma_entry_of(all, i);
        } else {
            if has_key(rest, key) {
                let i = index_of_key(before, key);
                assert(before[i].0 == key);
                assert(before[i].0.digits() != last.0.digits()) by {
                    if before[i].0.digits() == last.0.digits() {
                        lemma_same_digits(before[i].0, last.0);
                    }
                }
                assert(all.contains(before[i]));
                let j = choose|j: int| 0 <= j < all.len() && all[j] == before[i];
                assert(all[j].0 == key);
                lemma_entry_of(all, j);
                lemma_entry_of(before, i);
            }
            if has_key(all, key) {
                let i = index_of_key(all, key);
                assert(all[i].0 == key);
                assert(before.contains(all[i]));
                let j = choose|j: int| 0 <= j < before.len() && before[j] == all[i];
                assert(before[j].0 == key);
            }
        }
    }
}

/// Once the batch for a value set is committed, the new version is ready to be read: a key of the value
/// set has the value of the last pair that names it, and every other key has what it had at the base
/// version. No read fails.
pub proof fn lemma_read_after_write<'a, K>(
    before: Store<K>,
    after: Store<K>,
    u: Update,
    base: Option<Version>,
    content: Content<K>,
    value_set: Seq<KeyValue<'a, K>>,
    key: HashValue,
)
    requires
        base_holds(before, base, content),
        updatable(before, u, base, sorted_set(value_set)),
        truthful(u, updated(u, content, sorted_set(value_set))),
        commits(before, after, update_changes(before, u, base, sorted_set(value_set))),
    ensures
        lookup_at(after, u.version, key).ends(),
        lookup_at(after, u.version, key).value(key) == if has_key(value_set, key) {
            let kv = last_entry(value_set, key);
            Some((kv.1.0, (kv.1.1, u.version)))
        } else {
            match base {
                Some(version) => lookup_at(before, version, key).value(key),
                None => None,
            }
        },
{
    let kvs = sorted_set(value_set);
    lemma_sorted_set(value_set);
    lemma_update(before, after, u, base, content, kvs);
    lemma_read(after, u.version, updated(u, content, kvs), key);
    lemma_updated(u, content, kvs);
    lemma_last_counts(value_set, key);
    if let Some(version) = base {
        lemma_read(before, version, content, key);
    }
}

/// Without hashes that are known beforehand, there is nothing that could be untrue of them.
pub proof fn lemma_no_hashes<K>(u: Update, content: Content<K>)
    requires
        u.hashes is None,
    ensures
        truthful(u, content),
{
    reveal(truthful);
}

/// Without hashes that are known beforehand, the hash of each new node can be had.
pub proof fn lemma_knows<'a, K>(
    u: Update,
    leaf: Option<LeafNode<K>>,
    kvs: Seq<KeyValue<'a, K>>,
    path: Seq<u8>,
)
    requires
        u.hashes is None,
    ensures
        knows_built(u, leaf, kvs, path),
    decreases 64 - path.len(),
{
    reveal(knows_built);
    if path.len() < 64 {
        assert forall|n: u8| n < 16 && #[trigger] bucket(kvs, path.len(), n).len() > 0 implies u.knows(
            path.push(n),
        ) && knows_built(
            u,
            leaf_bucket(leaf, path.len(), n),
            bucket(kvs, path.len(), n),
            path.push(n),
        ) by {
            lemma_knows(
                u,
                leaf_bucket(leaf, path.len(), n),
                bucket(kvs, path.len(), n),
                path.push(n),
            );
        }
    }
}

/// A leaf and keys below one path can be told apart behind that path.
pub proof fn lemma_separable<'a, K>(leaf: LeafNode<K>, kvs: Seq<KeyValue<'a, K>>, path: Seq<u8>)
    requires
        has_prefix(leaf.account_key, path),
        all_under(kvs, path),
    ensures
        separable(Some(leaf), kvs, path.len()),
{
    reveal(separable);
    reveal(all_under);
    let key = leaf.account_key;
    assert forall|i: int| 0 <= i < kvs.len() && (#[trigger] kvs[i]).0 != key implies exists|j: int|
        path.len() <= j < 64 && #[trigger] kvs[i].0.nibble_at(j) != key.nibble_at(j) by {
        assert(has_prefix(kvs[i].0, path));
        if forall|j: int|
            path.len() <= j < 64 ==> #[trigger] kvs[i].0.nibble_at(j) == key.nibble_at(j) {
            assert forall|j: int| 0 <= j < 64 implies #[trigger] kvs[i].0.nibble_at(j)
                == key.nibble_at(j) by {
                if j < path.len() {
                    assert(kvs[i].0.nibble_at(j) == path[j]);
                    assert(key.nibble_at(j) == path[j]);
                }
            }
            lemma_nibbles_identify(kvs[i].0, key);
        }
    }
}

/// Keys can always be put below a node of a tree that holds something, and no node is missing. Only a
/// leaf asks for at least one key.
pub proof fn lemma_insertable<'a, K>(
    store: Store<K>,
    u: Update,
    key: NodeKeyView,
    content: Content<K>,
    kvs: Seq<KeyValue<'a, K>>,
)
    requires
        u.hashes is None,
        tree_holds(store, key, content),
        sorted(kvs),
        all_under(kvs, key.path),
        kvs.len() > 0 || store[key] is Internal,
    ensures
        insertable(store, u, key, kvs),
        complete(store, key, kvs),
    decreases 64 - key.path.len(),
{
    match store[key] {
        NodeView::Leaf(leaf) => {
            lemma_knows(u, Some(leaf), kvs, key.path);
            lemma_separable(leaf, kvs, key.path);
        },
        NodeView::Internal(slots) => {
            let d = key.path.len();
            assert forall|n: u8| n < 16 && #[trigger] bucket(kvs, d, n).len() > 0 implies
                child_insertable(store, u, key, slots, kvs, n) && child_complete(
                store,
                key,
                slots,
                kvs,
                n,
            ) by {
                lemma_child_holds(store, key, content, n);
                lemma_bucket_sorted(kvs, key.path, n);
                match slots[n as int] {
                    Some(child) => {
                        lemma_insertable(
                            store,
                            u,
                            child_key(key, child, n),
                            part(content, d, n),
                            bucket(kvs, d, n),
                        );
                    },
                    None => {
                        lemma_knows(u, None, bucket(kvs, d, n), key.path.push(n));
                    },
                }
            }
            lemma_inserted_logical(store, u, key, content, kvs);
        },
    }
}

/// An updated internal node has children that it can have.
proof fn lemma_inserted_logical<'a, K>(
    store: Store<K>,
    u: Update,
    key: NodeKeyView,
    content: Content<K>,
    kvs: Seq<KeyValue<'a, K>>,
)
    requires
        tree_holds(store, key, content),
        store[key] is Internal,
    ensures
        logical_children(inserted(store, u, key, kvs)->Internal_0),
{
    let d = key.path.len();
    let slots = store[key]->Internal_0;
    let new_slots = inserted(store, u, key, kvs)->Internal_0;
    assert forall|k: HashValue| #[trigger] content.contains_key(k) implies {
        let n = k.nibble_at(d as int);
        n < 16 && slots[n as int] is Some && new_slots[n as int] is Some
    } by {
        let n = k.nibble_at(d as int);
        lemma_nibble_range(k, d as int);
        lemma_child_holds(store, key, content, n);
        assert(part(content, d, n).contains_key(k));
        assert(new_slots[n as int] == inserted_child(store, u, key, slots, kvs, n));
    }
    let (a, b) = choose|a: HashValue, b: HashValue| #[trigger]
        content.contains_key(a) && #[trigger] content.contains_key(b) && a != b;
    assert(content.contains_key(a));
    assert(new_slots[a.nibble_at(d as int) as int] is Some);
    assert forall|i: int| 0 <= i < 16 && is_leaf_child(#[trigger] new_slots[i]) implies exists|j: int|
        0 <= j < 16 && j != i && #[trigger] new_slots[j] is Some by {
        let n = i as u8;
        assert(new_slots[i] == inserted_child(store, u, key, slots, kvs, n));
        if forall|j: int| 0 <= j < 16 && j != i ==> !(#[trigger] new_slots[j] is Some) {
            assert(part(content, d, n).contains_key(a)) by {
                assert(new_slots[a.nibble_at(d as int) as int] is Some);
            }
            assert(part(content, d, n).contains_key(b)) by {
                assert(new_slots[b.nibble_at(d as int) as int] is Some);
            }
            lemma_child_holds(store, key, content, n);
            assert(several(part(content, d, n)));
            let child = slots[i].unwrap();
            assert(store[child_key(key, child, n)] is Internal) by {
                lemma_holds_keys(store, child_key(key, child, n), part(content, d, n));
            }
            assert(false);
        }
    }
}

/// An update without hashes that are known beforehand can always be made of a tree that holds something,
/// and it asks for no node that is missing. What it cannot be made of is nothing at all: a value set
/// without a pair needs a base with more than one key.
pub proof fn lemma_updatable<'a, K>(
    store: Store<K>,
    u: Update,
    base: Option<Version>,
    content: Content<K>,
    kvs: Seq<KeyValue<'a, K>>,
)
    requires
        base_holds(store, base, content),
        u.hashes is None,
        sorted(kvs),
        kvs.len() > 0 || several(content),
    ensures
        updatable(store, u, base, kvs),
        base is Some ==> complete(store, NodeKeyView::root(base.unwrap()), kvs),
{
    let top = Seq::<u8>::empty();
    assert(all_under(kvs, top)) by {
        reveal(all_under);
    }
    match base {
        Some(version) => {
            lemma_holds_keys(store, NodeKeyView::root(version), content);
            lemma_insertable(store, u, NodeKeyView::root(version), content, kvs);
        },
        None => {
            lemma_knows(u, None, kvs, top);
        },
    }
}

/// A version without a root, such as one whose batch is not committed yet, cannot be read: every read
/// fails, and reports that the root of that version is missing. Whether the store can fail makes no
/// difference.
pub proof fn lemma_no_root<K, R: TreeReader<K>>(
    reader: &R,
    key: HashValue,
    version: Version,
    answer: Answer<K>,
)
    requires
        !reader.nodes().contains_key(NodeKeyView::root(version)),
        is_answer(reader, key, version, answer),
    ensures
        answer == Err::<(Option<(HashValue, (K, Version))>, SparseMerkleProof), TreeError>(
            TreeError::MissingRoot(MissingRootError { version }),
        ),
{
}

/// There is a range proof if and only if the key is read and is there; otherwise the error of the read
/// comes out unchanged, or that the key is not there.
pub proof fn lemma_range_read<K>(
    key: HashValue,
    answer: Answer<K>,
    r: Result<SparseMerkleRangeProof, TreeError>,
)
    requires
        is_range_proof_of(key, answer, r),
    ensures
        r is Ok <==> answer matches Ok((Some(_), _)),
        answer matches Err(error) ==> r == Err::<SparseMerkleRangeProof, TreeError>(error),
        answer matches Ok((None, _)) ==> r == Err::<SparseMerkleRangeProof, TreeError>(
            TreeError::RightmostKeyMissing,
        ),
{
}

/// For one and the same answer of the store, the two ways to ask for the root hash agree: on the hash, on
/// the error, and where one says that there is no root the other fails for it.
pub proof fn lemma_root_hashes<K>(
    version: Version,
    read: Result<Option<Node<K>>, TreeError>,
    option: Result<Option<HashValue>, TreeError>,
    hash: Result<HashValue, TreeError>,
)
    requires
        is_hash_option_of(read, option),
        is_hash_of(version, read, hash),
    ensures
        hash == match option {
            Ok(Some(h)) => Ok::<HashValue, TreeError>(h),
            Ok(None) => Err(TreeError::RootNotFound(version)),
            Err(error) => Err(error),
        },
{
}

/// Whether no two pairs have the same key.
pub open spec fn distinct_keys<Q: Digits, V>(pairs: Seq<(Q, V)>) -> bool {
    forall|i: int, j: int|
        0 <= i < j < pairs.len() ==> (#[trigger] pairs[i]).0.digits() != (
        #[trigger] pairs[j]).0.digits()
}

/// Where no two pairs have the same key, putting them in order drops none and adds none.
pub proof fn lemma_sorted_set_pairs<Q: Digits, V>(pairs: Seq<(Q, V)>)
    requires
        distinct_keys(pairs),
    ensures
        forall|e: (Q, V)| #[trigger] sorted_set(pairs).contains(e) <==> pairs.contains(e),
    decreases pairs.len(),
{
    let all = sorted_set(pairs);
    if pairs.len() > 0 {
        let rest = pairs.drop_last();
        let last = pairs.last();
        let before = sorted_set(rest);
        assert(distinct_keys(rest)) by {
            assert forall|i: int, j: int| 0 <= i < j < rest.len() implies (
            #[trigger] rest[i]).0.digits() != (#[trigger] rest[j]).0.digits() by {
                assert(pairs[i].0.digits() != pairs[j].0.digits());
            }
        }
        lemma_sorted_set_pairs(rest);
        lemma_sorted_set(rest);
        lemma_with_entry(before, last.0, last.1);
        assert forall|e: (Q, V)| #[trigger] all.contains(e) <==> pairs.contains(e) by {
            if all.contains(e) {
                let i = choose|i: int| 0 <= i < all.len() && all[i] == e;
                if e == (last.0, last.1) {
                    assert(pairs[pairs.len() - 1] == e);
                } else {
                    assert(before.contains(e));
                    assert(rest.contains(e));
                    let j = choose|j: int| 0 <= j < rest.len() && rest[j] == e;
                    assert(pairs[j] == e);
                }
            }
            if pairs.contains(e) {
                let i = choose|i: int| 0 <= i < pairs.len() && pairs[i] == e;
                if i < rest.len() {
                    assert(rest[i] == e);
                    assert(rest.contains(e));
                    assert(before.contains(e));
                    let j = choose|j: int| 0 <= j < before.len() && before[j] == e;
                    assert(pairs[i].0.digits() != pairs[pairs.len() - 1].0.digits());
                    assert(before[j].0.digits() != last.0.digits());
                    assert(all.contains(before[j]));
                } else {
                    assert(e == (last.0, last.1));
                }
            }
        }
    }
}

/// Two lists of pairs in order that have the same pairs are the same.
proof fn lemma_sorted_unique<Q: Digits, V>(a: Seq<(Q, V)>, b: Seq<(Q, V)>)
    requires
        sorted(a),
        sorted(b),
        forall|e: (Q, V)| #[trigger] a.contains(e) <==> b.contains(e),
    ensures
        a == b,
    decreases a.len(),
{
    if a.len() == 0 {
        if b.len() > 0 {
            assert(b.contains(b[0]));
            assert(a.contains(b[0]));
        }
    } else {
        let x = a.last();
        assert(a[a.len() - 1] == x);
        assert(a.contains(x));
        assert(b.contains(x));
        let y = b.last();
        assert(b[b.len() - 1] == y);
        assert(b.contains(y));
        assert(a.contains(y));
        let i = choose|i: int| 0 <= i < b.len() && b[i] == x;
        let j = choose|j: int| 0 <= j < a.len() && a[j] == y;
        if i < b.len() - 1 {
            assert(precedes(b[i].0.digits(), b[b.len() - 1].0.digits()));
            lemma_precedes_irreflexive(x.0.digits(), y.0.digits());
            if j < a.len() - 1 {
                assert(precedes(a[j].0.digits(), a[a.len() - 1].0.digits()));
            }
        }
        assert(x == y);
        let c = a.drop_last();
        let d = b.drop_last();
        lemma_without_last(a);
        lemma_without_last(b);
        lemma_sorted_unique(c, d);
        assert(a =~= c.push(x));
        assert(b =~= d.push(x));
    }
}

/// What is left of pairs in order without the last one.
proof fn lemma_without_last<Q: Digits, V>(a: Seq<(Q, V)>)
    requires
        sorted(a),
        a.len() > 0,
    ensures
        sorted(a.drop_last()),
        forall|e: (Q, V)| #[trigger]
            a.drop_last().contains(e) <==> a.contains(e) && e != a.last(),
{
    let c = a.drop_last();
    assert forall|i: int, j: int| 0 <= i < j < c.len() implies precedes(
        #[trigger] c[i].0.digits(),
        #[trigger] c[j].0.digits(),
    ) by {
        assert(precedes(a[i].0.digits(), a[j].0.digits()));
    }
    assert forall|e: (Q, V)| #[trigger] c.contains(e) <==> a.contains(e) && e != a.last() by {
        if c.contains(e) {
            let i = choose|i: int| 0 <= i < c.len() && c[i] == e;
            assert(a[i] == e);
            assert(precedes(a[i].0.digits(), a[a.len() - 1].0.digits()));
            lemma_precedes_irreflexive(a[i].0.digits(), a[a.len() - 1].0.digits());
        }
        if a.contains(e) && e != a.last() {
            let i = choose|i: int| 0 <= i < a.len() && a[i] == e;
            assert(c[i] == e);
        }
    }
}

/// The order of pairs with different keys does not matter: the same pairs in another order are put into
/// the same order, so that an update comes to the same.
pub proof fn lemma_order_of_pairs<Q: Digits, V>(a: Seq<(Q, V)>, b: Seq<(Q, V)>)
    requires
        distinct_keys(a),
        a.to_multiset() == b.to_multiset(),
    ensures
        sorted_set(a) == sorted_set(b),
{
    broadcast use vstd::seq_lib::group_to_multiset_ensures;

    assert(a.no_duplicates()) by {
        assert forall|i: int, j: int| 0 <= i < a.len() && 0 <= j < a.len() && i != j implies a[i]
            != a[j] by {
            if i < j {
                assert(a[i].0.digits() != a[j].0.digits());
            } else {
                assert(a[j].0.digits() != a[i].0.digits());
            }
        }
    }
    a.lemma_multiset_has_no_duplicates();
    b.lemma_multiset_has_no_duplicates_conv();
    assert forall|e: (Q, V)| #[trigger] a.contains(e) <==> b.contains(e) by {
        assert(a.contains(e) <==> a.to_multiset().count(e) > 0);
        assert(b.contains(e) <==> b.to_multiset().count(e) > 0);
    }
    assert(distinct_keys(b)) by {
        assert forall|i: int, j: int| 0 <= i < j < b.len() implies (#[trigger] b[i]).0.digits() != (
        #[trigger] b[j]).0.digits() by {
            assert(b.contains(b[i]) && b.contains(b[j]));
            assert(a.contains(b[i]) && a.contains(b[j]));
            let p = choose|p: int| 0 <= p < a.len() && a[p] == b[i];
            let q = choose|q: int| 0 <= q < a.len() && a[q] == b[j];
            assert(b[i] != b[j]);
            if p < q {
                assert(a[p].0.digits() != a[q].0.digits());
            } else {
                assert(a[q].0.digits() != a[p].0.digits());
            }
        }
    }
    lemma_sorted_set_pairs(a);
    lemma_sorted_set_pairs(b);
    lemma_sorted_set(a);
    lemma_sorted_set(b);
    assert forall|e: (Q, V)| #[trigger] sorted_set(a).contains(e) <==> sorted_set(b).contains(
        e,
    ) by {
        assert(a.contains(e) <==> b.contains(e));
    }
    lemma_sorted_unique(sorted_set(a), sorted_set(b));
}

} // verus!
