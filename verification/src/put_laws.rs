//! What holds of calls that write: what can be read once a batch is committed, and what a batch is.
use vstd::prelude::*;

use crate::batch::{NodeEntry, StaleView, TreeUpdateBatch};
use crate::call_laws::{lemma_get_with_proof_value, store_failed};
use crate::content::{content_hash, lemma_holds_keys, lemma_node_hash, several, tree_holds, Content};
use crate::hash::{lemma_nibble_range, HashValue};
use crate::laws::{last_entry, lemma_last_counts, lemma_no_hashes, lemma_updatable, lemma_update};
use crate::lists::{count, count_lists, distinct_lists, in_lists};
use crate::lookup::{lookup_at, Answer};
use crate::merkle_proof::SparseMerkleProof;
use crate::node_type::{LeafNode, Node, NodeKeyView, NodeView, Version};
use crate::prune_laws::{
    in_tree, lemma_nothing_stale, lemma_one_version, lemma_other_versions, lemma_stale_nodes,
};
use crate::reader::{Key, StorageError, TreeError, TreeReader};
use crate::sorted::{lemma_sorted_set, sorted_set};
use crate::tree::{update_of, JellyfishMerkleTree, NodeHashes};
use crate::update::{
    built, built_changes, built_child, built_entries, built_entries_below, child_changes,
    child_fails, child_key, fails, has_key, insert_changes, inserted, inserted_child, leaf_bucket,
    lemma_misses, moved_entry, one_key, update_changes, updated_root, KeyValue, Store, Update,
};
use crate::write_laws::{
    child_holds, commits, entry_of, lemma_built_changes_holds, lemma_insert_holds_internal,
    lemma_insert_holds_leaf, lemma_outdated_holds, lemma_updated, updated,
};
use crate::ranges::bucket;
use crate::count_laws::{is_leaf_entry, is_stale_leaf, lemma_batch_counts, lemma_leaf_balance};
use crate::batch_laws::{entry_key, lemma_batch_distinct, stale_key};
use crate::cache_laws::{lemma_built_own, lemma_entries_among, lemma_inserted_own};

verus! {

/// What comes of a call that writes.
pub type Written<K> = Result<(HashValue, TreeUpdateBatch<K>), TreeError>;

/// Whether one of the pairs is about `key`.
pub open spec fn names<'b, K>(pairs: Seq<KeyValue<'b, K>>, key: HashValue) -> bool {
    exists|i: int| 0 <= i < pairs.len() && (#[trigger] pairs[i]).0 == key
}

/// Whether no later pair is about the key of pair `i`.
pub open spec fn is_last<'b, K>(pairs: Seq<KeyValue<'b, K>>, i: int) -> bool {
    &&& 0 <= i < pairs.len()
    &&& forall|j: int| i < j < pairs.len() ==> (#[trigger] pairs[j]).0 != pairs[i].0
}

/// Whether `after` is `before` with the pairs put into it at `version`: a key of the pairs has the value
/// hash and the state key of the last pair about it, written at `version`, and every other key has what
/// it had before.
pub open spec fn is_put_in<'b, K>(
    before: Content<K>,
    pairs: Seq<KeyValue<'b, K>>,
    version: Version,
    after: Content<K>,
) -> bool {
    &&& forall|k: HashValue| #[trigger]
        after.contains_key(k) <==> before.contains_key(k) || names(pairs, k)
    &&& forall|k: HashValue| #[trigger]
        after.contains_key(k) && !names(pairs, k) ==> after[k] == before[k]
    &&& forall|i: int| #[trigger]
        is_last(pairs, i) ==> after[pairs[i].0] == (LeafNode {
            account_key: pairs[i].0,
            value_hash: pairs[i].1.0,
            value_index: (pairs[i].1.1, version),
        })
}

/// Whether a node is written under `key`.
pub open spec fn batch_writes<K>(batch: TreeUpdateBatch<K>, key: NodeKeyView) -> bool {
    exists|i: int, j: int|
        0 <= i < batch.node_batch@.len() && 0 <= j < batch.node_batch@[i]@.len() && (
        #[trigger] batch.node_batch@[i]@[j]).0@ == key
}

/// Whether the node under `key` is listed as stale.
pub open spec fn batch_outdates<K>(batch: TreeUpdateBatch<K>, key: NodeKeyView) -> bool {
    exists|i: int, j: int|
        0 <= i < batch.stale_node_index_batch@.len() && 0 <= j
            < batch.stale_node_index_batch@[i]@.len() && (
        #[trigger] batch.stale_node_index_batch@[i]@[j]).node_key@ == key
}

/// Whether `after` is `before` with a batch committed: each node of the batch is there, and so is each node
/// that was there and is neither written nor listed as stale. What is stale may be gone.
pub open spec fn is_committed<K>(
    before: Store<K>,
    after: Store<K>,
    batch: TreeUpdateBatch<K>,
) -> bool {
    &&& forall|i: int, j: int|
        0 <= i < batch.node_batch@.len() && 0 <= j < batch.node_batch@[i]@.len() ==> {
            let entry = #[trigger] batch.node_batch@[i]@[j];
            after.contains_key(entry.0@) && after[entry.0@] == entry.1@
        }
    &&& forall|k: NodeKeyView| #[trigger]
        before.contains_key(k) && !batch_writes(batch, k) && !batch_outdates(batch, k)
            ==> after.contains_key(k) && after[k] == before[k]
}

/// Whether `content` is what the tree at `base` holds, or nothing if there is no base.
pub open spec fn starts_from<K>(
    store: Store<K>,
    base: Option<Version>,
    content: Content<K>,
) -> bool {
    match base {
        Some(version) => tree_holds(store, NodeKeyView::root(version), content),
        None => content == Map::<HashValue, LeafNode<K>>::empty(),
    }
}

/// Whether something comes of the pairs: there is one, or there are several keys already.
pub open spec fn makes_tree<'b, K>(content: Content<K>, pairs: Seq<KeyValue<'b, K>>) -> bool {
    pairs.len() > 0 || exists|a: HashValue, b: HashValue| #[trigger]
        content.contains_key(a) && #[trigger] content.contains_key(b) && a != b
}

/// What a batch holds, place by place.
pub proof fn lemma_batch_view<K>(batch: TreeUpdateBatch<K>)
    ensures
        forall|e: NodeEntry<K>| #[trigger]
            batch@.holds(e) <==> exists|i: int, j: int|
                0 <= i < batch.node_batch@.len() && 0 <= j < batch.node_batch@[i]@.len() && e == (
                    (#[trigger] batch.node_batch@[i]@[j]).0@,
                    batch.node_batch@[i]@[j].1@,
                ),
        forall|s: StaleView| #[trigger]
            batch@.lists(s) <==> exists|i: int, j: int|
                0 <= i < batch.stale_node_index_batch@.len() && 0 <= j
                    < batch.stale_node_index_batch@[i]@.len() && s == (
                #[trigger] batch.stale_node_index_batch@[i]@[j])@,
        forall|k: NodeKeyView| #[trigger] batch@.writes(k) <==> batch_writes(batch, k),
        forall|k: NodeKeyView| #[trigger] batch@.outdates(k) <==> batch_outdates(batch, k),
{
    reveal(in_lists);
    let c = batch@;
    assert forall|e: NodeEntry<K>| #[trigger] c.holds(e) <==> exists|i: int, j: int|
        0 <= i < batch.node_batch@.len() && 0 <= j < batch.node_batch@[i]@.len() && e == (
            (#[trigger] batch.node_batch@[i]@[j]).0@,
            batch.node_batch@[i]@[j].1@,
        ) by {
        if c.holds(e) {
            let (i, j) = choose|i: int, j: int|
                0 <= i < c.nodes.len() && 0 <= j < c.nodes[i].len() && #[trigger] c.nodes[i][j] == e;
            let entry = batch.node_batch@[i]@[j];
            assert(e == (entry.0@, entry.1@));
        }
        if exists|i: int, j: int|
            0 <= i < batch.node_batch@.len() && 0 <= j < batch.node_batch@[i]@.len() && e == (
                (#[trigger] batch.node_batch@[i]@[j]).0@,
                batch.node_batch@[i]@[j].1@,
            ) {
            let (i, j) = choose|i: int, j: int|
                0 <= i < batch.node_batch@.len() && 0 <= j < batch.node_batch@[i]@.len() && e == (
                    (#[trigger] batch.node_batch@[i]@[j]).0@,
                    batch.node_batch@[i]@[j].1@,
                );
            assert(c.nodes[i][j] == e);
        }
    }
    assert forall|s: StaleView| #[trigger] c.lists(s) <==> exists|i: int, j: int|
        0 <= i < batch.stale_node_index_batch@.len() && 0 <= j
            < batch.stale_node_index_batch@[i]@.len() && s == (
        #[trigger] batch.stale_node_index_batch@[i]@[j])@ by {
        if c.lists(s) {
            let (i, j) = choose|i: int, j: int|
                0 <= i < c.stale.len() && 0 <= j < c.stale[i].len() && #[trigger] c.stale[i][j] == s;
            let index = batch.stale_node_index_batch@[i]@[j];
            assert(s == index@);
        }
        if exists|i: int, j: int|
            0 <= i < batch.stale_node_index_batch@.len() && 0 <= j
                < batch.stale_node_index_batch@[i]@.len() && s == (
            #[trigger] batch.stale_node_index_batch@[i]@[j])@ {
            let (i, j) = choose|i: int, j: int|
                0 <= i < batch.stale_node_index_batch@.len() && 0 <= j
                    < batch.stale_node_index_batch@[i]@.len() && s == (
                #[trigger] batch.stale_node_index_batch@[i]@[j])@;
            assert(c.stale[i][j] == s);
        }
    }
    assert forall|k: NodeKeyView| #[trigger] c.writes(k) <==> batch_writes(batch, k) by {
        if c.writes(k) {
            let node = choose|node: NodeView<K>| #[trigger] c.holds((k, node));
            assert(c.holds((k, node)));
        }
        if batch_writes(batch, k) {
            let (i, j) = choose|i: int, j: int|
                0 <= i < batch.node_batch@.len() && 0 <= j < batch.node_batch@[i]@.len() && (
                #[trigger] batch.node_batch@[i]@[j]).0@ == k;
            assert(c.holds((k, batch.node_batch@[i]@[j].1@)));
        }
    }
    assert forall|k: NodeKeyView| #[trigger] c.outdates(k) <==> batch_outdates(batch, k) by {
        if c.outdates(k) {
            let since = choose|since: Version| #[trigger]
                c.lists(StaleView { stale_since_version: since, node_key: k });
            assert(c.lists(StaleView { stale_since_version: since, node_key: k }));
        }
        if batch_outdates(batch, k) {
            let (i, j) = choose|i: int, j: int|
                0 <= i < batch.stale_node_index_batch@.len() && 0 <= j
                    < batch.stale_node_index_batch@[i]@.len() && (
                #[trigger] batch.stale_node_index_batch@[i]@[j]).node_key@ == k;
            let s = batch.stale_node_index_batch@[i]@[j]@;
            assert(c.lists(s));
            assert(s == (StaleView { stale_since_version: s.stale_since_version, node_key: k }));
        }
    }
}

/// A committed batch makes its changes.
pub(crate) proof fn lemma_committed_batch<K>(before: Store<K>, after: Store<K>, batch: TreeUpdateBatch<K>)
    requires
        is_committed(before, after, batch),
    ensures
        commits(before, after, batch@),
{
    lemma_batch_view(batch);
}

/// The last pair about a key.
proof fn lemma_is_last<'b, K>(pairs: Seq<KeyValue<'b, K>>, i: int)
    requires
        is_last(pairs, i),
    ensures
        last_entry(pairs, pairs[i].0) == pairs[i],
    decreases pairs.len(),
{
    if i < pairs.len() - 1 {
        let rest = pairs.drop_last();
        assert(pairs[pairs.len() - 1].0 != pairs[i].0);
        assert(is_last(rest, i)) by {
            assert forall|j: int| i < j < rest.len() implies (#[trigger] rest[j]).0 != rest[i].0 by {
                assert(pairs[j].0 != pairs[i].0);
            }
        }
        lemma_is_last(rest, i);
    }
}

/// Putting pairs in order and then into a content is putting them in.
pub(crate) proof fn lemma_put_in<'b, K>(u: Update, content: Content<K>, pairs: Seq<KeyValue<'b, K>>)
    ensures
        is_put_in(content, pairs, u.version, updated(u, content, sorted_set(pairs))),
{
    let kvs = sorted_set(pairs);
    let after = updated(u, content, kvs);
    lemma_updated(u, content, kvs);
    assert forall|k: HashValue| has_key(kvs, k) == #[trigger] names(pairs, k) by {
        lemma_last_counts(pairs, k);
        assert(has_key(pairs, k) == names(pairs, k));
    }
    assert forall|i: int| #[trigger] is_last(pairs, i) implies after[pairs[i].0] == (LeafNode {
        account_key: pairs[i].0,
        value_hash: pairs[i].1.0,
        value_index: (pairs[i].1.1, u.version),
    }) by {
        let k = pairs[i].0;
        lemma_is_last(pairs, i);
        lemma_last_counts(pairs, k);
        assert(names(pairs, k));
        assert(after.contains_key(k));
        assert(entry_of(kvs, k) == pairs[i]);
    }
}

/// A key that pairs are about has a last pair.
proof fn lemma_last_place<'b, K>(pairs: Seq<KeyValue<'b, K>>, key: HashValue) -> (i: int)
    requires
        names(pairs, key),
    ensures
        is_last(pairs, i),
        pairs[i].0 == key,
    decreases pairs.len(),
{
    let n = pairs.len() - 1;
    if pairs[n].0 == key {
        n
    } else {
        let rest = pairs.drop_last();
        let at = choose|at: int| 0 <= at < pairs.len() && (#[trigger] pairs[at]).0 == key;
        assert(rest[at].0 == key);
        let i = lemma_last_place(rest, key);
        assert forall|j: int| i < j < pairs.len() implies (#[trigger] pairs[j]).0 != pairs[i].0 by {
            if j < n {
                assert(rest[j].0 != rest[i].0);
            }
        }
        i
    }
}

/// There is only one way to put pairs into a content.
pub proof fn lemma_put_in_unique<'b, K>(
    before: Content<K>,
    pairs: Seq<KeyValue<'b, K>>,
    version: Version,
    a: Content<K>,
    b: Content<K>,
)
    requires
        is_put_in(before, pairs, version, a),
        is_put_in(before, pairs, version, b),
    ensures
        a == b,
{
    assert forall|k: HashValue| #[trigger] a.contains_key(k) implies b.contains_key(k) && a[k]
        == b[k] by {
        assert(b.contains_key(k));
        if names(pairs, k) {
            let i = lemma_last_place(pairs, k);
            assert(is_last(pairs, i));
        }
    }
    assert forall|k: HashValue| #[trigger] b.contains_key(k) implies a.contains_key(k) by {}
    assert(a =~= b);
}

/// What an update without known hashes comes to.
proof fn lemma_put<'b, K>(
    before: Store<K>,
    after: Store<K>,
    u: Update,
    base: Option<Version>,
    content: Content<K>,
    pairs: Seq<KeyValue<'b, K>>,
    root_hash: HashValue,
    batch: TreeUpdateBatch<K>,
) -> (new: Content<K>)
    requires
        u.hashes is None,
        starts_from(before, base, content),
        makes_tree(content, pairs),
        root_hash == updated_root(before, u, base, sorted_set(pairs)).hash(),
        batch@ == update_changes(before, u, base, sorted_set(pairs)),
        is_committed(before, after, batch),
    ensures
        is_put_in(content, pairs, u.version, new),
        tree_holds(after, NodeKeyView::root(u.version), new),
        root_hash == content_hash(new, 0),
        new == updated(u, content, sorted_set(pairs)),
{
    let kvs = sorted_set(pairs);
    let new = updated(u, content, kvs);
    lemma_sorted_set(pairs);
    lemma_put_in(u, content, pairs);
    lemma_no_hashes(u, new);
    lemma_updatable(before, u, base, content, kvs);
    lemma_committed_batch(before, after, batch);
    lemma_update(before, after, u, base, content, kvs);
    new
}

/// Once the batch that a call without known hashes returned is committed, the tree at the new version holds
/// what the tree at the base version holds with the pairs put into it, and the hash of that is the root
/// hash that the call returned.
pub proof fn lemma_batch_put_value_set<'a, 'b, R: TreeReader<K> + Sync, K: Key>(
    tree: &JellyfishMerkleTree<'a, R, K>,
    value_set: Vec<KeyValue<'b, K>>,
    base: Option<Version>,
    version: Version,
    content: Content<K>,
    root_hash: HashValue,
    batch: TreeUpdateBatch<K>,
    after: Store<K>,
) -> (new: Content<K>)
    requires
        call_ensures(
            JellyfishMerkleTree::<'a, R, K>::batch_put_value_set,
            (tree, value_set, None::<&NodeHashes>, base, version),
            Ok::<(HashValue, TreeUpdateBatch<K>), TreeError>((root_hash, batch)),
        ),
        starts_from(tree.reader.nodes(), base, content),
        makes_tree(content, value_set@),
        is_committed(tree.reader.nodes(), after, batch),
    ensures
        is_put_in(content, value_set@, version, new),
        tree_holds(after, NodeKeyView::root(version), new),
        root_hash == content_hash(new, 0),
{
    lemma_put(
        tree.reader.nodes(),
        after,
        update_of(version, None),
        base,
        content,
        value_set@,
        root_hash,
        batch,
    )
}

/// The same of a call that takes the version before as its base, or none for the first version.
pub proof fn lemma_put_value_set_test<'a, 'b, R: TreeReader<K> + Sync, K: Key>(
    tree: &JellyfishMerkleTree<'a, R, K>,
    value_set: Vec<KeyValue<'b, K>>,
    version: Version,
    content: Content<K>,
    root_hash: HashValue,
    batch: TreeUpdateBatch<K>,
    after: Store<K>,
) -> (new: Content<K>)
    requires
        call_ensures(
            JellyfishMerkleTree::<'a, R, K>::put_value_set_test,
            (tree, value_set, version),
            Ok::<(HashValue, TreeUpdateBatch<K>), TreeError>((root_hash, batch)),
        ),
        starts_from(
            tree.reader.nodes(),
            if version == 0 {
                None
            } else {
                Some((version - 1) as Version)
            },
            content,
        ),
        makes_tree(content, value_set@),
        is_committed(tree.reader.nodes(), after, batch),
    ensures
        is_put_in(content, value_set@, version, new),
        tree_holds(after, NodeKeyView::root(version), new),
        root_hash == content_hash(new, 0),
{
    let base = if version == 0 {
        None
    } else {
        Some((version - 1) as Version)
    };
    lemma_put(
        tree.reader.nodes(),
        after,
        update_of(version, None),
        base,
        content,
        value_set@,
        root_hash,
        batch,
    )
}

/// Read after write, call by call. `earlier` is what a read of the key at the base version gave before, and
/// `later` what a read at the new version gives once the batch is committed. A key of the value set is
/// read with the value hash and the state key of the last pair about it, and with the new version; any
/// other key is read exactly as before, with the version that its value was written at. A read fails
/// only if the store fails.
pub proof fn lemma_read_after_put<
    'a,
    'b,
    'c,
    R: TreeReader<K> + Sync,
    S: TreeReader<K> + Sync,
    K: Key,
>(
    tree: &JellyfishMerkleTree<'a, R, K>,
    value_set: Vec<KeyValue<'b, K>>,
    base: Option<Version>,
    version: Version,
    content: Content<K>,
    root_hash: HashValue,
    batch: TreeUpdateBatch<K>,
    tree_after: &JellyfishMerkleTree<'c, S, K>,
    key: HashValue,
    earlier: Answer<K>,
    later: Answer<K>,
)
    requires
        call_ensures(
            JellyfishMerkleTree::<'a, R, K>::batch_put_value_set,
            (tree, value_set, None::<&NodeHashes>, base, version),
            Ok::<(HashValue, TreeUpdateBatch<K>), TreeError>((root_hash, batch)),
        ),
        starts_from(tree.reader.nodes(), base, content),
        makes_tree(content, value_set@),
        is_committed(tree.reader.nodes(), tree_after.reader.nodes(), batch),
        base matches Some(base_version) ==> call_ensures(
            JellyfishMerkleTree::<'a, R, K>::get_with_proof,
            (tree, key, base_version),
            earlier,
        ),
        call_ensures(
            JellyfishMerkleTree::<'c, S, K>::get_with_proof,
            (tree_after, key, version),
            later,
        ),
    ensures
        match later {
            Ok((value, _)) => {
                &&& forall|i: int| #[trigger]
                    is_last(value_set@, i) && value_set@[i].0 == key ==> value == Some(
                        (value_set@[i].1.0, (value_set@[i].1.1, version)),
                    )
                &&& !names(value_set@, key) && base is None ==> value is None
                &&& !names(value_set@, key) && base is Some ==> (earlier matches Ok((before, _))
                    ==> value == before)
            },
            Err(error) => store_failed(tree_after.reader, version, error),
        },
{
    let new = lemma_batch_put_value_set(
        tree,
        value_set,
        base,
        version,
        content,
        root_hash,
        batch,
        tree_after.reader.nodes(),
    );
    lemma_get_with_proof_value(tree_after, key, version, new, later);
    if let Some(base_version) = base {
        lemma_get_with_proof_value(tree, key, base_version, content, earlier);
    }
    assert forall|i: int| #[trigger]
        is_last(value_set@, i) && value_set@[i].0 == key implies names(value_set@, key) by {}
}

/// The root hash that a call returned is the one that a call for the root hash gives once the batch is
/// committed.
pub proof fn lemma_root_hash_after_put<
    'a,
    'b,
    'c,
    R: TreeReader<K> + Sync,
    S: TreeReader<K> + Sync,
    K: Key,
>(
    tree: &JellyfishMerkleTree<'a, R, K>,
    value_set: Vec<KeyValue<'b, K>>,
    base: Option<Version>,
    version: Version,
    content: Content<K>,
    root_hash: HashValue,
    batch: TreeUpdateBatch<K>,
    tree_after: &JellyfishMerkleTree<'c, S, K>,
    hash: HashValue,
)
    requires
        call_ensures(
            JellyfishMerkleTree::<'a, R, K>::batch_put_value_set,
            (tree, value_set, None::<&NodeHashes>, base, version),
            Ok::<(HashValue, TreeUpdateBatch<K>), TreeError>((root_hash, batch)),
        ),
        starts_from(tree.reader.nodes(), base, content),
        makes_tree(content, value_set@),
        is_committed(tree.reader.nodes(), tree_after.reader.nodes(), batch),
        call_ensures(
            JellyfishMerkleTree::<'c, S, K>::get_root_hash,
            (tree_after, version),
            Ok::<HashValue, TreeError>(hash),
        ),
    ensures
        hash == root_hash,
{
    let new = lemma_batch_put_value_set(
        tree,
        value_set,
        base,
        version,
        content,
        root_hash,
        batch,
        tree_after.reader.nodes(),
    );
    lemma_node_hash(
        tree_after.reader.nodes(),
        NodeKeyView::root(version),
        new,
    );
}

/// As long as nothing is pruned, a call that writes a new version changes nothing for the other versions: a
/// key is read from any of them with the same value and the same proof as before.
pub proof fn lemma_other_version_reads<
    'a,
    'b,
    'c,
    R: TreeReader<K> + Sync,
    S: TreeReader<K> + Sync,
    K: Key,
>(
    tree: &JellyfishMerkleTree<'a, R, K>,
    value_set: Vec<KeyValue<'b, K>>,
    node_hashes: Option<&NodeHashes>,
    base: Option<Version>,
    version: Version,
    root_hash: HashValue,
    batch: TreeUpdateBatch<K>,
    tree_after: &JellyfishMerkleTree<'c, S, K>,
    other: Version,
    content: Content<K>,
    key: HashValue,
    earlier: (Option<(HashValue, (K, Version))>, SparseMerkleProof),
    later: (Option<(HashValue, (K, Version))>, SparseMerkleProof),
)
    requires
        call_ensures(
            JellyfishMerkleTree::<'a, R, K>::batch_put_value_set,
            (tree, value_set, node_hashes, base, version),
            Ok::<(HashValue, TreeUpdateBatch<K>), TreeError>((root_hash, batch)),
        ),
        tree_holds(tree.reader.nodes(), NodeKeyView::root(other), content),
        forall|k: NodeKeyView| #[trigger]
            tree.reader.nodes().contains_key(k) ==> k.version != version,
        forall|k: NodeKeyView| #[trigger]
            tree.reader.nodes().contains_key(k) && !batch_writes(batch, k)
                ==> tree_after.reader.nodes().contains_key(k) && tree_after.reader.nodes()[k]
                == tree.reader.nodes()[k],
        call_ensures(
            JellyfishMerkleTree::<'a, R, K>::get_with_proof,
            (tree, key, other),
            Ok::<(Option<(HashValue, (K, Version))>, SparseMerkleProof), TreeError>(earlier),
        ),
        call_ensures(
            JellyfishMerkleTree::<'c, S, K>::get_with_proof,
            (tree_after, key, other),
            Ok::<(Option<(HashValue, (K, Version))>, SparseMerkleProof), TreeError>(later),
        ),
    ensures
        later.0 == earlier.0,
        later.1.leaf == earlier.1.leaf,
        later.1.siblings@ == earlier.1.siblings@,
{
    let u = update_of(version, node_hashes);
    lemma_batch_view(batch);
    lemma_other_versions(
        tree.reader.nodes(),
        tree_after.reader.nodes(),
        u,
        base,
        sorted_set(value_set@),
        other,
        content,
    );
    assert(lookup_at(tree_after.reader.nodes(), other, key) == lookup_at(
        tree.reader.nodes(),
        other,
        key,
    ));
}

/// A call that writes without known hashes fails only if the store fails, where the base is all there.
pub proof fn lemma_put_errors<'a, 'b, R: TreeReader<K> + Sync, K: Key>(
    tree: &JellyfishMerkleTree<'a, R, K>,
    value_set: Vec<KeyValue<'b, K>>,
    base: Option<Version>,
    version: Version,
    content: Content<K>,
    error: TreeError,
)
    requires
        call_ensures(
            JellyfishMerkleTree::<'a, R, K>::batch_put_value_set,
            (tree, value_set, None::<&NodeHashes>, base, version),
            Err::<(HashValue, TreeUpdateBatch<K>), TreeError>(error),
        ),
        starts_from(tree.reader.nodes(), base, content),
        makes_tree(content, value_set@),
    ensures
        error matches TreeError::Storage(e) && exists|k: NodeKeyView|
            tree.reader.may_fail_with(k, e),
{
    let u = update_of(version, None);
    let kvs = sorted_set(value_set@);
    lemma_sorted_set(value_set@);
    lemma_updatable(tree.reader.nodes(), u, base, content, kvs);
    let root = NodeKeyView::root(base.unwrap());
    lemma_misses(tree.reader.nodes(), root, kvs);
    if let TreeError::Storage(e) = error {
        lemma_fails_somewhere(tree.reader, root, kvs, e);
    }
}

/// An error of the store comes from one of its nodes.
pub(crate) proof fn lemma_fails_somewhere<'b, K, R: TreeReader<K>>(
    reader: &R,
    key: NodeKeyView,
    kvs: Seq<KeyValue<'b, K>>,
    error: StorageError,
)
    requires
        fails(reader, key, kvs, error),
    ensures
        exists|k: NodeKeyView| reader.may_fail_with(k, error),
    decreases 64 - key.path.len(),
{
    if !reader.may_fail_with(key, error) {
        let slots = reader.nodes()[key]->Internal_0;
        let n = choose|n: u8|
            n < 16 && #[trigger] bucket(kvs, key.path.len(), n).len() > 0 && child_fails(
                reader,
                key,
                slots,
                kvs,
                n,
                error,
            );
        lemma_fails_somewhere(
            reader,
            child_key(key, slots[n as int].unwrap(), n),
            bucket(kvs, key.path.len(), n),
            error,
        );
    }
}

/// Where a batch has an item that is one of these: the list that it is in and its place there.
pub open spec fn places<T>(lists: Seq<Seq<T>>, p: spec_fn(T) -> bool) -> Set<(int, int)> {
    Set::new(
        |at: (int, int)|
            0 <= at.0 < lists.len() && 0 <= at.1 < lists[at.0].len() && p(lists[at.0][at.1]),
    )
}

/// The places of items are as many as the items.
proof fn lemma_places<T>(lists: Seq<Seq<T>>, p: spec_fn(T) -> bool)
    ensures
        places(lists, p).finite(),
        places(lists, p).len() == count_lists(lists, p),
    decreases lists.len(),
{
    if lists.len() == 0 {
        assert(places(lists, p) =~= Set::empty());
    } else {
        let rest = lists.drop_last();
        let last = lists.last();
        lemma_places(rest, p);
        lemma_places_in(lists, p, last.len());
        let here = places_upto(lists, p, last.len());
        assert(places(lists, p) =~= places(rest, p).union(here));
        assert(places(rest, p).disjoint(here));
        assert(last.take(last.len() as int) =~= last);
        vstd::set_lib::lemma_set_disjoint_lens(places(rest, p), here);
    }
}

/// The places of items among the first `n` of the last list.
spec fn places_upto<T>(lists: Seq<Seq<T>>, p: spec_fn(T) -> bool, n: nat) -> Set<(int, int)> {
    Set::new(|at: (int, int)| at.0 == lists.len() - 1 && 0 <= at.1 < n && p(lists.last()[at.1]))
}

proof fn lemma_places_in<T>(lists: Seq<Seq<T>>, p: spec_fn(T) -> bool, n: nat)
    requires
        lists.len() > 0,
        n <= lists.last().len(),
    ensures
        places_upto(lists, p, n).finite(),
        places_upto(lists, p, n).len() == count(lists.last().take(n as int), p),
    decreases n,
{
    let last = lists.last();
    let here = places_upto(lists, p, n);
    if n == 0 {
        assert(here =~= Set::empty());
    } else {
        let before = places_upto(lists, p, (n - 1) as nat);
        let at = (lists.len() - 1, n - 1);
        lemma_places_in(lists, p, (n - 1) as nat);
        assert(last.take(n as int).drop_last() =~= last.take(n - 1));
        assert(last.take(n as int).last() == last[n - 1]);
        if p(last[n - 1]) {
            assert(here =~= before.insert(at));
        } else {
            assert(here =~= before);
        }
    }
}

/// The counts of a batch. It counts the leaves among the nodes that it writes, and the leaves among the nodes
/// that it lists as stale; and with them the numbers of keys before and after balance.
pub proof fn lemma_put_counts<'a, 'b, R: TreeReader<K> + Sync, K: Key>(
    tree: &JellyfishMerkleTree<'a, R, K>,
    value_set: Vec<KeyValue<'b, K>>,
    node_hashes: Option<&NodeHashes>,
    base: Option<Version>,
    version: Version,
    content: Content<K>,
    root_hash: HashValue,
    batch: TreeUpdateBatch<K>,
    new: Content<K>,
)
    requires
        call_ensures(
            JellyfishMerkleTree::<'a, R, K>::batch_put_value_set,
            (tree, value_set, node_hashes, base, version),
            Ok::<(HashValue, TreeUpdateBatch<K>), TreeError>((root_hash, batch)),
        ),
        starts_from(tree.reader.nodes(), base, content),
        makes_tree(content, value_set@),
        is_put_in(content, value_set@, version, new),
    ensures
        ({
            let leaves = Set::new(
                |at: (int, int)|
                    0 <= at.0 < batch.node_batch@.len() && 0 <= at.1
                        < batch.node_batch@[at.0]@.len() && batch.node_batch@[at.0]@[at.1].1 is Leaf,
            );
            let stale_leaves = Set::new(
                |at: (int, int)|
                    0 <= at.0 < batch.stale_node_index_batch@.len() && 0 <= at.1
                        < batch.stale_node_index_batch@[at.0]@.len()
                        && tree.reader.nodes()[batch.stale_node_index_batch@[at.0]@[at.1].node_key@] is Leaf,
            );
            &&& leaves.finite() && batch.num_new_leaves == leaves.len()
            &&& stale_leaves.finite() && batch.num_stale_leaves == stale_leaves.len()
        }),
        content.dom().finite(),
        new.dom().finite(),
        content.dom().len() + batch.num_new_leaves == new.dom().len() + batch.num_stale_leaves,
{
    let u = update_of(version, node_hashes);
    let store = tree.reader.nodes();
    let kvs = sorted_set(value_set@);
    let c = batch@;
    lemma_sorted_set(value_set@);
    lemma_batch_counts(store, u, base, content, kvs);
    lemma_leaf_balance(store, u, base, content, kvs);
    lemma_put_in(u, content, value_set@);
    assert(new.dom() =~= updated(u, content, kvs).dom());
    lemma_places(c.nodes, is_leaf_entry::<K>());
    lemma_places(c.stale, is_stale_leaf(store));
    let leaves = Set::new(
        |at: (int, int)|
            0 <= at.0 < batch.node_batch@.len() && 0 <= at.1 < batch.node_batch@[at.0]@.len()
                && batch.node_batch@[at.0]@[at.1].1 is Leaf,
    );
    let stale_leaves = Set::new(
        |at: (int, int)|
            0 <= at.0 < batch.stale_node_index_batch@.len() && 0 <= at.1
                < batch.stale_node_index_batch@[at.0]@.len()
                && store[batch.stale_node_index_batch@[at.0]@[at.1].node_key@] is Leaf,
    );
    assert(leaves =~= places(c.nodes, is_leaf_entry::<K>()));
    assert(stale_leaves =~= places(c.stale, is_stale_leaf(store)));
}

/// A batch is about the new version only: each of its nodes is a node of that version, and each stale node is
/// stale since that version. It writes no node twice, and lists none twice as stale.
pub proof fn lemma_put_versions<'a, 'b, R: TreeReader<K> + Sync, K: Key>(
    tree: &JellyfishMerkleTree<'a, R, K>,
    value_set: Vec<KeyValue<'b, K>>,
    node_hashes: Option<&NodeHashes>,
    base: Option<Version>,
    version: Version,
    root_hash: HashValue,
    batch: TreeUpdateBatch<K>,
)
    requires
        call_ensures(
            JellyfishMerkleTree::<'a, R, K>::batch_put_value_set,
            (tree, value_set, node_hashes, base, version),
            Ok::<(HashValue, TreeUpdateBatch<K>), TreeError>((root_hash, batch)),
        ),
    ensures
        forall|i: int, j: int|
            0 <= i < batch.node_batch@.len() && 0 <= j < batch.node_batch@[i]@.len() ==> (
            #[trigger] batch.node_batch@[i]@[j]).0.version == version,
        forall|i: int, j: int|
            0 <= i < batch.stale_node_index_batch@.len() && 0 <= j
                < batch.stale_node_index_batch@[i]@.len() ==> (
            #[trigger] batch.stale_node_index_batch@[i]@[j]).stale_since_version == version,
        forall|i: int, j: int, a: int, b: int|
            0 <= i < batch.node_batch@.len() && 0 <= j < batch.node_batch@[i]@.len() && 0 <= a
                < batch.node_batch@.len() && 0 <= b < batch.node_batch@[a]@.len() && (
            #[trigger] batch.node_batch@[i]@[j]).0@ == (#[trigger] batch.node_batch@[a]@[b]).0@
                ==> i == a && j == b,
        forall|i: int, j: int, a: int, b: int|
            0 <= i < batch.stale_node_index_batch@.len() && 0 <= j
                < batch.stale_node_index_batch@[i]@.len() && 0 <= a
                < batch.stale_node_index_batch@.len() && 0 <= b
                < batch.stale_node_index_batch@[a]@.len() && (
            #[trigger] batch.stale_node_index_batch@[i]@[j]).node_key@ == (
            #[trigger] batch.stale_node_index_batch@[a]@[b]).node_key@ ==> i == a && j == b,
        base is None ==> forall|k: NodeKeyView| !batch_outdates(batch, k),
{
    let u = update_of(version, node_hashes);
    let store = tree.reader.nodes();
    let kvs = sorted_set(value_set@);
    let c = batch@;
    lemma_batch_view(batch);
    lemma_one_version(store, u, base, kvs);
    lemma_batch_distinct(store, u, base, kvs);
    reveal(distinct_lists);
    assert forall|i: int, j: int|
        0 <= i < batch.node_batch@.len() && 0 <= j < batch.node_batch@[i]@.len() implies (
    #[trigger] batch.node_batch@[i]@[j]).0.version == version by {
        let e = batch.node_batch@[i]@[j];
        assert(c.holds((e.0@, e.1@)));
    }
    assert forall|i: int, j: int|
        0 <= i < batch.stale_node_index_batch@.len() && 0 <= j
            < batch.stale_node_index_batch@[i]@.len() implies (
    #[trigger] batch.stale_node_index_batch@[i]@[j]).stale_since_version == version by {
        let s = batch.stale_node_index_batch@[i]@[j];
        assert(c.lists(s@));
    }
    assert forall|i: int, j: int, a: int, b: int|
        0 <= i < batch.node_batch@.len() && 0 <= j < batch.node_batch@[i]@.len() && 0 <= a
            < batch.node_batch@.len() && 0 <= b < batch.node_batch@[a]@.len() && (
        #[trigger] batch.node_batch@[i]@[j]).0@ == (
        #[trigger] batch.node_batch@[a]@[b]).0@ implies i == a && j == b by {
        assert(entry_key::<K>()(c.nodes[i][j]) == entry_key::<K>()(c.nodes[a][b]));
    }
    assert forall|i: int, j: int, a: int, b: int|
        0 <= i < batch.stale_node_index_batch@.len() && 0 <= j
            < batch.stale_node_index_batch@[i]@.len() && 0 <= a
            < batch.stale_node_index_batch@.len() && 0 <= b
            < batch.stale_node_index_batch@[a]@.len() && (
        #[trigger] batch.stale_node_index_batch@[i]@[j]).node_key@ == (
        #[trigger] batch.stale_node_index_batch@[a]@[b]).node_key@ implies i == a && j == b by {
        assert(stale_key()(c.stale[i][j]) == stale_key()(c.stale[a][b]));
    }
    if base is None {
        assert forall|k: NodeKeyView| !batch_outdates(batch, k) by {
            lemma_nothing_stale(store, u, kvs, k);
            assert(!c.outdates(k));
        }
    }
}

/// A batch lists as stale exactly those nodes of the base tree that the new tree does without, and the nodes
/// that it writes are nodes of the new tree.
pub proof fn lemma_put_nodes<'a, 'b, R: TreeReader<K> + Sync, K: Key>(
    tree: &JellyfishMerkleTree<'a, R, K>,
    value_set: Vec<KeyValue<'b, K>>,
    node_hashes: Option<&NodeHashes>,
    base: Version,
    version: Version,
    content: Content<K>,
    root_hash: HashValue,
    batch: TreeUpdateBatch<K>,
    after: Store<K>,
    k: NodeKeyView,
)
    requires
        call_ensures(
            JellyfishMerkleTree::<'a, R, K>::batch_put_value_set,
            (tree, value_set, node_hashes, Some(base), version),
            Ok::<(HashValue, TreeUpdateBatch<K>), TreeError>((root_hash, batch)),
        ),
        tree_holds(tree.reader.nodes(), NodeKeyView::root(base), content),
        makes_tree(content, value_set@),
        forall|old_key: NodeKeyView| #[trigger]
            in_tree(tree.reader.nodes(), NodeKeyView::root(base), old_key) ==> old_key.version
                != version,
        is_committed(tree.reader.nodes(), after, batch),
    ensures
        batch_outdates(batch, k) <==> in_tree(tree.reader.nodes(), NodeKeyView::root(base), k)
            && !in_tree(after, NodeKeyView::root(version), k),
        batch_writes(batch, k) ==> in_tree(after, NodeKeyView::root(version), k),
{
    let u = update_of(version, node_hashes);
    let store = tree.reader.nodes();
    let kvs = sorted_set(value_set@);
    let root = NodeKeyView::root(base);
    lemma_batch_view(batch);
    lemma_sorted_set(value_set@);
    lemma_committed_batch(store, after, batch);
    lemma_holds_keys(store, root, content);
    lemma_stale_nodes(store, after, u, base, content, kvs, k);
    if batch_writes(batch, k) {
        assert(batch@.writes(k));
        let node = choose|node: NodeView<K>| #[trigger] batch@.holds((k, node));
        lemma_inserted_in_tree(store, after, u, root, kvs, (k, node));
        assert(u.key(root.path) == NodeKeyView::root(version));
    }
}

/// The nodes that a call for a first tree writes are nodes of that tree.
pub proof fn lemma_first_put_nodes<'a, 'b, R: TreeReader<K> + Sync, K: Key>(
    tree: &JellyfishMerkleTree<'a, R, K>,
    value_set: Vec<KeyValue<'b, K>>,
    node_hashes: Option<&NodeHashes>,
    version: Version,
    root_hash: HashValue,
    batch: TreeUpdateBatch<K>,
    after: Store<K>,
    k: NodeKeyView,
)
    requires
        call_ensures(
            JellyfishMerkleTree::<'a, R, K>::batch_put_value_set,
            (tree, value_set, node_hashes, None::<Version>, version),
            Ok::<(HashValue, TreeUpdateBatch<K>), TreeError>((root_hash, batch)),
        ),
        is_committed(tree.reader.nodes(), after, batch),
    ensures
        batch_writes(batch, k) ==> in_tree(after, NodeKeyView::root(version), k),
{
    let u = update_of(version, node_hashes);
    let kvs = sorted_set(value_set@);
    let top = Seq::<u8>::empty();
    lemma_batch_view(batch);
    lemma_committed_batch(tree.reader.nodes(), after, batch);
    if batch_writes(batch, k) {
        assert(batch@.writes(k));
        let node = choose|node: NodeView<K>| #[trigger] batch@.holds((k, node));
        lemma_built_changes_holds(u, None::<LeafNode<K>>, kvs, top);
        assert forall|e: NodeEntry<K>| #[trigger]
            built_entries(u, None::<LeafNode<K>>, kvs, top).contains(e) implies after.contains_key(
            e.0,
        ) && after[e.0] == e.1 by {
            assert(batch@.holds(e));
        }
        lemma_new_in_tree(after, u, None::<LeafNode<K>>, kvs, top, (k, node));
        assert(u.key(top) == NodeKeyView::root(version));
    }
}

/// The nodes of a new subtree are in the tree that starts with its first node.
proof fn lemma_new_in_tree<'b, K>(
    after: Store<K>,
    u: Update,
    leaf: Option<LeafNode<K>>,
    kvs: Seq<KeyValue<'b, K>>,
    path: Seq<u8>,
    e: NodeEntry<K>,
)
    requires
        forall|e: NodeEntry<K>| #[trigger]
            built_entries(u, leaf, kvs, path).contains(e) ==> after.contains_key(e.0) && after[e.0]
                == e.1,
        built_entries(u, leaf, kvs, path).contains(e),
    ensures
        in_tree(after, u.key(path), e.0),
    decreases 64 - path.len(),
{
    let all = built_entries(u, leaf, kvs, path);
    let own = (u.key(path), built(u, leaf, kvs, path));
    assert(all[all.len() - 1] == own);
    assert(all.contains(own));
    if !one_key(leaf, kvs) && path.len() < 64 && e != own {
        let d = path.len();
        let below = built_entries_below(u, leaf, kvs, path, 16);
        let moved = moved_entry(u, leaf, kvs, path);
        let slots = after[u.key(path)]->Internal_0;
        let i = choose|i: int| 0 <= i < all.len() && all[i] == e;
        if i < below.len() {
            assert(below[i] == e);
            assert(below.contains(e));
            let n = lemma_entry_of_child(u, leaf, kvs, path, 16, e);
            let more = built_entries(u, leaf_bucket(leaf, d, n), bucket(kvs, d, n), path.push(n));
            lemma_entries_among(u, leaf, kvs, path, 16, n);
            assert forall|x: NodeEntry<K>| #[trigger] more.contains(x) implies after.contains_key(
                x.0,
            ) && after[x.0] == x.1 by {
                assert(below.contains(x));
                let j = choose|j: int| 0 <= j < below.len() && below[j] == x;
                assert(all[j] == x);
                assert(all.contains(x));
            }
            lemma_new_in_tree(after, u, leaf_bucket(leaf, d, n), bucket(kvs, d, n), path.push(n), e);
            assert(slots[n as int] == built_child(u, leaf, kvs, path, n));
            assert(child_key(u.key(path), slots[n as int].unwrap(), n) == u.key(path.push(n)));
        } else {
            assert(moved[i - below.len()] == e);
            let n = leaf.unwrap().account_key.nibble_at(d as int);
            lemma_nibble_range(leaf.unwrap().account_key, d as int);
            assert(slots[n as int] == built_child(u, leaf, kvs, path, n));
            assert(child_key(u.key(path), slots[n as int].unwrap(), n) == e.0);
            assert(in_tree(after, e.0, e.0));
        }
    }
}

/// A node below the first children of a new subtree is a node below one of them.
pub(crate) proof fn lemma_entry_of_child<'b, K>(
    u: Update,
    leaf: Option<LeafNode<K>>,
    kvs: Seq<KeyValue<'b, K>>,
    path: Seq<u8>,
    upto: nat,
    e: NodeEntry<K>,
) -> (n: u8)
    requires
        path.len() < 64,
        upto <= 16,
        built_entries_below(u, leaf, kvs, path, upto).contains(e),
    ensures
        n < upto,
        bucket(kvs, path.len(), n).len() > 0,
        built_entries(
            u,
            leaf_bucket(leaf, path.len(), n),
            bucket(kvs, path.len(), n),
            path.push(n),
        ).contains(e),
    decreases upto,
{
    let all = built_entries_below(u, leaf, kvs, path, upto);
    let i = choose|i: int| 0 <= i < all.len() && all[i] == e;
    let at = (upto - 1) as u8;
    let before = built_entries_below(u, leaf, kvs, path, (upto - 1) as nat);
    if i < before.len() {
        assert(before[i] == e);
        assert(before.contains(e));
        lemma_entry_of_child(u, leaf, kvs, path, (upto - 1) as nat, e)
    } else {
        let more = built_entries(
            u,
            leaf_bucket(leaf, path.len(), at),
            bucket(kvs, path.len(), at),
            path.push(at),
        );
        assert(more[i - before.len()] == e);
        at
    }
}

/// The nodes that are written below a node are in the tree that starts with the node in its place.
proof fn lemma_inserted_in_tree<'b, K>(
    store: Store<K>,
    after: Store<K>,
    u: Update,
    key: NodeKeyView,
    kvs: Seq<KeyValue<'b, K>>,
    e: NodeEntry<K>,
)
    requires
        forall|e: NodeEntry<K>| #[trigger]
            insert_changes(store, u, key, kvs).holds(e) ==> after.contains_key(e.0) && after[e.0]
                == e.1,
        insert_changes(store, u, key, kvs).holds(e),
    ensures
        in_tree(after, u.key(key.path), e.0),
    decreases 64 - key.path.len(),
{
    let c = insert_changes(store, u, key, kvs);
    match store[key] {
        NodeView::Leaf(leaf) => {
            lemma_insert_holds_leaf(store, u, key, kvs);
            assert forall|x: NodeEntry<K>| #[trigger]
                built_entries(u, Some(leaf), kvs, key.path).contains(x) implies after.contains_key(
                x.0,
            ) && after[x.0] == x.1 by {
                assert(c.holds(x));
            }
            lemma_new_in_tree(after, u, Some(leaf), kvs, key.path, e);
        },
        NodeView::Internal(slots) => {
            if key.path.len() >= 64 {
                lemma_outdated_holds::<K>(u, key);
            } else {
                lemma_insert_holds_internal(store, u, key, kvs);
                let own = (u.key(key.path), inserted(store, u, key, kvs));
                assert(c.holds(own));
                if e != own {
                    let d = key.path.len();
                    let n = choose|n: u8|
                        n < 16 && #[trigger] child_holds(store, u, key, slots, kvs, n, e);
                    let kvs_below = bucket(kvs, d, n);
                    let more = child_changes(store, u, key, slots, kvs, n);
                    assert forall|x: NodeEntry<K>| #[trigger] more.holds(x) implies c.holds(x) by {
                        assert(child_holds(store, u, key, slots, kvs, n, x));
                    }
                    match slots[n as int] {
                        Some(child) => {
                            let next = child_key(key, child, n);
                            assert(more == insert_changes(store, u, next, kvs_below));
                            lemma_inserted_in_tree(store, after, u, next, kvs_below, e);
                        },
                        None => {
                            let entries = built_entries(
                                u,
                                None::<LeafNode<K>>,
                                kvs_below,
                                key.path.push(n),
                            );
                            assert(more == built_changes(u, None, kvs_below, key.path.push(n)));
                            lemma_built_changes_holds(
                                u,
                                None::<LeafNode<K>>,
                                kvs_below,
                                key.path.push(n),
                            );
                            assert forall|x: NodeEntry<K>| #[trigger]
                                entries.contains(x) implies after.contains_key(x.0) && after[x.0]
                                == x.1 by {
                                assert(more.holds(x));
                                assert(c.holds(x));
                            }
                            lemma_new_in_tree(
                                after,
                                u,
                                None::<LeafNode<K>>,
                                kvs_below,
                                key.path.push(n),
                                e,
                            );
                        },
                    }
                    let new_slots = after[u.key(key.path)]->Internal_0;
                    assert(new_slots[n as int] == inserted_child(store, u, key, slots, kvs, n));
                    assert(child_key(u.key(key.path), new_slots[n as int].unwrap(), n) == u.key(
                        key.path.push(n),
                    ));
                }
            }
        },
    }
}

/// Whatever the store holds and whatever hashes are known, the root hash that a call returns is the hash of
/// the node that its batch writes under the root of the new version.
pub proof fn lemma_put_root<'a, 'b, R: TreeReader<K> + Sync, K: Key>(
    tree: &JellyfishMerkleTree<'a, R, K>,
    value_set: Vec<KeyValue<'b, K>>,
    node_hashes: Option<&NodeHashes>,
    base: Option<Version>,
    version: Version,
    root_hash: HashValue,
    batch: TreeUpdateBatch<K>,
) -> (r: (int, int))
    requires
        call_ensures(
            JellyfishMerkleTree::<'a, R, K>::batch_put_value_set,
            (tree, value_set, node_hashes, base, version),
            Ok::<(HashValue, TreeUpdateBatch<K>), TreeError>((root_hash, batch)),
        ),
    ensures
        0 <= r.0 < batch.node_batch@.len(),
        0 <= r.1 < batch.node_batch@[r.0]@.len(),
        ({
            let (root_key, root) = batch.node_batch@[r.0]@[r.1];
            &&& root_key.version == version
            &&& root_key.nibble_path@.len() == 0
            &&& forall|hash: HashValue| #[trigger]
                call_ensures(Node::<K>::hash, (&root,), hash) ==> hash == root_hash
        }),
{
    let u = update_of(version, node_hashes);
    let store = tree.reader.nodes();
    let kvs = sorted_set(value_set@);
    let top = Seq::<u8>::empty();
    let e = (u.key(top), updated_root(store, u, base, kvs));
    lemma_batch_view(batch);
    match base {
        Some(base_version) => {
            lemma_inserted_own(store, u, NodeKeyView::root(base_version), kvs);
        },
        None => {
            lemma_built_changes_holds(u, None::<LeafNode<K>>, kvs, top);
            lemma_built_own(u, None::<LeafNode<K>>, kvs, top);
        },
    }
    assert(batch@.holds(e));
    let (i, j) = choose|i: int, j: int|
        0 <= i < batch.node_batch@.len() && 0 <= j < batch.node_batch@[i]@.len() && e == (
            (#[trigger] batch.node_batch@[i]@[j]).0@,
            batch.node_batch@[i]@[j].1@,
        );
    (i, j)
}

/// Without known hashes, a value set can be applied to a base that is all there exactly if something comes of
/// it.
pub proof fn lemma_is_updatable<'a, 'b, R: TreeReader<K> + Sync, K: Key>(
    tree: &JellyfishMerkleTree<'a, R, K>,
    value_set: &Vec<KeyValue<'b, K>>,
    base: Option<Version>,
    version: Version,
    content: Content<K>,
    can: bool,
)
    requires
        call_ensures(
            JellyfishMerkleTree::<'a, R, K>::is_updatable,
            (tree, value_set, None::<&NodeHashes>, base, version),
            Ok::<bool, TreeError>(can),
        ),
        starts_from(tree.reader.nodes(), base, content),
    ensures
        can <==> makes_tree(content, value_set@),
{
    let u = update_of(version, None);
    let store = tree.reader.nodes();
    let kvs = sorted_set(value_set@);
    lemma_sorted_set(value_set@);
    if makes_tree(content, value_set@) {
        lemma_updatable(store, u, base, content, kvs);
    } else {
        assert(kvs.len() == 0);
        if let Some(base_version) = base {
            lemma_holds_keys(store, NodeKeyView::root(base_version), content);
        }
    }
}

} // verus!
