//! Putting keys below a node.
use vstd::prelude::*;

use crate::batch::{
    lemma_absorb_associative, lemma_absorb_combine, lemma_absorb_grows, lemma_absorb_none,
    lemma_absorb_with, lemma_changes_grow_twice, Changes, TreeUpdateBatch,
};
use crate::create::{batch_create_subtree, batch_create_subtree_with_existing_leaf, get_hash};
use crate::hash::HashValue;
use crate::nibble::Nibble;
use crate::node_type::{Child, Children, InternalNode, Node, NodeKey, NodeKeyView, Version};
use crate::parallel::par_map;
use crate::ranges::{
    all_under, bucket, lemma_between_ranges, lemma_last_range, nibble_after, nibble_ranges,
    range_nibble,
};
use crate::reader::{Key, StorageError, TreeError, TreeReader};
use crate::sorted::sorted;
use crate::tree::{cache_wf, update_of, JellyfishMerkleTree, NodeHashes};
use crate::update::{
    built_entries, built_leaves, child_changes, child_complete, child_fails, child_insertable,
    child_key, child_misses, complete, fails, fails_below, first_children_complete, insert_changes,
    insert_changes_below, insertable, inserted, inserted_child, is_group, left_behind,
    lemma_changes_below_wf, lemma_child_changes_wf, lemma_missing_place, lemma_range_step,
    lemma_rising, lemma_skip_changes, misses, outdated, KeyValue, Store, Update,
    MAX_PARALLELIZABLE_DEPTH,
};

verus! {

/// Whether a node `missing` is missing below child `n`, which is there.
spec fn misses_below<'b, K>(
    store: Store<K>,
    key: NodeKeyView,
    slots: Seq<Option<Child>>,
    kvs: Seq<KeyValue<'b, K>>,
    n: u8,
    missing: NodeKeyView,
) -> bool {
    slots[n as int] is Some && misses(
        store,
        child_key(key, slots[n as int].unwrap(), n),
        bucket(kvs, key.path.len(), n),
        missing,
    )
}

/// Whether the store can fail with `error` at or below child `n`, which is there.
spec fn fails_at_child<'b, K, R: TreeReader<K>>(
    reader: &R,
    key: NodeKeyView,
    slots: Seq<Option<Child>>,
    kvs: Seq<KeyValue<'b, K>>,
    n: u8,
    error: StorageError,
) -> bool {
    slots[n as int] is Some && fails(
        reader,
        child_key(key, slots[n as int].unwrap(), n),
        bucket(kvs, key.path.len(), n),
        error,
    )
}

/// Whether `r` is what becomes of the child of the node at `key` that the entries in `range` belong
/// below.
spec fn is_child_update<'b, K, R: TreeReader<K>>(
    reader: &R,
    u: Update,
    key: NodeKeyView,
    slots: Seq<Option<Child>>,
    kvs: Seq<KeyValue<'b, K>>,
    range: (usize, usize),
    r: Result<((Nibble, Child), TreeUpdateBatch<K>), TreeError>,
) -> bool {
    let store = reader.nodes();
    let n = kvs[range.0 as int].0.nibble_at(key.path.len() as int);
    match r {
        Ok(((nibble, child), sub_batch)) => {
            &&& nibble.value == n
            &&& Some(child) == inserted_child(store, u, key, slots, kvs, n)
            &&& child_complete(store, key, slots, kvs, n)
            &&& sub_batch@ == child_changes(store, u, key, slots, kvs, n)
            &&& sub_batch@.new_leaves <= 2 * (range.1 + 1 - range.0)
            &&& sub_batch@.stale_leaves <= range.1 + 1 - range.0
        },
        Err(TreeError::MissingNode(missing)) => misses_below(
            store,
            key,
            slots,
            kvs,
            n,
            missing@,
        ),
        Err(TreeError::Storage(error)) => fails_at_child(reader, key, slots, kvs, n, error),
        Err(_) => false,
    }
}

/// Whether `r` is what becomes of the children of the node at `key` when `kvs` are put below them, where
/// the batch holds `before` at first and `after` in the end.
spec fn is_children_update<'b, K, R: TreeReader<K>>(
    reader: &R,
    u: Update,
    key: NodeKeyView,
    slots: Seq<Option<Child>>,
    kvs: Seq<KeyValue<'b, K>>,
    before: Changes<K>,
    after: Changes<K>,
    r: Result<Children, TreeError>,
) -> bool {
    let store = reader.nodes();
    match r {
        Ok(children) => {
            &&& first_children_complete(store, key, slots, kvs, 16)
            &&& children@.len() == 16
            &&& forall|n: int|
                0 <= n < 16 ==> #[trigger] children@[n] == inserted_child(
                    store,
                    u,
                    key,
                    slots,
                    kvs,
                    n as u8,
                )
            &&& after == before.absorb(insert_changes_below(store, u, key, slots, kvs, 16))
            &&& after.new_leaves <= before.new_leaves + 2 * kvs.len()
            &&& after.stale_leaves <= before.stale_leaves + kvs.len()
        },
        Err(TreeError::MissingNode(missing)) => {
            &&& left_behind(u, key, before, after)
            &&& exists|n: u8|
                n < 16 && #[trigger] bucket(kvs, key.path.len(), n).len() > 0 && child_misses(
                    store,
                    key,
                    slots,
                    kvs,
                    n,
                    missing@,
                )
        },
        Err(TreeError::Storage(error)) => {
            &&& left_behind(u, key, before, after)
            &&& exists|n: u8|
                n < 16 && #[trigger] bucket(kvs, key.path.len(), n).len() > 0 && child_fails(
                    reader,
                    key,
                    slots,
                    kvs,
                    n,
                    error,
                )
        },
        Err(_) => false,
    }
}

/// A node that is missing below the children of a node is not that node.
proof fn lemma_missing_below<'b, K>(
    store: Store<K>,
    key: NodeKeyView,
    slots: Seq<Option<Child>>,
    kvs: Seq<KeyValue<'b, K>>,
    missing: NodeKeyView,
)
    requires
        key.path.len() < 64,
        exists|n: u8|
            n < 16 && #[trigger] bucket(kvs, key.path.len(), n).len() > 0 && child_misses(
                store,
                key,
                slots,
                kvs,
                n,
                missing,
            ),
    ensures
        missing != key,
{
    let n = choose|n: u8|
        n < 16 && #[trigger] bucket(kvs, key.path.len(), n).len() > 0 && child_misses(
            store,
            key,
            slots,
            kvs,
            n,
            missing,
        );
    let next = child_key(key, slots[n as int].unwrap(), n);
    lemma_missing_place(store, next, bucket(kvs, key.path.len(), n), missing);
}

impl<'a, R, K> JellyfishMerkleTree<'a, R, K> where R: 'a + TreeReader<K> + Sync, K: Key {
    /// Writes what becomes of the node at `node_key` and of the nodes below it when `kvs` are put
    /// there.
    #[verifier::loop_isolation(false)]
    pub(crate) fn batch_insert_at<'b>(
        &self,
        node_key: NodeKey,
        version: Version,
        kvs: &[KeyValue<'b, K>],
        depth: usize,
        hash_cache: Option<&NodeHashes>,
        batch: &mut TreeUpdateBatch<K>,
    ) -> (r: Result<(NodeKey, Node<K>), TreeError>)
        requires
            node_key@.path.len() == depth,
            sorted(kvs@),
            all_under(kvs@, node_key@.path),
            cache_wf(hash_cache),
            insertable(self.store(), update_of(version, hash_cache), node_key@, kvs@),
            old(batch)@.wf(),
            old(batch)@.new_leaves + 2 * kvs@.len() <= usize::MAX,
            old(batch)@.stale_leaves + kvs@.len() <= usize::MAX,
        ensures
            match r {
                Ok((new_key, node)) => {
                    let u = update_of(version, hash_cache);
                    &&& complete(self.store(), node_key@, kvs@)
                    &&& new_key@ == u.key(node_key@.path)
                    &&& node@ == inserted(self.store(), u, node_key@, kvs@)
                    &&& final(batch)@ == old(batch)@.absorb(
                        insert_changes(self.store(), u, node_key@, kvs@),
                    )
                    &&& final(batch)@.new_leaves <= old(batch)@.new_leaves + 2 * kvs@.len()
                    &&& final(batch)@.stale_leaves <= old(batch)@.stale_leaves + kvs@.len()
                },
                Err(TreeError::MissingNode(missing)) => {
                    &&& misses(self.store(), node_key@, kvs@, missing@)
                    &&& if missing@ == node_key@ {
                        *final(batch) == *old(batch)
                    } else {
                        left_behind(
                            update_of(version, hash_cache),
                            node_key@,
                            old(batch)@,
                            final(batch)@,
                        )
                    }
                },
                Err(TreeError::Storage(error)) => {
                    ||| self.reader.may_fail_with(node_key@, error) && *final(batch) == *old(batch)
                    ||| fails_below(self.reader, node_key@, kvs@, error) && left_behind(
                        update_of(version, hash_cache),
                        node_key@,
                        old(batch)@,
                        final(batch)@,
                    )
                },
                Err(_) => false,
            },
        decreases 64 - depth, 3int,
    {
        let ghost u = update_of(version, hash_cache);
        let ghost store = self.store();
        let ghost key = node_key@;
        let ghost path = node_key@.path;
        let ghost start = batch@;
        let node: Node<K> = match self.reader.get_node(&node_key) {
            Ok(node) => node,
            Err(error) => {
                return Err(error);
            },
        };
        let mut new_key: NodeKey = node_key.clone();
        new_key.set_version(version);
        match node {
            Node::Internal(internal_node) => {
                let ghost slots = internal_node@;
                let updated = if depth <= MAX_PARALLELIZABLE_DEPTH {
                    self.update_children_in_parallel(
                        &node_key,
                        &internal_node,
                        version,
                        kvs,
                        depth,
                        hash_cache,
                        batch,
                    )
                } else {
                    self.update_children(
                        &node_key,
                        &internal_node,
                        version,
                        kvs,
                        depth,
                        hash_cache,
                        batch,
                    )
                };
                let children: Children = match updated {
                    Ok(children) => children,
                    Err(error) => {
                        proof {
                            if let TreeError::MissingNode(missing) = &error {
                                lemma_missing_below(store, key, slots, kvs@, missing@);
                            }
                        }
                        return Err(error);
                    },
                };
                let ghost below = insert_changes_below(store, u, key, slots, kvs@, 16);
                proof {
                    lemma_changes_below_wf(store, u, key, slots, kvs@, 16);
                    assert(children@ =~= inserted(store, u, key, kvs@)->Internal_0);
                    lemma_absorb_with(
                        start,
                        below,
                        seq![(u.key(path), inserted(store, u, key, kvs@))],
                        0,
                    );
                }
                let new_internal_node = InternalNode::new(children);
                batch.put_node(new_key.clone(), Node::Internal(new_internal_node));
                Ok((new_key, Node::Internal(new_internal_node)))
            },
            Node::Leaf(leaf_node) => {
                batch.put_stale_node(node_key.clone(), version);
                batch.inc_num_stale_leaves();
                proof {
                    let entries = built_entries(u, Some(leaf_node), kvs@, path);
                    let leaves = built_leaves(Some(leaf_node), kvs@);
                    let stale = outdated::<K>(u, key).with_stale_leaves(1);
                    assert(batch@ =~~= start.absorb(stale));
                    lemma_absorb_with(start, stale, entries, leaves);
                }
                let (new_key, new_node) = batch_create_subtree_with_existing_leaf(
                    new_key,
                    version,
                    leaf_node,
                    kvs,
                    depth,
                    hash_cache,
                    batch,
                );
                Ok((new_key, new_node))
            },
        }
    }

    /// Writes what becomes of the children of the node at `node_key` when `kvs` are put below them, one
    /// child after the other.
    #[verifier::loop_isolation(false)]
    fn update_children<'b>(
        &self,
        node_key: &NodeKey,
        internal_node: &InternalNode,
        version: Version,
        kvs: &[KeyValue<'b, K>],
        depth: usize,
        hash_cache: Option<&NodeHashes>,
        batch: &mut TreeUpdateBatch<K>,
    ) -> (r: Result<Children, TreeError>)
        requires
            node_key@.path.len() == depth,
            depth < 64,
            depth > MAX_PARALLELIZABLE_DEPTH,
            sorted(kvs@),
            all_under(kvs@, node_key@.path),
            cache_wf(hash_cache),
            forall|n: u8|
                n < 16 && #[trigger] bucket(kvs@, depth as nat, n).len() > 0 ==> child_insertable(
                    self.store(),
                    update_of(version, hash_cache),
                    node_key@,
                    internal_node@,
                    kvs@,
                    n,
                ),
            old(batch)@.wf(),
            old(batch)@.new_leaves + 2 * kvs@.len() <= usize::MAX,
            old(batch)@.stale_leaves + kvs@.len() <= usize::MAX,
        ensures
            is_children_update(
                self.reader,
                update_of(version, hash_cache),
                node_key@,
                internal_node@,
                kvs@,
                old(batch)@,
                final(batch)@,
                r,
            ),
        decreases 64 - depth, 1int,
    {
        let ghost u = update_of(version, hash_cache);
        let ghost store = self.store();
        let ghost key = node_key@;
        let ghost path = node_key@.path;
        let ghost slots = internal_node@;
        let ghost start = batch@;
        batch.put_stale_node(node_key.clone(), version);
        proof {
            lemma_rising(kvs@, path);
            assert(batch@ =~~= start.absorb(outdated(u, key)));
        }
        let ghost marked = batch@;
        // Reuse the current `InternalNode` in memory to create a new internal node.
        let mut children: Children = internal_node.children;
        // Traverse all the path touched by `kvs` from this internal node.
        let ranges = nibble_ranges(kvs, depth);
        let mut i: usize = 0;
        while i < ranges.len()
            invariant
                i <= ranges.len(),
                children@.len() == 16,
                0 <= nibble_after(kvs@, depth as nat, ranges@, i as int) <= 16,
                forall|m: int|
                    0 <= m < 16 ==> #[trigger] children@[m] == if m < nibble_after(
                        kvs@,
                        depth as nat,
                        ranges@,
                        i as int,
                    ) {
                        inserted_child(store, u, key, slots, kvs@, m as u8)
                    } else {
                        slots[m]
                    },
                batch@ == start.absorb(
                    insert_changes_below(
                        store,
                        u,
                        key,
                        slots,
                        kvs@,
                        nibble_after(kvs@, depth as nat, ranges@, i as int) as nat,
                    ),
                ),
                first_children_complete(
                    store,
                    key,
                    slots,
                    kvs@,
                    nibble_after(kvs@, depth as nat, ranges@, i as int) as nat,
                ),
                marked.grows_to(batch@),
                batch@.new_leaves <= start.new_leaves + 2 * if i == 0 {
                    0
                } else {
                    ranges@[i - 1].1 + 1
                },
                batch@.stale_leaves <= start.stale_leaves + if i == 0 {
                    0
                } else {
                    ranges@[i - 1].1 + 1
                },
            decreases ranges.len() - i,
        {
            let (left, right) = ranges[i];
            let ghost n = range_nibble(kvs@, depth as nat, ranges@, i as int);
            let ghost lo = nibble_after(kvs@, depth as nat, ranges@, i as int);
            let ghost below = insert_changes_below(store, u, key, slots, kvs@, n as nat);
            proof {
                lemma_range_step(kvs@, path, ranges@, i as int);
                lemma_skip_changes(store, u, key, slots, kvs@, lo as nat, n as nat);
                lemma_changes_below_wf(store, u, key, slots, kvs@, n as nat);
                lemma_child_changes_wf(store, u, key, slots, kvs@, n);
                lemma_absorb_associative(start, below, child_changes(store, u, key, slots, kvs@, n));
            }
            let ghost before = children@;
            let ghost done = batch@;
            assert(bucket(kvs@, depth as nat, n).len() > 0);
            proof {
                lemma_absorb_grows(marked, done, child_changes(store, u, key, slots, kvs@, n));
                if let Some(child) = slots[n as int] {
                    lemma_absorb_grows(marked, done, outdated(u, child_key(key, child, n)));
                }
            }
            match self.insert_at_child(
                node_key,
                internal_node,
                version,
                kvs,
                left,
                right,
                depth,
                hash_cache,
                batch,
            ) {
                Ok((nibble, child)) => {
                    children.insert(nibble, child);
                },
                Err(error) => {
                    proof {
                        let stale = outdated(u, child_key(key, slots[n as int].unwrap(), n));
                        if batch@ != done {
                            lemma_changes_grow_twice(marked, done.absorb(stale), batch@);
                        }
                    }
                    return Err(error);
                },
            }
            proof {
                assert forall|m: int| 0 <= m < 16 implies #[trigger] children@[m] == if m < n + 1 {
                    inserted_child(store, u, key, slots, kvs@, m as u8)
                } else {
                    slots[m]
                } by {
                    if m != n {
                        assert(children@[m] == before[m]);
                        if lo <= m < n {
                            assert(bucket(kvs@, depth as nat, m as u8).len() == 0);
                        }
                    }
                }
                assert forall|m: u8|
                    m < n + 1 && #[trigger] bucket(kvs@, depth as nat, m).len()
                        > 0 implies child_complete(store, key, slots, kvs@, m) by {
                    if lo <= m < n {
                        assert(bucket(kvs@, depth as nat, m).len() == 0);
                    }
                }
            }
            i += 1;
        }
        proof {
            lemma_between_ranges(kvs@, depth as nat, ranges@, i as int);
            lemma_last_range(kvs@, depth as nat, ranges@);
            let lo = nibble_after(kvs@, depth as nat, ranges@, i as int);
            lemma_skip_changes(store, u, key, slots, kvs@, lo as nat, 16);
            assert forall|m: int| 0 <= m < 16 implies #[trigger] children@[m] == inserted_child(
                store,
                u,
                key,
                slots,
                kvs@,
                m as u8,
            ) by {
                if m >= lo {
                    assert(bucket(kvs@, depth as nat, m as u8).len() == 0);
                }
            }
            assert forall|m: u8|
                m < 16 && #[trigger] bucket(kvs@, depth as nat, m).len() > 0 implies child_complete(
                store,
                key,
                slots,
                kvs@,
                m,
            ) by {
                if m >= lo {
                    assert(bucket(kvs@, depth as nat, m).len() == 0);
                }
            }
        }
        Ok(children)
    }

    /// Does what [`update_children`](Self::update_children) does, all children at the same time, and
    /// keeps the changes below each of them apart.
    #[verifier::loop_isolation(false)]
    fn update_children_in_parallel<'b>(
        &self,
        node_key: &NodeKey,
        internal_node: &InternalNode,
        version: Version,
        kvs: &[KeyValue<'b, K>],
        depth: usize,
        hash_cache: Option<&NodeHashes>,
        batch: &mut TreeUpdateBatch<K>,
    ) -> (r: Result<Children, TreeError>)
        requires
            node_key@.path.len() == depth,
            depth < 64,
            depth <= MAX_PARALLELIZABLE_DEPTH,
            sorted(kvs@),
            all_under(kvs@, node_key@.path),
            cache_wf(hash_cache),
            forall|n: u8|
                n < 16 && #[trigger] bucket(kvs@, depth as nat, n).len() > 0 ==> child_insertable(
                    self.store(),
                    update_of(version, hash_cache),
                    node_key@,
                    internal_node@,
                    kvs@,
                    n,
                ),
            old(batch)@.wf(),
            old(batch)@.new_leaves + 2 * kvs@.len() <= usize::MAX,
            old(batch)@.stale_leaves + kvs@.len() <= usize::MAX,
        ensures
            is_children_update(
                self.reader,
                update_of(version, hash_cache),
                node_key@,
                internal_node@,
                kvs@,
                old(batch)@,
                final(batch)@,
                r,
            ),
        decreases 64 - depth, 2int,
    {
        let ghost u = update_of(version, hash_cache);
        let ghost store = self.store();
        let ghost key = node_key@;
        let ghost path = node_key@.path;
        let ghost slots = internal_node@;
        let ghost start = batch@;
        batch.put_stale_node(node_key.clone(), version);
        proof {
            lemma_rising(kvs@, path);
            assert(batch@ =~~= start.absorb(outdated(u, key)));
        }
        // Reuse the current `InternalNode` in memory to create a new internal node.
        let mut children: Children = internal_node.children;
        // Traverse all the path touched by `kvs` from this internal node.
        let ranges = nibble_ranges(kvs, depth);
        let insert = |range: &(usize, usize)| -> (r: Result<
            ((Nibble, Child), TreeUpdateBatch<K>),
            TreeError,
        >)
            requires
                is_group(kvs@, node_key@.path, *range),
            ensures
                is_child_update(
                    self.reader,
                    update_of(version, hash_cache),
                    node_key@,
                    internal_node@,
                    kvs@,
                    *range,
                    r,
                ),
            {
                assert(bucket(
                    kvs@,
                    depth as nat,
                    kvs@[range.0 as int].0.nibble_at(depth as int),
                ).len() > 0);
                self.update_child(
                    node_key,
                    internal_node,
                    version,
                    kvs,
                    range.0,
                    range.1,
                    depth,
                    hash_cache,
                )
            };
        assert forall|i: int| 0 <= i < ranges@.len() implies is_group(
            kvs@,
            path,
            #[trigger] ranges@[i],
        ) by {
            lemma_range_step(kvs@, path, ranges@, i);
        }
        let results = match par_map(&ranges, insert) {
            Ok(results) => results,
            Err(error) => {
                proof {
                    let i = choose|i: int|
                        0 <= i < ranges@.len() && call_ensures(
                            insert,
                            (&#[trigger] ranges@[i],),
                            Err::<((Nibble, Child), TreeUpdateBatch<K>), TreeError>(error),
                        );
                    lemma_range_step(kvs@, path, ranges@, i);
                    assert(bucket(
                        kvs@,
                        depth as nat,
                        range_nibble(kvs@, depth as nat, ranges@, i),
                    ).len() > 0);
                }
                return Err(error);
            },
        };
        let ghost all = results@;
        assert forall|j: int| 0 <= j < all.len() implies is_child_update(
            self.reader,
            u,
            key,
            slots,
            kvs@,
            ranges@[j],
            Ok(#[trigger] all[j]),
        ) by {
            assert(call_ensures(insert, (&ranges@[j],), Ok(results@[j])));
        }
        let mut i: usize = 0;
        for result in iter: results
            invariant
                i == iter.index(),
                iter.seq() == all,
                i <= ranges@.len(),
                children@.len() == 16,
                0 <= nibble_after(kvs@, depth as nat, ranges@, i as int) <= 16,
                forall|m: int|
                    0 <= m < 16 ==> #[trigger] children@[m] == if m < nibble_after(
                        kvs@,
                        depth as nat,
                        ranges@,
                        i as int,
                    ) {
                        inserted_child(store, u, key, slots, kvs@, m as u8)
                    } else {
                        slots[m]
                    },
                batch@ == start.absorb(
                    insert_changes_below(
                        store,
                        u,
                        key,
                        slots,
                        kvs@,
                        nibble_after(kvs@, depth as nat, ranges@, i as int) as nat,
                    ),
                ),
                first_children_complete(
                    store,
                    key,
                    slots,
                    kvs@,
                    nibble_after(kvs@, depth as nat, ranges@, i as int) as nat,
                ),
                batch@.new_leaves <= start.new_leaves + 2 * if i == 0 {
                    0
                } else {
                    ranges@[i - 1].1 + 1
                },
                batch@.stale_leaves <= start.stale_leaves + if i == 0 {
                    0
                } else {
                    ranges@[i - 1].1 + 1
                },
        {
            assert(result == all[i as int]);
            assert(i < ranges.len());
            let ghost n = range_nibble(kvs@, depth as nat, ranges@, i as int);
            let ghost lo = nibble_after(kvs@, depth as nat, ranges@, i as int);
            let ghost below = insert_changes_below(store, u, key, slots, kvs@, n as nat);
            proof {
                lemma_range_step(kvs@, path, ranges@, i as int);
                lemma_skip_changes(store, u, key, slots, kvs@, lo as nat, n as nat);
                lemma_changes_below_wf(store, u, key, slots, kvs@, n as nat);
                lemma_child_changes_wf(store, u, key, slots, kvs@, n);
                lemma_absorb_combine(start, below, child_changes(store, u, key, slots, kvs@, n));
            }
            let ghost before = children@;
            let ((nibble, child), sub_batch) = result;
            children.insert(nibble, child);
            batch.combine(sub_batch);
            proof {
                assert forall|m: int| 0 <= m < 16 implies #[trigger] children@[m] == if m < n + 1 {
                    inserted_child(store, u, key, slots, kvs@, m as u8)
                } else {
                    slots[m]
                } by {
                    if m != n {
                        assert(children@[m] == before[m]);
                        if lo <= m < n {
                            assert(bucket(kvs@, depth as nat, m as u8).len() == 0);
                        }
                    }
                }
                assert forall|m: u8|
                    m < n + 1 && #[trigger] bucket(kvs@, depth as nat, m).len()
                        > 0 implies child_complete(store, key, slots, kvs@, m) by {
                    if lo <= m < n {
                        assert(bucket(kvs@, depth as nat, m).len() == 0);
                    }
                }
            }
            i += 1;
        }
        proof {
            lemma_between_ranges(kvs@, depth as nat, ranges@, i as int);
            lemma_last_range(kvs@, depth as nat, ranges@);
            let lo = nibble_after(kvs@, depth as nat, ranges@, i as int);
            lemma_skip_changes(store, u, key, slots, kvs@, lo as nat, 16);
            assert forall|m: int| 0 <= m < 16 implies #[trigger] children@[m] == inserted_child(
                store,
                u,
                key,
                slots,
                kvs@,
                m as u8,
            ) by {
                if m >= lo {
                    assert(bucket(kvs@, depth as nat, m as u8).len() == 0);
                }
            }
            assert forall|m: u8|
                m < 16 && #[trigger] bucket(kvs@, depth as nat, m).len() > 0 implies child_complete(
                store,
                key,
                slots,
                kvs@,
                m,
            ) by {
                if m >= lo {
                    assert(bucket(kvs@, depth as nat, m).len() == 0);
                }
            }
        }
        Ok(children)
    }

    /// Does what [`insert_at_child`](Self::insert_at_child) does with a batch of its own.
    fn update_child<'b>(
        &self,
        node_key: &NodeKey,
        internal_node: &InternalNode,
        version: Version,
        kvs: &[KeyValue<'b, K>],
        left: usize,
        right: usize,
        depth: usize,
        hash_cache: Option<&NodeHashes>,
    ) -> (r: Result<((Nibble, Child), TreeUpdateBatch<K>), TreeError>)
        requires
            node_key@.path.len() == depth,
            depth < 64,
            kvs@.len() <= usize::MAX / 2,
            is_group(kvs@, node_key@.path, (left, right)),
            cache_wf(hash_cache),
            child_insertable(
                self.store(),
                update_of(version, hash_cache),
                node_key@,
                internal_node@,
                kvs@,
                kvs@[left as int].0.nibble_at(depth as int),
            ),
        ensures
            is_child_update(
                self.reader,
                update_of(version, hash_cache),
                node_key@,
                internal_node@,
                kvs@,
                (left, right),
                r,
            ),
        decreases 64 - depth, 1int,
    {
        let mut sub_batch: TreeUpdateBatch<K> = TreeUpdateBatch::new();
        proof {
            let u = update_of(version, hash_cache);
            let n = kvs@[left as int].0.nibble_at(depth as int);
            lemma_child_changes_wf(self.store(), u, node_key@, internal_node@, kvs@, n);
            lemma_absorb_none(
                child_changes(self.store(), u, node_key@, internal_node@, kvs@, n),
            );
        }
        match self.insert_at_child(
            node_key,
            internal_node,
            version,
            kvs,
            left,
            right,
            depth,
            hash_cache,
            &mut sub_batch,
        ) {
            Ok(new_child) => Ok((new_child, sub_batch)),
            Err(error) => Err(error),
        }
    }

    /// Writes what becomes of one child of the node at `node_key` when those of `kvs` that belong
    /// there are put below it, and returns the new child.
    fn insert_at_child<'b>(
        &self,
        node_key: &NodeKey,
        internal_node: &InternalNode,
        version: Version,
        kvs: &[KeyValue<'b, K>],
        left: usize,
        right: usize,
        depth: usize,
        hash_cache: Option<&NodeHashes>,
        batch: &mut TreeUpdateBatch<K>,
    ) -> (r: Result<(Nibble, Child), TreeError>)
        requires
            node_key@.path.len() == depth,
            depth < 64,
            is_group(kvs@, node_key@.path, (left, right)),
            cache_wf(hash_cache),
            child_insertable(
                self.store(),
                update_of(version, hash_cache),
                node_key@,
                internal_node@,
                kvs@,
                kvs@[left as int].0.nibble_at(depth as int),
            ),
            old(batch)@.wf(),
            old(batch)@.new_leaves + 2 * (right + 1 - left) <= usize::MAX,
            old(batch)@.stale_leaves + right + 1 - left <= usize::MAX,
        ensures
            ({
                let u = update_of(version, hash_cache);
                let n = kvs@[left as int].0.nibble_at(depth as int);
                match r {
                    Ok((nibble, child)) => {
                        &&& nibble.value == n
                        &&& Some(child) == inserted_child(
                            self.store(),
                            u,
                            node_key@,
                            internal_node@,
                            kvs@,
                            n,
                        )
                        &&& child_complete(self.store(), node_key@, internal_node@, kvs@, n)
                        &&& final(batch)@ == old(batch)@.absorb(
                            child_changes(
                                self.store(),
                                u,
                                node_key@,
                                internal_node@,
                                kvs@,
                                n,
                            ),
                        )
                        &&& final(batch)@.new_leaves <= old(batch)@.new_leaves + 2 * (right + 1
                            - left)
                        &&& final(batch)@.stale_leaves <= old(batch)@.stale_leaves + right + 1
                            - left
                    },
                    Err(TreeError::MissingNode(missing)) => {
                        let next = child_key(node_key@, internal_node@[n as int].unwrap(), n);
                        &&& misses_below(
                            self.store(),
                            node_key@,
                            internal_node@,
                            kvs@,
                            n,
                            missing@,
                        )
                        &&& if missing@ == next {
                            *final(batch) == *old(batch)
                        } else {
                            left_behind(u, next, old(batch)@, final(batch)@)
                        }
                    },
                    Err(TreeError::Storage(error)) => {
                        let next = child_key(node_key@, internal_node@[n as int].unwrap(), n);
                        &&& internal_node@[n as int] is Some
                        &&& {
                            ||| self.reader.may_fail_with(next, error) && *final(batch) == *old(
                                batch,
                            )
                            ||| fails_below(self.reader, next, bucket(kvs@, depth as nat, n), error)
                                && left_behind(u, next, old(batch)@, final(batch)@)
                        }
                    },
                    Err(_) => false,
                }
            }),
        decreases 64 - depth, 0int,
    {
        let ghost u = update_of(version, hash_cache);
        let ghost store = self.store();
        let child_index: Nibble = kvs[left].0.get_nibble(depth);
        let ghost n = child_index.value;
        let group: &[KeyValue<'b, K>] = vstd::slice::slice_subrange(kvs, left, right + 1);
        assert(group@ == bucket(kvs@, depth as nat, n));
        let ghost start = batch@;
        let (new_key, node) = match internal_node.child(child_index) {
            Some(child) => {
                let child_node_key = node_key.gen_child_node_key(child.version, child_index);
                match self.batch_insert_at(
                    child_node_key,
                    version,
                    group,
                    depth + 1,
                    hash_cache,
                    batch,
                ) {
                    Ok((new_key, node)) => (new_key, node),
                    Err(error) => {
                        return Err(error);
                    },
                }
            },
            None => {
                let child_node_key = node_key.gen_child_node_key(version, child_index);
                let created = batch_create_subtree(
                    child_node_key,
                    version,
                    group,
                    depth + 1,
                    hash_cache,
                    batch,
                );
                proof {
                    let entries = built_entries(u, None, group@, node_key@.path.push(n));
                    lemma_absorb_none(start);
                    lemma_absorb_with(start, Changes::none(), entries, group@.len());
                }
                created
            },
        };
        let hash: HashValue = get_hash(&new_key, &node, hash_cache);
        Ok((child_index, Child::new(hash, version, node.node_type())))
    }
}

} // verus!
