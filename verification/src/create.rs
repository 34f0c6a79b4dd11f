//! New subtrees.
use vstd::prelude::*;

use crate::batch::{lemma_with_nodes, TreeUpdateBatch};
use crate::hash::{lemma_nibble_range, HashValue};
use crate::nibble::Nibble;
use crate::node_type::{
    Child, Children, InternalNode, LeafNode, Node, NodeKey, NodeType, NodeView, Version,
};
use crate::ranges::{
    all_under, bucket, lemma_between_ranges, lemma_bucket, lemma_last_range, lemma_no_range,
    lemma_range, nibble_after, nibble_ranges, range_nibble,
};
use crate::reader::Key;
use crate::sorted::sorted;
use crate::tree::{cache_wf, update_of, NodeHashes};
use crate::update::{
    built, built_child, built_entries, built_entries_below, built_leaves, has_key, is_moved,
    knows_built, leaf_bucket, lemma_built_depth, lemma_built_logical, lemma_knows_below,
    lemma_range_step, lemma_rising, lemma_separable_below, lemma_skip_entries, moved_entry,
    separable, KeyValue,
};

verus! {

/// Get the node hash from the cache if exists, otherwise compute it.
pub(crate) fn get_hash<K>(
    node_key: &NodeKey,
    node: &Node<K>,
    hash_cache: Option<&NodeHashes>,
) -> (r: HashValue)
    requires
        cache_wf(hash_cache),
        update_of(0, hash_cache).knows(node_key@.path),
    ensures
        r == update_of(0, hash_cache).hash_of(node_key@.path, node@),
        match hash_cache {
            Some(hashes) => exists|i: int|
                0 <= i < hashes.entries@.len() && (#[trigger] hashes.entries@[i]).0@
                    == node_key@.path && hashes.entries@[i].1 == r,
            None => r == node@.hash(),
        },
{
    match hash_cache {
        Some(hashes) => match hashes.get(node_key.nibble_path()) {
            Some(hash) => *hash,
            None => node.hash(),
        },
        None => node.hash(),
    }
}

/// Writes the subtree that holds `kvs`, and the existing leaf too if `kvs` do not hold its key.
#[verifier::loop_isolation(false)]
pub(crate) fn batch_create_subtree_with_existing_leaf<'b, K: Key>(
    node_key: NodeKey,
    version: Version,
    existing_leaf_node: LeafNode<K>,
    kvs: &[KeyValue<'b, K>],
    depth: usize,
    hash_cache: Option<&NodeHashes>,
    batch: &mut TreeUpdateBatch<K>,
) -> (r: (NodeKey, Node<K>))
    requires
        node_key@.version == version,
        node_key@.path.len() == depth,
        kvs@.len() > 0,
        sorted(kvs@),
        all_under(kvs@, node_key@.path),
        separable(Some(existing_leaf_node), kvs@, depth as nat),
        cache_wf(hash_cache),
        knows_built(
            update_of(version, hash_cache),
            Some(existing_leaf_node),
            kvs@,
            node_key@.path,
        ),
        old(batch)@.wf(),
        old(batch)@.new_leaves + kvs@.len() + 1 <= usize::MAX,
    ensures
        r.0@ == node_key@,
        r.1@ == built(
            update_of(version, hash_cache),
            Some(existing_leaf_node),
            kvs@,
            node_key@.path,
        ),
        final(batch)@ == old(batch)@.with_nodes(
            built_entries(
                update_of(version, hash_cache),
                Some(existing_leaf_node),
                kvs@,
                node_key@.path,
            ),
        ).with_new_leaves(built_leaves(Some(existing_leaf_node), kvs@)),
    decreases 64 - depth,
{
    let ghost u = update_of(version, hash_cache);
    let ghost leaf = Some(existing_leaf_node);
    let ghost path = node_key@.path;
    let ghost start = batch@;
    let existing_leaf_key: HashValue = existing_leaf_node.account_key();
    if kvs.len() == 1 && kvs[0].0 == existing_leaf_key {
        let value_index = copy_new_index(&kvs[0].1.1, version);
        let new_leaf_node = Node::new_leaf(existing_leaf_key, kvs[0].1.0, value_index);
        batch.put_node(node_key.clone(), new_leaf_node.clone());
        batch.inc_num_new_leaves();
        assert(has_key(kvs@, existing_leaf_key));
        return (node_key, new_leaf_node);
    }
    proof {
        lemma_built_depth(leaf, kvs@, path);
        lemma_built_logical(u, leaf, kvs@, path);
        lemma_rising(kvs@, path);
        lemma_nibble_range(existing_leaf_key, depth as int);
    }
    let existing_leaf_bucket: Nibble = existing_leaf_key.get_nibble(depth);
    let mut isolated_existing_leaf: bool = true;
    let mut children = Children::new();
    let ranges = nibble_ranges(kvs, depth);
    let ghost mut extra: nat = 0;
    let mut i: usize = 0;
    assert(batch@ =~~= start.with_nodes(Seq::empty()).with_new_leaves(0));
    while i < ranges.len()
        invariant
            i <= ranges.len(),
            0 <= nibble_after(kvs@, depth as nat, ranges@, i as int) <= 16,
            children@.len() == 16,
            forall|m: int|
                0 <= m < 16 ==> #[trigger] children@[m] == if m < nibble_after(
                    kvs@,
                    depth as nat,
                    ranges@,
                    i as int,
                ) && bucket(kvs@, depth as nat, m as u8).len() > 0 {
                    built_child(u, leaf, kvs@, path, m as u8)
                } else {
                    None
                },
            batch@ == start.with_nodes(
                built_entries_below(
                    u,
                    leaf,
                    kvs@,
                    path,
                    nibble_after(kvs@, depth as nat, ranges@, i as int) as nat,
                ),
            ).with_new_leaves(
                if i == 0 {
                    0
                } else {
                    (ranges@[i - 1].1 + 1 + extra) as nat
                },
            ),
            i == 0 ==> isolated_existing_leaf,
            isolated_existing_leaf ==> extra == 0 && forall|r: int|
                0 <= r < i ==> #[trigger] range_nibble(kvs@, depth as nat, ranges@, r)
                    != existing_leaf_bucket.value,
            !isolated_existing_leaf ==> (exists|r: int|
                0 <= r < i && #[trigger] range_nibble(kvs@, depth as nat, ranges@, r)
                    == existing_leaf_bucket.value) && extra == if has_key(
                bucket(kvs@, depth as nat, existing_leaf_bucket.value),
                existing_leaf_key,
            ) {
                0nat
            } else {
                1nat
            },
        decreases ranges.len() - i,
    {
        let (left, right) = ranges[i];
        let ghost n = range_nibble(kvs@, depth as nat, ranges@, i as int);
        let ghost lo = nibble_after(kvs@, depth as nat, ranges@, i as int);
        let ghost before = batch@;
        let ghost count: nat = if i == 0 {
            0
        } else {
            (ranges@[i - 1].1 + 1 + extra) as nat
        };
        proof {
            lemma_range_step(kvs@, path, ranges@, i as int);
            lemma_separable_below(leaf, kvs@, depth as nat, n);
            lemma_skip_entries(u, leaf, kvs@, path, lo as nat, n as nat);
            lemma_knows_below(u, leaf, kvs@, path, n);
        }
        let child_index: Nibble = kvs[left].0.get_nibble(depth);
        let child_node_key: NodeKey = node_key.gen_child_node_key(version, child_index);
        let group: &[KeyValue<'b, K>] = vstd::slice::slice_subrange(kvs, left, right + 1);
        assert(group@ == bucket(kvs@, depth as nat, n));
        let (new_child_node_key, new_child_node) = if existing_leaf_bucket == child_index {
            proof {
                assert(isolated_existing_leaf) by {
                    if !isolated_existing_leaf {
                        let r = choose|r: int|
                            0 <= r < i && #[trigger] range_nibble(
                                kvs@,
                                depth as nat,
                                ranges@,
                                r,
                            ) == existing_leaf_bucket.value;
                        lemma_range(kvs@, depth as nat, ranges@, i as int);
                    }
                }
                extra = if has_key(bucket(kvs@, depth as nat, n), existing_leaf_key) {
                    0nat
                } else {
                    1nat
                };
                assert(range_nibble(kvs@, depth as nat, ranges@, i as int)
                    == existing_leaf_bucket.value);
            }
            isolated_existing_leaf = false;
            batch_create_subtree_with_existing_leaf(
                child_node_key,
                version,
                existing_leaf_node.clone(),
                group,
                depth + 1,
                hash_cache,
                batch,
            )
        } else {
            batch_create_subtree(child_node_key, version, group, depth + 1, hash_cache, batch)
        };
        let hash: HashValue = get_hash(&new_child_node_key, &new_child_node, hash_cache);
        let ghost slots = children@;
        children.insert(child_index, Child::new(hash, version, new_child_node.node_type()));
        proof {
            let added = built_entries(
                u,
                leaf_bucket(leaf, depth as nat, n),
                group@,
                path.push(n),
            );
            lemma_with_nodes(
                start,
                built_entries_below(u, leaf, kvs@, path, n as nat),
                count,
                added,
                built_leaves(leaf_bucket(leaf, depth as nat, n), group@),
            );
            assert(built_entries_below(u, leaf, kvs@, path, (n + 1) as nat)
                == built_entries_below(u, leaf, kvs@, path, n as nat) + added);
            assert(children@[n as int] == built_child(u, leaf, kvs@, path, n));
            assert forall|m: int| 0 <= m < 16 implies #[trigger] children@[m] == if m < n + 1
                && bucket(kvs@, depth as nat, m as u8).len() > 0 {
                built_child(u, leaf, kvs@, path, m as u8)
            } else {
                None
            } by {
                if m != n {
                    assert(children@[m] == slots[m]);
                    if lo <= m < n {
                        assert(bucket(kvs@, depth as nat, m as u8).len() == 0);
                    }
                }
            }
        }
        i += 1;
    }
    proof {
        lemma_between_ranges(kvs@, depth as nat, ranges@, i as int);
        lemma_last_range(kvs@, depth as nat, ranges@);
        let lo = nibble_after(kvs@, depth as nat, ranges@, i as int);
        lemma_skip_entries(u, leaf, kvs@, path, lo as nat, 16);
        lemma_bucket(kvs@, depth as nat, existing_leaf_bucket.value);
        assert(has_key(kvs@, existing_leaf_key) == has_key(
            bucket(kvs@, depth as nat, existing_leaf_bucket.value),
            existing_leaf_key,
        )) by {
            let b = bucket(kvs@, depth as nat, existing_leaf_bucket.value);
            if has_key(kvs@, existing_leaf_key) {
                let k = choose|k: int|
                    0 <= k < kvs@.len() && (#[trigger] kvs@[k]).0 == existing_leaf_key;
                assert(b.contains(kvs@[k]));
                let j = choose|j: int| 0 <= j < b.len() && b[j] == kvs@[k];
                assert(b[j].0 == existing_leaf_key);
            }
            if has_key(b, existing_leaf_key) {
                let j = choose|j: int| 0 <= j < b.len() && (#[trigger] b[j]).0
                    == existing_leaf_key;
                assert(kvs@.contains(b[j]));
                let k = choose|k: int| 0 <= k < kvs@.len() && kvs@[k] == b[j];
                assert(kvs@[k].0 == existing_leaf_key);
            }
        }
        assert(isolated_existing_leaf == is_moved(leaf, kvs@, depth as nat)) by {
            if isolated_existing_leaf {
                lemma_no_range(kvs@, depth as nat, ranges@, existing_leaf_bucket.value);
            } else {
                let r = choose|r: int|
                    0 <= r < i && #[trigger] range_nibble(kvs@, depth as nat, ranges@, r)
                        == existing_leaf_bucket.value;
                lemma_range(kvs@, depth as nat, ranges@, r);
                assert(bucket(kvs@, depth as nat, existing_leaf_bucket.value).len() > 0);
            }
        }
    }
    let ghost done = (ranges@[i - 1].1 + 1 + extra) as nat;
    let ghost below = built_entries_below(u, leaf, kvs@, path, 16);
    let ghost slots = children@;
    if isolated_existing_leaf {
        let existing_leaf_node_key: NodeKey = node_key.gen_child_node_key(
            version,
            existing_leaf_bucket,
        );
        children.insert(
            existing_leaf_bucket,
            Child::new(existing_leaf_node.hash(), version, NodeType::Leaf),
        );
        batch.inc_num_new_leaves();
        let ghost moved = (existing_leaf_node_key@, NodeView::Leaf(existing_leaf_node));
        batch.put_node(existing_leaf_node_key, Node::Leaf(existing_leaf_node));
        proof {
            lemma_with_nodes(start, below, done, seq![moved], 1);
            assert(batch@ == start.with_nodes(below + moved_entry(u, leaf, kvs@, path)).with_new_leaves(
                done + 1,
            ));
        }
    } else {
        assert(below + moved_entry(u, leaf, kvs@, path) =~= below);
    }
    let ghost total: nat = if isolated_existing_leaf {
        done + 1
    } else {
        done
    };
    assert(total == built_leaves(leaf, kvs@));
    proof {
        assert forall|m: int| 0 <= m < 16 implies #[trigger] children@[m] == built_child(
            u,
            leaf,
            kvs@,
            path,
            m as u8,
        ) by {
            if m == existing_leaf_bucket.value && isolated_existing_leaf {
            } else {
                assert(children@[m] == slots[m]);
                if m >= nibble_after(kvs@, depth as nat, ranges@, i as int) {
                    assert(bucket(kvs@, depth as nat, m as u8).len() == 0);
                }
            }
        }
        assert(children@ =~= built(u, leaf, kvs@, path)->Internal_0);
    }
    let new_internal_node = InternalNode::new(children);
    let ghost own = (node_key@, NodeView::<K>::Internal(new_internal_node@));
    batch.put_node(node_key.clone(), Node::Internal(new_internal_node));
    proof {
        lemma_with_nodes(
            start,
            below + moved_entry(u, leaf, kvs@, path),
            total,
            seq![own],
            0,
        );
    }
    (node_key, Node::Internal(new_internal_node))
}

/// Where a new value is to be found.
fn copy_new_index<K: Key>(key: &K, version: Version) -> (r: (K, Version))
    ensures
        r == (*key, version),
{
    let copy = key.clone();
    proof {
        K::clone_is_faithful(*key, copy);
    }
    (copy, version)
}

/// Writes the subtree that holds `kvs`.
#[verifier::loop_isolation(false)]
pub(crate) fn batch_create_subtree<'b, K: Key>(
    node_key: NodeKey,
    version: Version,
    kvs: &[KeyValue<'b, K>],
    depth: usize,
    hash_cache: Option<&NodeHashes>,
    batch: &mut TreeUpdateBatch<K>,
) -> (r: (NodeKey, Node<K>))
    requires
        node_key@.version == version,
        node_key@.path.len() == depth,
        kvs@.len() > 0,
        sorted(kvs@),
        all_under(kvs@, node_key@.path),
        cache_wf(hash_cache),
        knows_built(update_of(version, hash_cache), None, kvs@, node_key@.path),
        old(batch)@.wf(),
        old(batch)@.new_leaves + kvs@.len() <= usize::MAX,
    ensures
        r.0@ == node_key@,
        r.1@ == built(update_of(version, hash_cache), None, kvs@, node_key@.path),
        final(batch)@ == old(batch)@.with_nodes(
            built_entries(update_of(version, hash_cache), None, kvs@, node_key@.path),
        ).with_new_leaves(kvs@.len()),
    decreases 64 - depth,
{
    let ghost u = update_of(version, hash_cache);
    let ghost leaf = None::<LeafNode<K>>;
    let ghost path = node_key@.path;
    let ghost start = batch@;
    if kvs.len() == 1 {
        let value_index = copy_new_index(&kvs[0].1.1, version);
        let new_leaf_node = Node::new_leaf(kvs[0].0, kvs[0].1.0, value_index);
        batch.put_node(node_key.clone(), new_leaf_node.clone());
        batch.inc_num_new_leaves();
        return (node_key, new_leaf_node);
    }
    proof {
        assert(separable(leaf, kvs@, depth as nat)) by {
            reveal(separable);
        }
        lemma_built_depth(leaf, kvs@, path);
        lemma_built_logical(u, leaf, kvs@, path);
        lemma_rising(kvs@, path);
    }
    let mut children = Children::new();
    let ranges = nibble_ranges(kvs, depth);
    let mut i: usize = 0;
    assert(batch@ =~~= start.with_nodes(Seq::empty()).with_new_leaves(0));
    while i < ranges.len()
        invariant
            i <= ranges.len(),
            0 <= nibble_after(kvs@, depth as nat, ranges@, i as int) <= 16,
            children@.len() == 16,
            forall|m: int|
                0 <= m < 16 ==> #[trigger] children@[m] == if m < nibble_after(
                    kvs@,
                    depth as nat,
                    ranges@,
                    i as int,
                ) {
                    built_child(u, leaf, kvs@, path, m as u8)
                } else {
                    None
                },
            batch@ == start.with_nodes(
                built_entries_below(
                    u,
                    leaf,
                    kvs@,
                    path,
                    nibble_after(kvs@, depth as nat, ranges@, i as int) as nat,
                ),
            ).with_new_leaves(
                if i == 0 {
                    0
                } else {
                    (ranges@[i - 1].1 + 1) as nat
                },
            ),
        decreases ranges.len() - i,
    {
        let (left, right) = ranges[i];
        let ghost n = range_nibble(kvs@, depth as nat, ranges@, i as int);
        let ghost lo = nibble_after(kvs@, depth as nat, ranges@, i as int);
        let ghost count: nat = if i == 0 {
            0
        } else {
            (ranges@[i - 1].1 + 1) as nat
        };
        proof {
            lemma_range_step(kvs@, path, ranges@, i as int);
            lemma_skip_entries(u, leaf, kvs@, path, lo as nat, n as nat);
            lemma_knows_below(u, leaf, kvs@, path, n);
        }
        let child_index: Nibble = kvs[left].0.get_nibble(depth);
        let child_node_key: NodeKey = node_key.gen_child_node_key(version, child_index);
        let group: &[KeyValue<'b, K>] = vstd::slice::slice_subrange(kvs, left, right + 1);
        assert(group@ == bucket(kvs@, depth as nat, n));
        let (new_child_node_key, new_child_node) = batch_create_subtree(
            child_node_key,
            version,
            group,
            depth + 1,
            hash_cache,
            batch,
        );
        let hash: HashValue = get_hash(&new_child_node_key, &new_child_node, hash_cache);
        let ghost slots = children@;
        children.insert(child_index, Child::new(hash, version, new_child_node.node_type()));
        proof {
            let added = built_entries(u, leaf, group@, path.push(n));
            lemma_with_nodes(
                start,
                built_entries_below(u, leaf, kvs@, path, n as nat),
                count,
                added,
                group@.len(),
            );
            assert(built_entries_below(u, leaf, kvs@, path, (n + 1) as nat)
                == built_entries_below(u, leaf, kvs@, path, n as nat) + added);
            assert(children@[n as int] == built_child(u, leaf, kvs@, path, n));
            assert forall|m: int| 0 <= m < 16 implies #[trigger] children@[m] == if m < n + 1 {
                built_child(u, leaf, kvs@, path, m as u8)
            } else {
                None
            } by {
                if m != n {
                    assert(children@[m] == slots[m]);
                    if lo <= m < n {
                        assert(bucket(kvs@, depth as nat, m as u8).len() == 0);
                    }
                }
            }
        }
        i += 1;
    }
    let ghost below = built_entries_below(u, leaf, kvs@, path, 16);
    proof {
        lemma_between_ranges(kvs@, depth as nat, ranges@, i as int);
        lemma_last_range(kvs@, depth as nat, ranges@);
        let lo = nibble_after(kvs@, depth as nat, ranges@, i as int);
        lemma_skip_entries(u, leaf, kvs@, path, lo as nat, 16);
        assert forall|m: int| 0 <= m < 16 implies #[trigger] children@[m] == built_child(
            u,
            leaf,
            kvs@,
            path,
            m as u8,
        ) by {
            if m >= lo {
                assert(bucket(kvs@, depth as nat, m as u8).len() == 0);
            }
        }
        assert(children@ =~= built(u, leaf, kvs@, path)->Internal_0);
        assert(below + moved_entry(u, leaf, kvs@, path) =~= below);
    }
    let new_internal_node = InternalNode::new(children);
    let ghost own = (node_key@, NodeView::<K>::Internal(new_internal_node@));
    batch.put_node(node_key.clone(), Node::Internal(new_internal_node));
    proof {
        lemma_with_nodes(start, below, kvs@.len(), seq![own], 0);
    }
    (node_key, Node::Internal(new_internal_node))
}

} // verus!
