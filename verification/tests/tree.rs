use bsmt::batch::TreeUpdateBatch;
use bsmt::hash::{hash_binary, hash_leaf, hash_placeholder, HashValue};
use bsmt::merkle_proof::{SparseMerkleLeafNode, SparseMerkleProof};
use bsmt::mock_tree_store::MockTreeStore;
use bsmt::nibble::{Nibble, NibblePath};
use bsmt::node_type::{
    Child, Children, InternalNode, LeafNode, Node, NodeKey, NodeType, Version,
};
use bsmt::reader::{node_of, MissingRootError, StorageError, TreeError, TreeReader};
use bsmt::tree::{
    hash_option_of, lookup_failure, range_proof_of, root_of, JellyfishMerkleTree, NodeHashes,
};
use std::collections::{BTreeMap, HashMap, HashSet};

type Tree<'a, R> = JellyfishMerkleTree<'a, R, u64>;
type Value = (HashValue, u64);

fn hex(hash: HashValue) -> String {
    hash.to_vec().iter().map(|b| format!("{:02x}", b)).collect()
}

fn path(nibbles: &[u8]) -> NibblePath {
    NibblePath {
        nibbles: nibbles.to_vec(),
    }
}

fn key(nibbles: &[u8]) -> HashValue {
    let mut bytes = [0u8; 32];
    for (i, n) in nibbles.iter().enumerate() {
        bytes[i / 2] |= if i % 2 == 0 { n << 4 } else { *n };
    }
    HashValue::new(bytes)
}

fn value(n: u8) -> Value {
    (HashValue::sha3_256_of(&[n]), n as u64)
}

fn number(seed: u64) -> u64 {
    let bytes = HashValue::sha3_256_of(&seed.to_le_bytes()).hash;
    u64::from_le_bytes([
        bytes[0], bytes[1], bytes[2], bytes[3], bytes[4], bytes[5], bytes[6], bytes[7],
    ])
}

/// A store that can lose nodes, fail, or make up nodes.
struct Shaky {
    nodes: HashMap<NodeKey, Node<u64>>,
    fails_at: Option<NodeKey>,
    endless: Option<Node<u64>>,
}

impl Shaky {
    fn new() -> Self {
        Shaky {
            nodes: HashMap::new(),
            fails_at: None,
            endless: None,
        }
    }

    fn write(&mut self, batch: &TreeUpdateBatch<u64>) {
        for (node_key, node) in batch.node_batch.iter().flatten() {
            let before = self.nodes.insert(node_key.clone(), node.clone());
            assert!(before.is_none());
        }
    }

    fn prune(&mut self, batch: &TreeUpdateBatch<u64>) {
        for index in batch.stale_node_index_batch.iter().flatten() {
            assert!(self.nodes.remove(&index.node_key).is_some());
        }
    }

    /// The keys of the nodes of the tree at `version`.
    fn reachable(&self, version: Version) -> HashSet<NodeKey> {
        let mut seen = HashSet::new();
        let mut todo = vec![NodeKey::new_empty_path(version)];
        while let Some(node_key) = todo.pop() {
            if let Node::Internal(node) = &self.nodes[&node_key] {
                for (n, child) in node.children.slots.iter().enumerate() {
                    if let Some(child) = child {
                        let mut nibbles = node_key.nibble_path.nibbles.clone();
                        nibbles.push(n as u8);
                        todo.push(NodeKey::new(child.version, path(&nibbles)));
                    }
                }
            }
            seen.insert(node_key);
        }
        seen
    }
}

impl TreeReader<u64> for Shaky {
    fn get_node_option(&self, node_key: &NodeKey) -> Result<Option<Node<u64>>, StorageError> {
        if self.fails_at.as_ref() == Some(node_key) {
            return Err(StorageError {
                message: format!("cannot read {:?}", node_key),
            });
        }
        if let Some(node) = &self.endless {
            return Ok(Some(node.clone()));
        }
        Ok(self.nodes.get(node_key).cloned())
    }

    fn get_rightmost_leaf(&self) -> Result<Option<(NodeKey, LeafNode<u64>)>, StorageError> {
        Ok(None)
    }
}

/// The root hash of a sparse Merkle tree over sorted items.
fn model_hash(items: &[(HashValue, HashValue)], depth: usize) -> HashValue {
    match items.len() {
        0 => hash_placeholder(),
        1 => hash_leaf(items[0].0, items[0].1),
        _ => {
            let split = items.iter().take_while(|i| !i.0.bit(depth)).count();
            hash_binary(
                model_hash(&items[..split], depth + 1),
                model_hash(&items[split..], depth + 1),
            )
        }
    }
}

/// The root hash that a proof gives.
fn proof_root(shown: &SparseMerkleProof, key: HashValue) -> HashValue {
    let mut hash = match &shown.leaf {
        Some(leaf) => hash_leaf(leaf.key, leaf.value_hash),
        None => hash_placeholder(),
    };
    let len = shown.siblings.len();
    for (i, sibling) in shown.siblings.iter().enumerate() {
        hash = if key.bit(len - 1 - i) {
            hash_binary(*sibling, hash)
        } else {
            hash_binary(hash, *sibling)
        };
    }
    hash
}

/// The root hash that follows from the keys up to `key` and the hashes on the right of it, from the top.
fn range_root(
    known: &[(HashValue, HashValue)],
    key: HashValue,
    right: &[HashValue],
    depth: usize,
) -> HashValue {
    if right.is_empty() && known.len() == 1 {
        return hash_leaf(known[0].0, known[0].1);
    }
    let split = known.iter().take_while(|i| !i.0.bit(depth)).count();
    if key.bit(depth) {
        hash_binary(
            model_hash(&known[..split], depth + 1),
            range_root(&known[split..], key, right, depth + 1),
        )
    } else {
        assert_eq!(split, known.len());
        hash_binary(range_root(known, key, &right[1..], depth + 1), right[0])
    }
}

fn items(model: &BTreeMap<HashValue, Value>) -> Vec<(HashValue, HashValue)> {
    model.iter().map(|(k, v)| (*k, v.0)).collect()
}

#[test]
fn first_key_makes_a_leaf() {
    let store: MockTreeStore<u64> = MockTreeStore::new();
    let tree = Tree::new(&store);
    let (k, v) = (key(&[1, 2, 3]), value(7));
    let (root, batch) = tree.put_value_set_test(vec![(k, &v)], 0).unwrap();
    assert_eq!(root, hash_leaf(k, v.0));
    assert_eq!(
        batch.node_batch,
        vec![vec![(
            NodeKey::new_empty_path(0),
            Node::new_leaf(k, v.0, (7, 0))
        )]]
    );
    assert_eq!(batch.stale_node_index_batch, vec![vec![]]);
    assert_eq!((batch.num_new_leaves, batch.num_stale_leaves), (1, 0));
    // nothing can be read before the batch is committed
    assert_eq!(tree.get_root_hash_option(0), Ok(None));

    let mut store = store;
    store.write_tree_update_batch(batch);
    let tree = Tree::new(&store);
    assert_eq!(tree.get(k, 0), Ok(Some(v.0)));
    assert_eq!(tree.get_root_hash(0), Ok(root));
    assert_eq!(tree.get_root_hash_option(0), Ok(Some(root)));
    assert_eq!(tree.get_leaf_count(0), Ok(1));
    let (found, shown) = tree.get_with_proof(k, 0).unwrap();
    assert_eq!(found, Some((v.0, (7, 0))));
    assert!(shown.siblings.is_empty());
    assert_eq!(shown.leaf, Some(SparseMerkleLeafNode::new(k, v.0)));
    // a key that is not there is shown another leaf
    let (found, shown) = tree.get_with_proof(key(&[1, 2, 4]), 0).unwrap();
    assert_eq!(found, None);
    assert_eq!(shown.leaf, Some(SparseMerkleLeafNode::new(k, v.0)));
}

#[test]
fn root_hashes_are_exact() {
    let store: MockTreeStore<u64> = MockTreeStore::new();
    let tree = Tree::new(&store);
    let v: Vec<Value> = (0..5).map(value).collect();
    let (root, _) = tree
        .put_value_set_test(vec![(key(&[0]), &v[1]), (key(&[8]), &v[2])], 0)
        .unwrap();
    assert_eq!(
        hex(root),
        "2c560d6ff3ed4975c86677caf5fec83a2afeb1df8907ef89fc3bed54ff5c765e"
    );
    let (root, batch) = tree
        .put_value_set_test(vec![(key(&[0, 8]), &v[2]), (key(&[0, 0]), &v[1])], 0)
        .unwrap();
    assert_eq!(
        hex(root),
        "3d5bd0a6c5705c2bb3aed3425f0218ef1d31829d015f3e181b261c9ec7e8e4fc"
    );
    // each node is written behind the nodes below it
    let paths: Vec<Vec<u8>> = batch.node_batch[0]
        .iter()
        .map(|(k, _)| k.nibble_path.nibbles.clone())
        .collect();
    assert_eq!(paths, vec![vec![0, 0], vec![0, 8], vec![0], vec![]]);
    let (root, _) = tree
        .put_value_set_test(
            vec![
                (key(&[15]), &v[4]),
                (key(&[1]), &v[2]),
                (key(&[0]), &v[1]),
                (key(&[8]), &v[3]),
            ],
            0,
        )
        .unwrap();
    assert_eq!(
        hex(root),
        "12f0239af8c660d38d7325ce90057751a02a2063587db40b3a054decfbea3d45"
    );
}

#[test]
fn the_last_pair_of_a_key_counts() {
    let store: MockTreeStore<u64> = MockTreeStore::new();
    let tree = Tree::new(&store);
    let (a, b, c) = (value(1), value(2), value(3));
    let k = key(&[5]);
    let (root, batch) = tree
        .put_value_set_test(vec![(k, &a), (key(&[6]), &c), (k, &b)], 0)
        .unwrap();
    let (expected, expected_batch) = tree
        .put_value_set_test(vec![(key(&[6]), &c), (k, &b)], 0)
        .unwrap();
    assert_eq!(root, expected);
    assert_eq!(batch, expected_batch);
}

#[test]
fn a_new_value_replaces_a_leaf() {
    let mut store: MockTreeStore<u64> = MockTreeStore::new();
    let (k, a, b) = (key(&[5]), value(1), value(2));
    let (_, batch) = Tree::new(&store).put_value_set_test(vec![(k, &a)], 0).unwrap();
    store.write_tree_update_batch(batch);
    let (root, batch) = Tree::new(&store).put_value_set_test(vec![(k, &b)], 1).unwrap();
    assert_eq!(root, hash_leaf(k, b.0));
    assert_eq!(
        batch.node_batch,
        vec![vec![(
            NodeKey::new_empty_path(1),
            Node::new_leaf(k, b.0, (2, 1))
        )]]
    );
    assert_eq!(batch.stale_node_index_batch[0].len(), 1);
    assert_eq!(
        batch.stale_node_index_batch[0][0].node_key,
        NodeKey::new_empty_path(0)
    );
    assert_eq!(batch.stale_node_index_batch[0][0].stale_since_version, 1);
    assert_eq!((batch.num_new_leaves, batch.num_stale_leaves), (1, 1));
    store.write_tree_update_batch(batch);
    let tree = Tree::new(&store);
    assert_eq!(tree.get(k, 1), Ok(Some(b.0)));
    assert_eq!(tree.get(k, 0), Ok(Some(a.0)));
}

#[test]
fn a_leaf_moves_down_to_make_room() {
    let mut store: MockTreeStore<u64> = MockTreeStore::new();
    let (a, b) = (value(1), value(2));
    let (ka, kb) = (key(&[5, 1]), key(&[5, 2]));
    let (_, batch) = Tree::new(&store).put_value_set_test(vec![(ka, &a)], 0).unwrap();
    store.write_tree_update_batch(batch);
    let (root, batch) = Tree::new(&store).put_value_set_test(vec![(kb, &b)], 1).unwrap();
    let written: Vec<(Vec<u8>, bool)> = batch.node_batch[0]
        .iter()
        .map(|(k, n)| (k.nibble_path.nibbles.clone(), matches!(n, Node::Leaf(_))))
        .collect();
    assert_eq!(
        written,
        vec![
            (vec![5, 2], true),
            (vec![5, 1], true),
            (vec![5], false),
            (vec![], false),
        ]
    );
    // the leaf keeps the version of its value
    assert_eq!(batch.node_batch[0][1].1, Node::new_leaf(ka, a.0, (1, 0)));
    assert!(batch.node_batch[0].iter().all(|(k, _)| k.version == 1));
    assert_eq!((batch.num_new_leaves, batch.num_stale_leaves), (2, 1));
    assert_eq!(root, model_hash(&[(ka, a.0), (kb, b.0)], 0));
    store.write_tree_update_batch(batch);
    let tree = Tree::new(&store);
    assert_eq!(tree.get(ka, 1), Ok(Some(a.0)));
    assert_eq!(tree.get(kb, 1), Ok(Some(b.0)));
    assert_eq!(tree.get_leaf_count(1), Ok(2));
    // the other way round: the new key is on the right of the leaf that stays
    let (_, batch) = Tree::new(&store)
        .batch_put_value_set(vec![(key(&[5, 1, 7]), &b), (ka, &b)], None, Some(0), 9)
        .unwrap();
    assert_eq!((batch.num_new_leaves, batch.num_stale_leaves), (2, 1));
}

#[test]
fn changes_below_the_top_are_kept_in_lists_of_their_own() {
    let mut store: MockTreeStore<u64> = MockTreeStore::new();
    let v: Vec<Value> = (0..9).map(value).collect();
    let first: Vec<(HashValue, &Value)> = (0..4u8)
        .map(|i| (key(&[i, i]), &v[i as usize]))
        .collect();
    let (_, batch) = Tree::new(&store).put_value_set_test(first, 0).unwrap();
    // a new tree is one list
    assert_eq!(batch.node_batch.len(), 1);
    store.write_tree_update_batch(batch);
    let (_, batch) = Tree::new(&store)
        .put_value_set_test(
            vec![
                (key(&[3, 9]), &v[5]),
                (key(&[1, 1]), &v[6]),
                (key(&[7]), &v[7]),
            ],
            1,
        )
        .unwrap();
    let paths: Vec<Vec<Vec<u8>>> = batch
        .node_batch
        .iter()
        .map(|l| l.iter().map(|(k, _)| k.nibble_path.nibbles.clone()).collect())
        .collect();
    assert_eq!(
        paths,
        vec![
            vec![vec![]],
            vec![vec![1]],
            vec![vec![3, 9], vec![3, 3], vec![3]],
            vec![vec![7]],
        ]
    );
    let stale: Vec<Vec<Vec<u8>>> = batch
        .stale_node_index_batch
        .iter()
        .map(|l| l.iter().map(|s| s.node_key.nibble_path.nibbles.clone()).collect())
        .collect();
    assert_eq!(
        stale,
        vec![vec![vec![]], vec![vec![1]], vec![vec![3]], vec![]]
    );
    assert_eq!((batch.num_new_leaves, batch.num_stale_leaves), (4, 2));
}

#[test]
fn deep_changes_share_one_list() {
    let mut store: MockTreeStore<u64> = MockTreeStore::new();
    let v: Vec<Value> = (0..9).map(value).collect();
    let top = [1u8, 1, 1];
    let at = |n: &[u8]| {
        let mut all = top.to_vec();
        all.extend_from_slice(n);
        key(&all)
    };
    let (_, batch) = Tree::new(&store)
        .put_value_set_test(
            vec![(at(&[0]), &v[0]), (at(&[1]), &v[1]), (at(&[2]), &v[2])],
            0,
        )
        .unwrap();
    store.write_tree_update_batch(batch);
    let (root, batch) = Tree::new(&store)
        .put_value_set_test(vec![(at(&[0]), &v[3]), (at(&[2]), &v[4])], 1)
        .unwrap();
    // one list for each of the three nodes above, and one for all that is below
    let paths: Vec<Vec<usize>> = batch
        .node_batch
        .iter()
        .map(|l| l.iter().map(|(k, _)| k.nibble_path.num_nibbles()).collect())
        .collect();
    assert_eq!(paths, vec![vec![0], vec![1], vec![2], vec![4, 4, 3]]);
    let stale: Vec<Vec<usize>> = batch
        .stale_node_index_batch
        .iter()
        .map(|l| l.iter().map(|s| s.node_key.nibble_path.num_nibbles()).collect())
        .collect();
    assert_eq!(stale, vec![vec![0], vec![1], vec![2], vec![3, 4, 4]]);
    let model = [(at(&[0]), v[3].0), (at(&[1]), v[1].0), (at(&[2]), v[4].0)];
    assert_eq!(root, model_hash(&model, 0));
}

#[test]
fn an_empty_value_set_writes_the_root_again() {
    let mut store: MockTreeStore<u64> = MockTreeStore::new();
    let v: Vec<Value> = (0..2).map(value).collect();
    let (root, batch) = Tree::new(&store)
        .put_value_set_test(vec![(key(&[1]), &v[0]), (key(&[2]), &v[1])], 0)
        .unwrap();
    store.write_tree_update_batch(batch);
    let (same, batch) = Tree::new(&store).put_value_set_test(vec![], 1).unwrap();
    assert_eq!(same, root);
    assert_eq!(batch.node_batch.len(), 1);
    assert_eq!(batch.node_batch[0].len(), 1);
    assert_eq!(batch.node_batch[0][0].0, NodeKey::new_empty_path(1));
    assert_eq!((batch.num_new_leaves, batch.num_stale_leaves), (0, 0));
}

/// Versions of a tree with their values, the store without any pruning, and the batches.
fn history(
    versions: u64,
    per_version: u64,
    narrow: bool,
) -> (
    Shaky,
    Vec<BTreeMap<HashValue, Value>>,
    Vec<TreeUpdateBatch<u64>>,
) {
    let mut store = Shaky::new();
    let mut model: BTreeMap<HashValue, Value> = BTreeMap::new();
    let mut models = vec![];
    let mut batches = vec![];
    for version in 0..versions {
        let pairs: Vec<(HashValue, Value)> = (0..per_version)
            .map(|i| {
                let r = number(version * 1000 + i);
                let k = if narrow {
                    let mut nibbles = vec![(r % 2) as u8, 3, 3, 3, 3];
                    nibbles.push((r / 2 % 3) as u8);
                    nibbles.push((r / 8 % 4) as u8);
                    key(&nibbles)
                } else {
                    HashValue::sha3_256_of(&(r % 150).to_le_bytes())
                };
                (k, (HashValue::sha3_256_of(&r.to_be_bytes()), r))
            })
            .collect();
        let value_set = pairs.iter().map(|(k, v)| (*k, v)).collect();
        let (root, batch) = Tree::new(&store)
            .put_value_set_test(value_set, version)
            .unwrap();
        let before = model.len();
        model.extend(pairs);
        assert_eq!(root, model_hash(&items(&model), 0));
        // the counts balance
        assert_eq!(
            before + batch.num_new_leaves,
            model.len() + batch.num_stale_leaves
        );
        let leaves = batch
            .node_batch
            .iter()
            .flatten()
            .filter(|(_, n)| matches!(n, Node::Leaf(_)))
            .count();
        assert_eq!(leaves, batch.num_new_leaves);
        let stale_leaves = batch
            .stale_node_index_batch
            .iter()
            .flatten()
            .filter(|s| matches!(store.nodes[&s.node_key], Node::Leaf(_)))
            .count();
        assert_eq!(stale_leaves, batch.num_stale_leaves);
        // all is about the new version
        assert!(batch.node_batch.iter().flatten().all(|(k, _)| k.version == version));
        assert!(batch
            .stale_node_index_batch
            .iter()
            .flatten()
            .all(|s| s.stale_since_version == version));
        store.write(&batch);
        models.push(model.clone());
        batches.push(batch);
    }
    (store, models, batches)
}

#[test]
fn all_versions_can_be_read_with_proofs() {
    for narrow in [false, true] {
        let (store, models, _) = history(12, 17, narrow);
        let tree = Tree::new(&store);
        let all: Vec<HashValue> = models.last().unwrap().keys().cloned().collect();
        for (version, model) in models.iter().enumerate() {
            let version = version as Version;
            let root = tree.get_root_hash(version).unwrap();
            assert_eq!(tree.get_leaf_count(version), Ok(model.len()));
            let others = (0..20u64).map(|i| HashValue::sha3_256_of(&[i as u8, 1, 2]));
            for k in all.iter().cloned().chain(others) {
                let (found, shown) = tree.get_with_proof(k, version).unwrap();
                assert_eq!(found.as_ref().map(|f| f.0), model.get(&k).map(|v| v.0));
                assert_eq!(found.as_ref().map(|f| f.1 .0), model.get(&k).map(|v| v.1));
                assert_eq!(tree.get(k, version), Ok(model.get(&k).map(|v| v.0)));
                assert_eq!(proof_root(&shown, k), root);
                let n = shown.siblings.len();
                let near: Vec<HashValue> = model
                    .keys()
                    .filter(|m| m.common_prefix_bits_len(k) >= n)
                    .cloned()
                    .collect();
                match shown.leaf {
                    Some(leaf) => assert_eq!(near, vec![leaf.key]),
                    None => assert!(near.is_empty()),
                }
            }
        }
    }
}

#[test]
fn stale_nodes_are_those_that_the_new_tree_does_without() {
    for narrow in [false, true] {
        let (mut store, models, batches) = history(8, 13, narrow);
        for (version, batch) in batches.iter().enumerate().skip(1) {
            let old = store.reachable(version as Version - 1);
            let new = store.reachable(version as Version);
            let listed: Vec<NodeKey> = batch
                .stale_node_index_batch
                .iter()
                .flatten()
                .map(|s| s.node_key.clone())
                .collect();
            let stale: HashSet<NodeKey> = listed.iter().cloned().collect();
            assert_eq!(stale.len(), listed.len());
            assert_eq!(stale, old.difference(&new).cloned().collect());
        }
        // the last version does not need any of them
        for batch in &batches {
            store.prune(batch);
        }
        let last = models.len() as Version - 1;
        assert_eq!(
            store.nodes.keys().cloned().collect::<HashSet<NodeKey>>(),
            store.reachable(last)
        );
        let tree = Tree::new(&store);
        for (k, v) in models.last().unwrap() {
            assert_eq!(tree.get(*k, last), Ok(Some(v.0)));
        }
        assert_eq!(
            tree.get_root_hash(last - 1),
            Err(TreeError::RootNotFound(last - 1))
        );
    }
}

#[test]
fn the_root_hash_does_not_depend_on_history() {
    let (store, models, _) = history(6, 11, false);
    let model = models.last().unwrap();
    let fresh: MockTreeStore<u64> = MockTreeStore::new();
    let value_set: Vec<(HashValue, &Value)> = model.iter().rev().map(|(k, v)| (*k, v)).collect();
    let (root, _) = Tree::new(&fresh)
        .batch_put_value_set(value_set, None, None, 77)
        .unwrap();
    assert_eq!(Tree::new(&store).get_root_hash(5), Ok(root));
}

#[test]
fn known_hashes_change_nothing() {
    let (store, _, batches) = history(5, 19, true);
    for version in 1..5u64 {
        // the hashes of all new nodes, by path
        let mut hashes = NodeHashes::new();
        for (node_key, node) in batches[version as usize].node_batch.iter().flatten() {
            hashes.insert(node_key.nibble_path.clone(), node.hash());
        }
        let mut base = Shaky::new();
        for batch in &batches[..version as usize] {
            base.write(batch);
        }
        let pairs: Vec<(HashValue, Value)> = store
            .reachable(version)
            .iter()
            .filter_map(|k| match &store.nodes[k] {
                Node::Leaf(leaf) if leaf.value_index.1 == version => {
                    Some((leaf.account_key, (leaf.value_hash, leaf.value_index.0)))
                }
                _ => None,
            })
            .collect();
        let value_set: Vec<(HashValue, &Value)> = pairs.iter().map(|(k, v)| (*k, v)).collect();
        let tree = Tree::new(&base);
        let plain = tree
            .batch_put_value_set(value_set.clone(), None, Some(version - 1), version)
            .unwrap();
        let cached = tree
            .batch_put_value_set(value_set, Some(&hashes), Some(version - 1), version)
            .unwrap();
        assert_eq!(plain, cached);
        assert_eq!(plain.1, batches[version as usize]);
    }
}

/// The update of `base` at version 0 by `pairs`, without known hashes.
fn plain_update(
    base: &Shaky,
    pairs: &[(HashValue, Value)],
) -> (HashValue, TreeUpdateBatch<u64>) {
    let value_set = pairs.iter().map(|(k, v)| (*k, v)).collect();
    Tree::new(base)
        .batch_put_value_set(value_set, None, Some(0), 1)
        .unwrap()
}

#[test]
fn the_order_of_pairs_does_not_matter() {
    let (base, _, _) = history(1, 20, false);
    let mut pairs: Vec<(HashValue, Value)> = (0..12u8)
        .map(|i| (HashValue::sha3_256_of(&[i, 7]), value(i)))
        .collect();
    let first = plain_update(&base, &pairs);
    pairs.reverse();
    assert_eq!(plain_update(&base, &pairs), first);
    for i in 0..12 {
        pairs.swap(i, i * 5 % 12);
        assert_eq!(plain_update(&base, &pairs), first);
    }
}

#[test]
fn stale_nodes_lie_on_the_way_to_the_keys() {
    let keys = [
        key(&[1, 2, 3]),
        key(&[1, 2, 4, 5]),
        key(&[1, 6]),
        key(&[9, 9, 9, 9]),
        key(&[9, 9, 9, 8]),
    ];
    let v: Vec<Value> = (0..5).map(value).collect();
    let mut base = Shaky::new();
    let value_set = keys.iter().cloned().zip(v.iter()).collect();
    let (_, batch) = Tree::new(&base)
        .batch_put_value_set(value_set, None, None, 0)
        .unwrap();
    base.write(&batch);
    let written = [key(&[1, 2, 4, 7]), key(&[9, 9, 9, 9])];
    let pairs: Vec<(HashValue, Value)> = written.iter().map(|k| (*k, value(8))).collect();
    let (_, batch) = plain_update(&base, &pairs);
    let stale: HashSet<NodeKey> = batch
        .stale_node_index_batch
        .iter()
        .flatten()
        .map(|s| s.node_key.clone())
        .collect();
    let on_the_way: HashSet<NodeKey> = base
        .reachable(0)
        .into_iter()
        .filter(|k| {
            let way = &k.nibble_path.nibbles;
            written
                .iter()
                .any(|w| way.iter().enumerate().all(|(i, n)| w.nibble(i) == *n))
        })
        .collect();
    assert_eq!(stale, on_the_way);
    // the root, 1, 12, the leaf at 124, and 9, 99, 999 and the leaf at 9999
    assert_eq!(stale.len(), 8);
}

#[test]
fn known_hashes_of_other_paths_do_not_matter() {
    let v: Vec<Value> = (0..3).map(value).collect();
    let mut base = Shaky::new();
    let (_, batch) = Tree::new(&base)
        .batch_put_value_set(
            vec![(key(&[3]), &v[0]), (key(&[12, 1]), &v[1]), (key(&[12, 2]), &v[2])],
            None,
            None,
            0,
        )
        .unwrap();
    base.write(&batch);
    // the base has a hash that is not that of its child
    let wrong = HashValue::new([5; 32]);
    let root = NodeKey {
        version: 0,
        nibble_path: path(&[]),
    };
    match base.nodes.get_mut(&root).unwrap() {
        Node::Internal(node) => node.children.slots[3].as_mut().unwrap().hash = wrong,
        Node::Leaf(_) => panic!("the root has two children"),
    }
    let pairs = [(key(&[12, 2, 6]), value(9)), (key(&[7]), value(10))];
    let plain = plain_update(&base, &pairs);
    // the hashes of all new nodes, and some that belong to nothing that is written
    let mut hashes = NodeHashes::new();
    for (node_key, node) in plain.1.node_batch.iter().flatten() {
        hashes.insert(node_key.nibble_path.clone(), node.hash());
    }
    hashes.insert(path(&[3]), HashValue::new([6; 32]));
    hashes.insert(path(&[12, 1]), HashValue::new([7; 32]));
    hashes.insert(path(&[12, 2, 6, 0]), HashValue::new([8; 32]));
    let value_set = pairs.iter().map(|(k, v)| (*k, v)).collect();
    let cached = Tree::new(&base)
        .batch_put_value_set(value_set, Some(&hashes), Some(0), 1)
        .unwrap();
    assert_eq!(cached, plain);
}

#[test]
fn known_hashes_are_taken_as_they_are() {
    let store: MockTreeStore<u64> = MockTreeStore::new();
    let v: Vec<Value> = (0..2).map(value).collect();
    let mut hashes = NodeHashes::new();
    let (a, b) = (HashValue::new([1; 32]), HashValue::new([2; 32]));
    hashes.insert(path(&[3]), a);
    hashes.insert(path(&[12]), b);
    let (root, batch) = Tree::new(&store)
        .batch_put_value_set(
            vec![(key(&[3]), &v[0]), (key(&[12]), &v[1])],
            Some(&hashes),
            None,
            4,
        )
        .unwrap();
    assert_eq!(root, hash_binary(a, b));
    match &batch.node_batch[0].last().unwrap().1 {
        Node::Internal(node) => {
            assert_eq!(node.children.slots[3], Some(Child::new(a, 4, NodeType::Leaf)));
            assert_eq!(node.children.slots[12], Some(Child::new(b, 4, NodeType::Leaf)));
        }
        Node::Leaf(_) => panic!("the root has two children"),
    }
}

#[test]
fn range_proofs_show_the_keys_on_the_left() {
    for narrow in [false, true] {
        let (store, models, _) = history(4, 23, narrow);
        let tree = Tree::new(&store);
        let model = items(&models[3]);
        let root = tree.get_root_hash(3).unwrap();
        for i in 0..model.len() {
            let shown = tree.get_range_proof(model[i].0, 3).unwrap();
            let right: Vec<HashValue> = shown.right_siblings.iter().rev().cloned().collect();
            assert_eq!(range_root(&model[..i + 1], model[i].0, &right, 0), root);
        }
    }
}

#[test]
fn range_proof_siblings_are_exact() {
    let mut store: MockTreeStore<u64> = MockTreeStore::new();
    let v: Vec<Value> = (0..5).map(value).collect();
    let keys = [key(&[0]), key(&[1]), key(&[8]), key(&[15])];
    let value_set = (0..4).map(|i| (keys[i], &v[i + 1])).collect();
    let (_, batch) = Tree::new(&store).put_value_set_test(value_set, 0).unwrap();
    store.write_tree_update_batch(batch);
    let tree = Tree::new(&store);
    let leaf = |i: usize| hash_leaf(keys[i], v[i + 1].0);
    let p = hash_placeholder();
    let right_half = hash_binary(leaf(2), leaf(3));
    assert_eq!(
        tree.get_range_proof(keys[0], 0).unwrap().right_siblings,
        vec![leaf(1), p, p, right_half]
    );
    assert_eq!(
        tree.get_range_proof(keys[1], 0).unwrap().right_siblings,
        vec![p, p, right_half]
    );
    assert_eq!(
        tree.get_range_proof(keys[2], 0).unwrap().right_siblings,
        vec![leaf(3)]
    );
    assert_eq!(
        tree.get_range_proof(keys[3], 0).unwrap().right_siblings,
        vec![]
    );
    assert_eq!(
        tree.get_range_proof(key(&[2]), 0),
        Err(TreeError::RightmostKeyMissing)
    );
}

#[test]
fn missing_roots() {
    let store: MockTreeStore<u64> = MockTreeStore::new();
    let tree = Tree::new(&store);
    let missing = TreeError::MissingRoot(MissingRootError { version: 3 });
    assert!(tree.get_with_proof(key(&[1]), 3).err() == Some(missing));
    assert_eq!(
        tree.get(key(&[1]), 3),
        Err(TreeError::MissingRoot(MissingRootError { version: 3 }))
    );
    assert_eq!(
        tree.get_range_proof(key(&[1]), 3),
        Err(TreeError::MissingRoot(MissingRootError { version: 3 }))
    );
    assert_eq!(tree.get_root_hash(3), Err(TreeError::RootNotFound(3)));
    assert_eq!(tree.get_leaf_count(3), Err(TreeError::RootNotFound(3)));
    assert_eq!(tree.get_root_hash_option(3), Ok(None));
    assert_eq!(
        tree.put_value_set_test(vec![(key(&[1]), &value(1))], 4),
        Err(TreeError::MissingNode(NodeKey::new_empty_path(3)))
    );
}

#[test]
fn missing_nodes() {
    let (mut store, models, _) = history(1, 20, true);
    let k = *models[0].keys().next().unwrap();
    let lost = NodeKey::new(0, path(&[0, 3]));
    assert!(store.nodes.remove(&lost).is_some());
    let tree = Tree::new(&store);
    assert_eq!(tree.get(k, 0), Err(TreeError::MissingNode(lost.clone())));
    assert_eq!(
        tree.get_range_proof(k, 0),
        Err(TreeError::MissingNode(lost.clone()))
    );
    assert_eq!(
        tree.put_value_set_test(vec![(k, &value(1))], 1),
        Err(TreeError::MissingNode(lost))
    );
    // other keys do not ask for it
    assert_eq!(tree.get(key(&[9]), 0), Ok(None));
    assert!(tree.put_value_set_test(vec![(key(&[9]), &value(1))], 1).is_ok());
}

#[test]
fn failing_stores() {
    let (mut store, models, _) = history(1, 20, true);
    let k = *models[0].keys().next().unwrap();
    store.fails_at = Some(NodeKey::new(0, path(&[0, 3])));
    let tree = Tree::new(&store);
    assert!(matches!(tree.get(k, 0), Err(TreeError::Storage(_))));
    assert!(matches!(
        tree.put_value_set_test(vec![(k, &value(1))], 1),
        Err(TreeError::Storage(_))
    ));
    store.fails_at = Some(NodeKey::new_empty_path(0));
    let tree = Tree::new(&store);
    // the root is reported as missing, whatever the reason
    assert_eq!(
        tree.get(k, 0),
        Err(TreeError::MissingRoot(MissingRootError { version: 0 }))
    );
    assert!(matches!(tree.get_root_hash(0), Err(TreeError::Storage(_))));
    assert!(matches!(
        tree.get_root_hash_option(0),
        Err(TreeError::Storage(_))
    ));
    assert!(matches!(tree.get_leaf_count(0), Err(TreeError::Storage(_))));
    assert!(matches!(
        tree.put_value_set_test(vec![(k, &value(1))], 1),
        Err(TreeError::Storage(_))
    ));
}

#[test]
fn a_tree_without_end_runs_out_of_nibbles() {
    let (store, _, _) = history(1, 20, false);
    let root = store.nodes[&NodeKey::new_empty_path(0)].clone();
    let nibble = match &root {
        Node::Internal(node) => node
            .children
            .slots
            .iter()
            .position(|c| matches!(c, Some(c) if !c.is_leaf()))
            .unwrap() as u8,
        Node::Leaf(_) => panic!("the root has many children"),
    };
    let mut endless = Shaky::new();
    endless.endless = Some(root);
    let tree = Tree::new(&endless);
    assert_eq!(
        tree.get(key(&[nibble; 64]), 0),
        Err(TreeError::RanOutOfNibbles)
    );
}

#[test]
fn rightmost_leaf_of_a_store() {
    let mut store: MockTreeStore<u64> = MockTreeStore::new();
    assert_eq!(store.get_rightmost_leaf(), Ok(None));
    let v: Vec<Value> = (0..4).map(value).collect();
    let value_set = vec![
        (key(&[9, 1]), &v[0]),
        (key(&[9, 7]), &v[1]),
        (key(&[2]), &v[2]),
    ];
    let (_, batch) = Tree::new(&store).put_value_set_test(value_set, 0).unwrap();
    store.write_tree_update_batch(batch);
    let (node_key, leaf) = store.get_rightmost_leaf().unwrap().unwrap();
    assert_eq!(node_key, NodeKey::new(0, path(&[9, 7])));
    assert_eq!(leaf.account_key, key(&[9, 7]));
}

#[test]
fn the_last_node_under_a_key_counts() {
    let mut store: MockTreeStore<u64> = MockTreeStore::new();
    for n in [1, 2] {
        let v = value(n);
        let empty: MockTreeStore<u64> = MockTreeStore::new();
        let (_, batch) = Tree::new(&empty)
            .put_value_set_test(vec![(key(&[4]), &v)], 0)
            .unwrap();
        store.write_tree_update_batch(batch);
    }
    assert_eq!(Tree::new(&store).get(key(&[4]), 0), Ok(Some(value(2).0)));
    assert_eq!(
        store.get_node_option(&NodeKey::new_empty_path(1)),
        Ok(None)
    );
    assert!(matches!(
        store.get_node(&NodeKey::new_empty_path(1)),
        Err(TreeError::MissingNode(_))
    ));
}

fn failure(message: &str) -> StorageError {
    StorageError {
        message: message.to_string(),
    }
}

#[test]
fn an_answer_of_the_store_becomes_a_node_or_an_error() {
    let at = NodeKey::new(3, path(&[1]));
    let leaf: Node<u64> = Node::new_leaf(key(&[1]), value(1).0, (1, 3));
    assert_eq!(node_of(&at, Ok(Some(leaf.clone()))), Ok(leaf.clone()));
    assert_eq!(
        node_of::<u64>(&at, Ok(None)),
        Err(TreeError::MissingNode(at.clone()))
    );
    assert_eq!(
        node_of::<u64>(&at, Err(failure("broken"))),
        Err(TreeError::Storage(failure("broken")))
    );
    assert_eq!(root_of(3, Ok(Some(leaf.clone()))), Ok(leaf.clone()));
    assert_eq!(root_of::<u64>(3, Ok(None)), Err(TreeError::RootNotFound(3)));
    assert_eq!(
        root_of::<u64>(3, Err(TreeError::Storage(failure("broken")))),
        Err(TreeError::Storage(failure("broken")))
    );
    assert_eq!(hash_option_of(Ok(Some(leaf.clone()))), Ok(Some(leaf.hash())));
    assert_eq!(hash_option_of::<u64>(Ok(None)), Ok(None));
    assert_eq!(
        hash_option_of::<u64>(Err(TreeError::Storage(failure("broken")))),
        Err(TreeError::Storage(failure("broken")))
    );
}

#[test]
fn only_the_root_is_reported_as_a_missing_root() {
    let broken = || TreeError::Storage(failure("broken"));
    assert_eq!(
        lookup_failure(0, 7, broken()),
        TreeError::MissingRoot(MissingRootError { version: 7 })
    );
    assert_eq!(lookup_failure(1, 7, broken()), broken());
    assert_eq!(lookup_failure(64, 7, broken()), broken());
}

#[test]
fn a_range_proof_follows_from_the_read() {
    let h = |tag: u8| HashValue::new([tag; 32]);
    let leaf = SparseMerkleLeafNode::new(key(&[5]), h(9));
    let shown = SparseMerkleProof::new(Some(leaf), vec![h(1), h(2), h(3), h(4)]);
    let found = Some((h(9), (1u64, 0)));
    // the first nibble is 0101, from the top
    assert_eq!(
        range_proof_of(key(&[5]), Ok((found, shown.clone())))
            .unwrap()
            .right_siblings,
        vec![h(2), h(4)]
    );
    assert_eq!(
        range_proof_of::<u64>(key(&[5]), Ok((None, shown))),
        Err(TreeError::RightmostKeyMissing)
    );
    assert_eq!(
        range_proof_of::<u64>(key(&[5]), Err(TreeError::RanOutOfNibbles)),
        Err(TreeError::RanOutOfNibbles)
    );
    // siblings that no bit of the key belongs to are left out
    let many = SparseMerkleProof::new(Some(leaf), vec![h(7); 300]);
    assert_eq!(
        range_proof_of(key(&[0]), Ok((Some((h(9), (1u64, 0))), many)))
            .unwrap()
            .right_siblings
            .len(),
        256
    );
}

#[test]
fn the_error_of_the_store_comes_out_unchanged() {
    let (mut store, models, _) = history(1, 20, true);
    let k = *models[0].keys().next().unwrap();
    let at = NodeKey::new(0, path(&[0, 3]));
    let own = TreeError::Storage(failure(&format!("cannot read {:?}", at)));
    store.fails_at = Some(at);
    let tree = Tree::new(&store);
    assert_eq!(tree.get(k, 0).as_ref(), Err(&own));
    assert_eq!(tree.get_range_proof(k, 0).as_ref(), Err(&own));
    assert_eq!(
        tree.put_value_set_test(vec![(k, &value(1))], 1).as_ref(),
        Err(&own)
    );
    let root = NodeKey::new_empty_path(0);
    let own = TreeError::Storage(failure(&format!("cannot read {:?}", root)));
    store.fails_at = Some(root);
    let tree = Tree::new(&store);
    assert_eq!(tree.get_root_hash(0).as_ref(), Err(&own));
    assert_eq!(tree.get_root_hash_option(0).as_ref(), Err(&own));
    assert_eq!(tree.get_leaf_count(0).as_ref(), Err(&own));
    assert_eq!(
        tree.put_value_set_test(vec![(k, &value(1))], 1).as_ref(),
        Err(&own)
    );
}

#[test]
fn whether_an_update_can_be_made() {
    let (mut store, _, batches) = history(3, 20, true);
    let v = value(1);
    let one = vec![(key(&[9]), &v)];
    let tree = Tree::new(&store);
    assert_eq!(tree.is_updatable(&one, None, Some(2), 3), Ok(true));
    assert_eq!(tree.is_updatable(&vec![], None, Some(2), 3), Ok(true));
    assert_eq!(tree.is_updatable(&one, None, None, 3), Ok(true));
    // nothing comes of nothing
    assert_eq!(tree.is_updatable(&vec![], None, None, 3), Ok(false));
    // no root to start from
    assert_eq!(
        tree.is_updatable(&one, None, Some(8), 9),
        Err(TreeError::MissingNode(NodeKey::new_empty_path(8)))
    );
    // the hashes of all new nodes have to be known
    let (_, batch) = tree
        .batch_put_value_set(one.clone(), None, Some(2), 3)
        .unwrap();
    let mut hashes = NodeHashes::new();
    assert_eq!(tree.is_updatable(&one, Some(&hashes), Some(2), 3), Ok(false));
    for (node_key, node) in batch.node_batch.iter().flatten() {
        hashes.insert(node_key.nibble_path.clone(), node.hash());
    }
    assert_eq!(tree.is_updatable(&one, Some(&hashes), Some(2), 3), Ok(true));
    let deep = *batches[0]
        .node_batch
        .iter()
        .flatten()
        .filter_map(|(_, n)| match n {
            Node::Leaf(leaf) => Some(&leaf.account_key),
            Node::Internal(_) => None,
        })
        .next()
        .unwrap();
    assert_eq!(
        tree.is_updatable(&vec![(deep, &v)], Some(&hashes), Some(2), 3),
        Ok(false)
    );
    assert_eq!(tree.is_updatable(&vec![(deep, &v)], None, Some(2), 3), Ok(true));
    // a single leaf is not written again without a key
    let single = NodeKey::new_empty_path(5);
    store
        .nodes
        .insert(single, Node::new_leaf(key(&[1]), v.0, (1, 5)));
    let tree = Tree::new(&store);
    assert_eq!(tree.is_updatable(&vec![], None, Some(5), 6), Ok(false));
    assert_eq!(tree.is_updatable(&one, None, Some(5), 6), Ok(true));
    // an internal node with a single leaf is no node of a tree
    let mut children = Children::new();
    children.insert(Nibble::new(1), Child::new(v.0, 5, NodeType::Leaf));
    store.nodes.insert(
        NodeKey::new_empty_path(7),
        Node::Internal(InternalNode { children }),
    );
    let tree = Tree::new(&store);
    assert_eq!(tree.is_updatable(&vec![], None, Some(7), 8), Ok(false));
    // a tree without end
    let mut endless = Shaky::new();
    let mut children = Children::new();
    children.insert(
        Nibble::new(9),
        Child::new(v.0, 5, NodeType::Internal { leaf_count: 2 }),
    );
    endless.endless = Some(Node::Internal(InternalNode { children }));
    assert_eq!(
        Tree::new(&endless).is_updatable(&vec![(key(&[9; 64]), &v)], None, Some(5), 6),
        Ok(false)
    );
    // a leaf that cannot be told apart from the key
    let mut lost = Shaky::new();
    lost.nodes = store.nodes.clone();
    let at = NodeKey::new(2, path(&[9]));
    let mut children = Children::new();
    children.insert(Nibble::new(9), Child::new(v.0, 2, NodeType::Leaf));
    children.insert(Nibble::new(8), Child::new(v.0, 2, NodeType::Leaf));
    lost.nodes.insert(
        NodeKey::new_empty_path(12),
        Node::Internal(InternalNode { children }),
    );
    let mut other = key(&[9]);
    other.hash[0] = 0x10;
    lost.nodes
        .insert(at, Node::new_leaf(other, v.0, (1, 2)));
    assert_eq!(
        Tree::new(&lost).is_updatable(&one, None, Some(12), 13),
        Ok(false)
    );
}
