use bsmt::batch::{NodeStats, StaleNodeIndex, TreeUpdateBatch};
use bsmt::hash::{hash_binary, hash_leaf, hash_placeholder, HashValue};
use bsmt::nibble::{Nibble, NibblePath};
use bsmt::node_type::{Child, Children, InternalNode, Node, NodeKey, NodeType};
use bsmt::ranges::{nibble_ranges, NibbleRangeIterator};
use bsmt::sorted::SortedMap;

fn path(nibbles: &[u8]) -> NibblePath {
    NibblePath {
        nibbles: nibbles.to_vec(),
    }
}

fn key(nibbles: &[u8]) -> HashValue {
    let mut bytes = [0u8; 32];
    for (i, n) in nibbles.iter().enumerate() {
        bytes[i / 2] |= if i % 2 == 0 { n << 4 } else { *n };
    }
    HashValue::new(bytes)
}

fn leaf_child(tag: u8) -> Child {
    Child::new(HashValue::new([tag; 32]), 3, NodeType::Leaf)
}

fn internal_child(tag: u8, leaf_count: usize) -> Child {
    Child::new(
        HashValue::new([tag; 32]),
        4,
        NodeType::Internal { leaf_count },
    )
}

fn internal(children: &[(u8, Child)]) -> InternalNode {
    let mut all = Children::new();
    for (n, child) in children {
        all.insert(Nibble::new(*n), *child);
    }
    InternalNode::new(all)
}

#[test]
fn new_batch_has_one_list_of_each_kind() {
    let batch: TreeUpdateBatch<u64> = TreeUpdateBatch::new();
    assert_eq!(batch.node_batch.len(), 1);
    assert!(batch.node_batch[0].is_empty());
    assert_eq!(batch.stale_node_index_batch.len(), 1);
    assert!(batch.stale_node_index_batch[0].is_empty());
    assert_eq!(batch.num_new_leaves, 0);
    assert_eq!(batch.num_stale_leaves, 0);
    let default: TreeUpdateBatch<u64> = TreeUpdateBatch::default();
    assert!(default.node_batch.is_empty());
    assert!(default.stale_node_index_batch.is_empty());
}

#[test]
fn batch_takes_nodes_and_counts() {
    let mut batch: TreeUpdateBatch<u64> = TreeUpdateBatch::new();
    let node_key = NodeKey::new(7, path(&[1, 2]));
    let node = Node::new_leaf(key(&[1, 2]), HashValue::new([9; 32]), (5u64, 7));
    batch.put_node(node_key.clone(), node.clone());
    batch.put_stale_node(NodeKey::new_empty_path(6), 7);
    batch.inc_num_new_leaves();
    batch.inc_num_new_leaves();
    batch.inc_num_stale_leaves();
    assert_eq!(batch.node_batch, vec![vec![(node_key, node)]]);
    assert_eq!(
        batch.stale_node_index_batch,
        vec![vec![StaleNodeIndex {
            stale_since_version: 7,
            node_key: NodeKey::new_empty_path(6),
        }]]
    );
    assert_eq!(batch.num_new_leaves, 2);
    assert_eq!(batch.num_stale_leaves, 1);
    assert_eq!(batch.clone(), batch);
}

#[test]
fn combined_batches_keep_their_lists_apart() {
    let mut a: TreeUpdateBatch<u64> = TreeUpdateBatch::new();
    let mut b: TreeUpdateBatch<u64> = TreeUpdateBatch::new();
    let leaf = Node::new_leaf(key(&[1]), HashValue::new([9; 32]), (5u64, 7));
    a.put_node(NodeKey::new(1, path(&[1])), leaf.clone());
    b.put_node(NodeKey::new(1, path(&[2])), leaf.clone());
    b.put_stale_node(NodeKey::new_empty_path(0), 1);
    a.inc_num_new_leaves();
    b.inc_num_new_leaves();
    b.inc_num_stale_leaves();
    a.combine(b);
    assert_eq!(
        a.node_batch,
        vec![
            vec![(NodeKey::new(1, path(&[1])), leaf.clone())],
            vec![(NodeKey::new(1, path(&[2])), leaf.clone())],
        ]
    );
    assert_eq!(a.stale_node_index_batch.len(), 2);
    assert!(a.stale_node_index_batch[0].is_empty());
    assert_eq!(a.stale_node_index_batch[1].len(), 1);
    assert_eq!((a.num_new_leaves, a.num_stale_leaves), (2, 1));
    // what is put later goes to the first list
    a.put_node(NodeKey::new(1, path(&[3])), leaf);
    assert_eq!(a.node_batch[0].len(), 2);
    assert_eq!(a.node_batch[1].len(), 1);
}

#[test]
fn stats_start_at_zero() {
    assert_eq!(
        NodeStats::default(),
        NodeStats {
            new_nodes: 0,
            new_leaves: 0,
            stale_nodes: 0,
            stale_leaves: 0,
        }
    );
}

#[test]
fn node_keys() {
    let root = NodeKey::new_empty_path(5);
    assert_eq!(root.nibble_path().num_nibbles(), 0);
    let mut child = root.gen_child_node_key(6, Nibble::new(0xc));
    assert_eq!(child, NodeKey::new(6, path(&[0xc])));
    assert_eq!(child.nibble_path().num_nibbles(), 1);
    child.set_version(9);
    assert_eq!(child, NodeKey::new(9, path(&[0xc])));
    assert!(child != NodeKey::new(9, path(&[0xd])));
    assert!(child != NodeKey::new(8, path(&[0xc])));
    assert!(child != NodeKey::new(9, path(&[0xc, 0])));
}

#[test]
fn ranges_group_keys_by_nibble() {
    let kvs: Vec<(HashValue, u8)> = [
        [0u8, 1],
        [0, 9],
        [3, 0],
        [3, 1],
        [3, 2],
        [0xf, 0],
    ]
    .iter()
    .map(|n| (key(n), 0))
    .collect();
    let mut iter = NibbleRangeIterator::new(&kvs, 0);
    assert_eq!(iter.next(), Some((0, 1)));
    assert_eq!(iter.next(), Some((2, 4)));
    assert_eq!(iter.next(), Some((5, 5)));
    assert_eq!(iter.next(), None);
    assert_eq!(iter.next(), None);
    assert_eq!(nibble_ranges(&kvs, 0), vec![(0, 1), (2, 4), (5, 5)]);
    assert_eq!(nibble_ranges(&kvs[2..5], 1), vec![(0, 0), (1, 1), (2, 2)]);
    assert_eq!(nibble_ranges(&kvs, 63), vec![(0, 5)]);
    assert_eq!(nibble_ranges::<u8>(&[], 0), vec![]);
}

#[test]
fn ranges_of_keys_in_any_order_cover_them_once() {
    let orders: [[u8; 6]; 4] = [
        [5, 1, 5, 0, 9, 9],
        [9, 8, 7, 6, 5, 4],
        [1, 0, 1, 0, 1, 0],
        [3, 3, 3, 3, 3, 0],
    ];
    for order in orders {
        let kvs: Vec<(HashValue, u8)> = order.iter().map(|n| (key(&[*n]), 0)).collect();
        let mut iter = NibbleRangeIterator::new(&kvs, 0);
        let mut next = 0;
        while let Some((left, right)) = iter.next() {
            assert_eq!(left, next);
            assert!(left <= right && right < kvs.len());
            next = right + 1;
        }
        assert_eq!(next, kvs.len());
        assert_eq!(iter.next(), None);
        assert_eq!(iter.next(), None);
    }
}

#[test]
fn sorted_map_keeps_keys_in_order() {
    let mut map: SortedMap<NibblePath, u8> = SortedMap::new();
    map.insert(path(&[2]), 1);
    map.insert(path(&[1, 5]), 2);
    map.insert(path(&[]), 3);
    map.insert(path(&[1]), 4);
    map.insert(path(&[2]), 5);
    let keys: Vec<Vec<u8>> = map.entries.iter().map(|e| e.0.nibbles.clone()).collect();
    assert_eq!(keys, vec![vec![], vec![1], vec![1, 5], vec![2]]);
    assert_eq!(map.get(&path(&[2])), Some(&5));
    assert_eq!(map.get(&path(&[1, 5])), Some(&2));
    assert_eq!(map.get(&path(&[])), Some(&3));
    assert_eq!(map.get(&path(&[1, 4])), None);
    assert_eq!(map.get(&path(&[3])), None);
}

#[test]
fn internal_node_hash_is_a_binary_tree() {
    let h = |tag: u8| HashValue::new([tag; 32]);
    let p = hash_placeholder();
    // two leaves at the two ends
    let node = internal(&[(0, leaf_child(1)), (15, leaf_child(2))]);
    assert_eq!(node.hash(), hash_binary(h(1), h(2)));
    // two leaves side by side
    let node = internal(&[(4, leaf_child(1)), (5, leaf_child(2))]);
    let pair = hash_binary(h(1), h(2));
    assert_eq!(
        node.hash(),
        hash_binary(hash_binary(p, hash_binary(pair, p)), p)
    );
    assert_eq!(node.merkle_hash(4, 2), pair);
    assert_eq!(node.merkle_hash(4, 1), h(1));
    assert_eq!(node.merkle_hash(6, 2), p);
    // a single internal child is not lifted up
    let node = internal(&[(9, internal_child(1, 2))]);
    let right = hash_binary(hash_binary(hash_binary(p, h(1)), p), p);
    assert_eq!(node.hash(), hash_binary(p, right));
}

#[test]
fn siblings_of_a_child() {
    let h = |tag: u8| HashValue::new([tag; 32]);
    let p = hash_placeholder();
    let root = NodeKey::new_empty_path(8);
    let node = internal(&[
        (0, leaf_child(1)),
        (8, leaf_child(2)),
        (9, internal_child(3, 5)),
    ]);
    // a leaf that is alone in its half
    let (child, siblings) = node.get_child_with_siblings(&root, Nibble::new(0));
    assert_eq!(child, Some(NodeKey::new(3, path(&[0]))));
    assert_eq!(siblings, vec![node.merkle_hash(8, 8)]);
    // the same leaf shows that another child does not exist
    let (child, siblings) = node.get_child_with_siblings(&root, Nibble::new(6));
    assert_eq!(child, Some(NodeKey::new(3, path(&[0]))));
    assert_eq!(siblings, vec![node.merkle_hash(8, 8)]);
    // an internal child needs all four siblings
    let (child, siblings) = node.get_child_with_siblings(&root, Nibble::new(9));
    assert_eq!(child, Some(NodeKey::new(4, path(&[9]))));
    assert_eq!(siblings, vec![h(1), p, p, h(2)]);
    // nothing at all
    let (child, siblings) = node.get_child_with_siblings(&root, Nibble::new(12));
    assert_eq!(child, None);
    assert_eq!(siblings, vec![h(1), node.merkle_hash(8, 4)]);
}

#[test]
fn leaf_counts_add_up() {
    let node = internal(&[
        (0, leaf_child(1)),
        (8, leaf_child(2)),
        (9, internal_child(3, 5)),
    ]);
    assert_eq!(node.leaf_count(), 7);
    let node: Node<u64> = Node::Internal(node);
    assert_eq!(node.leaf_count(), 7);
    assert_eq!(node.node_type(), NodeType::Internal { leaf_count: 7 });
    let leaf: Node<u64> = Node::new_leaf(key(&[1]), HashValue::new([9; 32]), (5, 7));
    assert_eq!(leaf.leaf_count(), 1);
    assert_eq!(leaf.node_type(), NodeType::Leaf);
    assert_eq!(leaf.hash(), hash_leaf(key(&[1]), HashValue::new([9; 32])));
}
