use bsmt::hash::{hash_leaf, HashValue};
use bsmt::mock_tree_store::MockTreeStore;
use bsmt::reader::Key;
use bsmt::tree::JellyfishMerkleTree;

/// A key of another kind.
#[derive(Clone, Debug, PartialEq)]
struct Name(String);

impl Key for Name {
    fn clone_is_faithful(_original: Self, _copy: Self) {}
}

#[test]
fn keys_of_another_kind() {
    let mut store: MockTreeStore<Name> = MockTreeStore::new();
    let k = HashValue::sha3_256_of(b"alpha");
    let v = (HashValue::sha3_256_of(b"one"), Name("alpha".to_string()));
    let (root, batch) = JellyfishMerkleTree::new(&store)
        .put_value_set_test(vec![(k, &v)], 0)
        .unwrap();
    assert_eq!(root, hash_leaf(k, v.0));
    store.write_tree_update_batch(batch);
    let tree = JellyfishMerkleTree::new(&store);
    let (found, _) = tree.get_with_proof(k, 0).unwrap();
    assert_eq!(found, Some((v.0, (Name("alpha".to_string()), 0))));
}
