use bsmt::hash::{hash_binary, hash_leaf, hash_placeholder, HashValue};

fn hex(hash: HashValue) -> String {
    hash.to_vec().iter().map(|b| format!("{:02x}", b)).collect()
}

#[test]
fn sha3_digests() {
    assert_eq!(
        hex(HashValue::sha3_256_of(b"")),
        "a7ffc6f8bf1ed76651c14756a061d662f580ff4de43b49fa82d80a4b80f8434a"
    );
    assert_eq!(
        hex(HashValue::sha3_256_of(b"hello")),
        "3338be694f50c5f338814986cdf0686453a888b84f424d792af4b9202398f392"
    );
}

#[test]
fn leaf_hash_is_tagged() {
    let key = HashValue::new([0x11; 32]);
    let value_hash = HashValue::new([0x22; 32]);
    assert_eq!(
        hex(hash_leaf(key, value_hash)),
        "25084330e1b33ec3b5cb98950b262a47bcdf22cc99023224e95cbd9556ac313e"
    );
}

#[test]
fn binary_hash_is_tagged_and_ordered() {
    let left = HashValue::new([0x11; 32]);
    let right = HashValue::new([0x22; 32]);
    assert_eq!(
        hex(hash_binary(left, right)),
        "2d2b3a365fd08461c1313aec6fea2acc74f8caa1ac55a6efab113a6fb993401c"
    );
    assert_ne!(hash_binary(left, right), hash_binary(right, left));
    assert_ne!(hash_binary(left, right), hash_leaf(left, right));
}

#[test]
fn placeholder_is_spelled_out() {
    let placeholder = hash_placeholder();
    assert_eq!(&placeholder.hash[..30], b"SPARSE_MERKLE_PLACEHOLDER_HASH");
    assert_eq!(&placeholder.hash[30..], [0, 0]);
}

#[test]
fn nibbles_and_bits() {
    let mut bytes = [0u8; 32];
    bytes[0] = 0xa5;
    bytes[31] = 0x0f;
    let hash = HashValue::new(bytes);
    assert_eq!(hash.nibble(0), 0xa);
    assert_eq!(hash.nibble(1), 0x5);
    assert_eq!(hash.nibble(62), 0x0);
    assert_eq!(hash.nibble(63), 0xf);
    let bits: Vec<bool> = (0..8).map(|i| hash.bit(i)).collect();
    assert_eq!(
        bits,
        vec![true, false, true, false, false, true, false, true]
    );
    assert!(!hash.bit(251));
    assert!(hash.bit(252));
    assert!(hash.bit(255));
}

#[test]
fn common_prefix_in_bits() {
    let zero = HashValue::new([0; 32]);
    for i in 0..256 {
        let mut bytes = [0u8; 32];
        bytes[i / 8] = 1 << (7 - i % 8);
        let other = HashValue::new(bytes);
        assert_eq!(zero.common_prefix_bits_len(other), i);
        assert_eq!(zero.common_prefix_nibbles_len(other), i / 4);
    }
    assert_eq!(zero.common_prefix_bits_len(zero), 256);
    assert_eq!(zero.common_prefix_nibbles_len(zero), 64);
}

#[test]
fn equality_looks_at_every_byte() {
    let a = HashValue::new([7; 32]);
    for i in 0..32 {
        let mut bytes = [7; 32];
        bytes[i] = 8;
        assert!(a != HashValue::new(bytes));
    }
    assert!(a == HashValue::new([7; 32]));
}
