use bsmt::hash::HashValue;
use bsmt::nibble::Nibble;

#[test]
fn test_common_prefix_nibbles_len() {
    {
        let hash1 = HashValue::sha3_256_of(b"hello");
        let hash2 = HashValue::sha3_256_of(b"HELLO");
        assert_eq!(hash1.hash[0], 0b0011_0011);
        assert_eq!(hash2.hash[0], 0b1011_1000);
        assert_eq!(hash1.common_prefix_nibbles_len(hash2), 0);
    }
    {
        let hash1 = HashValue::sha3_256_of(b"hello");
        let hash2 = HashValue::sha3_256_of(b"world");
        assert_eq!(hash1.hash[0], 0b0011_0011);
        assert_eq!(hash2.hash[0], 0b0100_0010);
        assert_eq!(hash1.common_prefix_nibbles_len(hash2), 0);
    }
    {
        let hash1 = HashValue::sha3_256_of(b"hello");
        let hash2 = HashValue::sha3_256_of(b"100011001000");
        assert_eq!(hash1.hash[0], 0b0011_0011);
        assert_eq!(hash2.hash[0], 0b0011_0011);
        assert_eq!(hash1.hash[1], 0b0011_1000);
        assert_eq!(hash2.hash[1], 0b0010_0010);
        assert_eq!(hash1.common_prefix_nibbles_len(hash2), 2);
    }
    {
        let hash1 = HashValue::sha3_256_of(b"hello");
        let hash2 = HashValue::sha3_256_of(b"hello");
        assert_eq!(
            hash1.common_prefix_nibbles_len(hash2),
            HashValue::LENGTH * 2
        );
    }
}

#[test]
fn test_get_nibble() {
    let hash = HashValue::sha3_256_of(b"hello");
    assert_eq!(hash.get_nibble(0), Nibble::new(3));
    assert_eq!(hash.get_nibble(1), Nibble::new(3));
    assert_eq!(hash.get_nibble(2), Nibble::new(3));
    assert_eq!(hash.get_nibble(3), Nibble::new(8));
    assert_eq!(hash.get_nibble(62), Nibble::new(9));
    assert_eq!(hash.get_nibble(63), Nibble::new(2));
}
