//! 256-bit hash values, read as bytes, as nibbles and as bits, and the SHA3-256
//! based hashes of the nodes of a sparse Merkle tree.
use tiny_keccak::Hasher;
use vstd::prelude::*;

use crate::nibble::Nibble;

verus! {

/// A 256-bit hash value.
#[derive(Clone, Copy, Debug, Eq, PartialOrd, Ord, Hash)]
pub struct HashValue {
    pub hash: [u8; 32],
}

/// Bit `j` of a nibble, counted from the most significant one.
pub open spec fn nibble_bit(n: u8, j: int) -> bool {
    if j == 0 {
        n / 8 % 2 == 1
    } else if j == 1 {
        n / 4 % 2 == 1
    } else if j == 2 {
        n / 2 % 2 == 1
    } else {
        n % 2 == 1
    }
}

/// The SHA3-256 digest of `input`.
pub uninterp spec fn sha3_256(input: Seq<u8>) -> [u8; 32];

/// The SHA3-256 digest of `message` in a domain of its own: the digest of the domain's name
/// goes in front of the message.
pub open spec fn tagged_hash(domain: Seq<u8>, message: Seq<u8>) -> HashValue {
    HashValue { hash: sha3_256(sha3_256(domain)@ + message) }
}

/// The hash of the leaf that maps `key` to `value_hash`.
pub open spec fn leaf_hash(key: HashValue, value_hash: HashValue) -> HashValue {
    tagged_hash(LEAF_DOMAIN@, key.hash@ + value_hash.hash@)
}

/// The hash of a binary node over the hashes of its two children.
pub open spec fn binary_hash(left: HashValue, right: HashValue) -> HashValue {
    tagged_hash(INTERNAL_DOMAIN@, left.hash@ + right.hash@)
}

/// The hash of an empty subtree.
pub open spec fn placeholder_hash() -> HashValue {
    HashValue { hash: PLACEHOLDER_BYTES }
}

/// `APTOS::SparseMerkleLeafNode`
pub const LEAF_DOMAIN: [u8; 27] = [
    65, 80, 84, 79, 83, 58, 58, 83, 112, 97, 114, 115, 101, 77, 101, 114, 107, 108, 101, 76, 101,
    97, 102, 78, 111, 100, 101,
];

/// `APTOS::SparseMerkleInternal`
pub const INTERNAL_DOMAIN: [u8; 27] = [
    65, 80, 84, 79, 83, 58, 58, 83, 112, 97, 114, 115, 101, 77, 101, 114, 107, 108, 101, 73, 110,
    116, 101, 114, 110, 97, 108,
];

/// `SPARSE_MERKLE_PLACEHOLDER_HASH`, padded with zeros.
pub const PLACEHOLDER_BYTES: [u8; 32] = [
    83, 80, 65, 82, 83, 69, 95, 77, 69, 82, 75, 76, 69, 95, 80, 76, 65, 67, 69, 72, 79, 76, 68, 69,
    82, 95, 72, 65, 83, 72, 0, 0,
];

/// Calls `tiny_keccak::Sha3`: a fresh `v256` state takes `input` with `update` and gives its
/// digest with `finalize`. The digest is a function of the input bytes alone, named `sha3_256`.
#[verifier::external_body]
fn sha3_256_digest(input: &[u8]) -> (digest: [u8; 32])
    ensures
        digest == sha3_256(input@),
{
    let mut digest = [0u8; 32];
    let mut state = tiny_keccak::Sha3::v256();
    state.update(input);
    state.finalize(&mut digest);
    digest
}

impl PartialEq for HashValue {
    fn eq(&self, other: &Self) -> (r: bool) {
        let mut i: usize = 0;
        while i < 32
            invariant
                i <= 32,
                forall|j: int| 0 <= j < i ==> self.hash[j] == other.hash[j],
            decreases 32 - i,
        {
            if self.hash[i] != other.hash[i] {
                return false;
            }
            i += 1;
        }
        assert(self.hash =~= other.hash);
        true
    }
}

impl vstd::std_specs::cmp::PartialEqSpecImpl for HashValue {
    open spec fn obeys_eq_spec() -> bool {
        true
    }

    open spec fn eq_spec(&self, other: &Self) -> bool {
        *self == *other
    }
}

impl HashValue {
    /// The number of bytes in a hash value.
    pub const LENGTH: usize = 32;

    /// The number of bits in a hash value.
    pub const LENGTH_IN_BITS: usize = 256;

    /// The nibble at position `i`, the high half of a byte before its low half.
    pub open spec fn nibble_at(self, i: int) -> u8 {
        if i % 2 == 0 {
            self.hash[i / 2] / 16
        } else {
            self.hash[i / 2] % 16
        }
    }

    /// All nibbles, in order.
    pub open spec fn nibbles(self) -> Seq<u8> {
        Seq::new(64, |i: int| self.nibble_at(i))
    }

    /// The bit at position `i`, the most significant bit of a byte first.
    pub open spec fn bit_at(self, i: int) -> bool {
        nibble_bit(self.nibble_at(i / 4), i % 4)
    }

    pub fn new(hash: [u8; 32]) -> (r: Self)
        ensures
            r.hash == hash,
    {
        HashValue { hash }
    }

    /// The SHA3-256 digest of `buffer`.
    pub fn sha3_256_of(buffer: &[u8]) -> (r: Self)
        ensures
            r.hash == sha3_256(buffer@),
    {
        HashValue { hash: sha3_256_digest(buffer) }
    }

    /// The nibble at position `index`, as a number.
    pub fn nibble(&self, index: usize) -> (r: u8)
        requires
            index < 64,
        ensures
            r == self.nibble_at(index as int),
            r < 16,
    {
        let byte: u8 = self.hash[index / 2];
        assert(byte >> 4 == byte / 16) by (bit_vector);
        assert(byte & 0x0f == byte % 16) by (bit_vector);
        if index % 2 == 0 {
            byte >> 4
        } else {
            byte & 0x0f
        }
    }

    /// Returns the `index`-th nibble.
    pub fn get_nibble(&self, index: usize) -> (r: Nibble)
        requires
            index < 64,
        ensures
            r.value == self.nibble_at(index as int),
            r.wf(),
    {
        Nibble::new(self.nibble(index))
    }

    /// Returns the `index`-th bit.
    pub fn bit(&self, index: usize) -> (r: bool)
        requires
            index < 256,
        ensures
            r == self.bit_at(index as int),
    {
        let n: u8 = self.nibble(index / 4);
        let j: usize = index % 4;
        if j == 0 {
            n / 8 % 2 == 1
        } else if j == 1 {
            n / 4 % 2 == 1
        } else if j == 2 {
            n / 2 % 2 == 1
        } else {
            n % 2 == 1
        }
    }

    /// Returns the length of the common prefix of `self` and `other` in bits.
    pub fn common_prefix_bits_len(&self, other: HashValue) -> (r: usize)
        ensures
            r <= 256,
            forall|i: int| 0 <= i < r ==> self.bit_at(i) == other.bit_at(i),
            r < 256 ==> self.bit_at(r as int) != other.bit_at(r as int),
    {
        let mut i: usize = 0;
        while i < 256
            invariant
                i <= 256,
                forall|j: int| 0 <= j < i ==> self.bit_at(j) == other.bit_at(j),
            decreases 256 - i,
        {
            if self.bit(i) != other.bit(i) {
                return i;
            }
            i += 1;
        }
        i
    }

    /// Returns the length of the common prefix of `self` and `other` in nibbles.
    pub fn common_prefix_nibbles_len(&self, other: HashValue) -> (r: usize)
        ensures
            r <= 64,
            forall|i: int| 0 <= i < r ==> self.nibble_at(i) == other.nibble_at(i),
            r < 64 ==> self.nibble_at(r as int) != other.nibble_at(r as int),
    {
        let bits: usize = self.common_prefix_bits_len(other);
        proof {
            assert forall|i: int| 0 <= i < bits / 4 implies self.nibble_at(i) == other.nibble_at(
                i,
            ) by {
                lemma_nibble_range(*self, i);
                lemma_nibble_range(other, i);
                assert(self.bit_at(4 * i) == other.bit_at(4 * i));
                assert(self.bit_at(4 * i + 1) == other.bit_at(4 * i + 1));
                assert(self.bit_at(4 * i + 2) == other.bit_at(4 * i + 2));
                assert(self.bit_at(4 * i + 3) == other.bit_at(4 * i + 3));
                lemma_nibble_bits(self.nibble_at(i), other.nibble_at(i));
            }
        }
        bits / 4
    }

    /// The bytes of the hash value.
    pub fn to_vec(&self) -> (r: Vec<u8>)
        ensures
            r@ == self.hash@,
    {
        vstd::slice::slice_to_vec(&self.hash)
    }
}

/// Hashes `message` in the domain `domain`.
fn tagged_digest(domain: &[u8], message: &Vec<u8>) -> (r: HashValue)
    ensures
        r == tagged_hash(domain@, message@),
{
    let tag: [u8; 32] = sha3_256_digest(domain);
    let mut input: Vec<u8> = vstd::slice::slice_to_vec(&tag);
    input.extend_from_slice(message.as_slice());
    let hash: [u8; 32] = sha3_256_digest(input.as_slice());
    assert(input@ =~= sha3_256(domain@)@ + message@);
    HashValue { hash }
}

/// The hash of the leaf that maps `key` to `value_hash`.
pub fn hash_leaf(key: HashValue, value_hash: HashValue) -> (r: HashValue)
    ensures
        r == leaf_hash(key, value_hash),
        r.hash == sha3_256(sha3_256(LEAF_DOMAIN@)@ + (key.hash@ + value_hash.hash@)),
{
    let mut message: Vec<u8> = key.to_vec();
    message.extend_from_slice(&value_hash.hash);
    assert(message@ =~= key.hash@ + value_hash.hash@);
    tagged_digest(&LEAF_DOMAIN, &message)
}

/// The hash of a binary node over the hashes of its two children.
pub fn hash_binary(left: HashValue, right: HashValue) -> (r: HashValue)
    ensures
        r == binary_hash(left, right),
        r.hash == sha3_256(sha3_256(INTERNAL_DOMAIN@)@ + (left.hash@ + right.hash@)),
{
    let mut message: Vec<u8> = left.to_vec();
    message.extend_from_slice(&right.hash);
    assert(message@ =~= left.hash@ + right.hash@);
    tagged_digest(&INTERNAL_DOMAIN, &message)
}

/// The hash of an empty subtree.
pub fn hash_placeholder() -> (r: HashValue)
    ensures
        r == placeholder_hash(),
        r.hash@ == PLACEHOLDER_BYTES@,
{
    HashValue { hash: PLACEHOLDER_BYTES }
}

/// A nibble is below sixteen.
pub proof fn lemma_nibble_range(key: HashValue, i: int)
    requires
        0 <= i < 64,
    ensures
        key.nibble_at(i) < 16,
{
}

/// Two nibbles with the same four bits are the same nibble.
pub proof fn lemma_nibble_bits(a: u8, b: u8)
    requires
        a < 16,
        b < 16,
        forall|j: int| 0 <= j < 4 ==> #[trigger] nibble_bit(a, j) == nibble_bit(b, j),
    ensures
        a == b,
{
    assert(nibble_bit(a, 0) == nibble_bit(b, 0));
    assert(nibble_bit(a, 1) == nibble_bit(b, 1));
    assert(nibble_bit(a, 2) == nibble_bit(b, 2));
    assert(nibble_bit(a, 3) == nibble_bit(b, 3));
}

/// Hash values with the same nibbles are equal.
pub proof fn lemma_nibbles_identify(a: HashValue, b: HashValue)
    requires
        forall|i: int| 0 <= i < 64 ==> #[trigger] a.nibble_at(i) == b.nibble_at(i),
    ensures
        a == b,
{
    assert forall|i: int| 0 <= i < 32 implies a.hash[i] == b.hash[i] by {
        assert(a.nibble_at(2 * i) == b.nibble_at(2 * i));
        assert(a.nibble_at(2 * i + 1) == b.nibble_at(2 * i + 1));
    }
    assert(a.hash =~= b.hash);
}

/// The bytes of a text in which each character is a byte.
pub open spec fn text_bytes(text: Seq<char>) -> Seq<u8> {
    Seq::new(text.len(), |i: int| text[i] as u8)
}

/// The domains and the placeholder are spelled out.
pub proof fn lemma_names()
    ensures
        LEAF_DOMAIN@ == text_bytes("APTOS::SparseMerkleLeafNode"@),
        INTERNAL_DOMAIN@ == text_bytes("APTOS::SparseMerkleInternal"@),
        PLACEHOLDER_BYTES@ == text_bytes("SPARSE_MERKLE_PLACEHOLDER_HASH"@) + seq![0u8, 0u8],
{
    reveal_strlit("APTOS::SparseMerkleLeafNode");
    reveal_strlit("APTOS::SparseMerkleInternal");
    reveal_strlit("SPARSE_MERKLE_PLACEHOLDER_HASH");
    assert(LEAF_DOMAIN@ =~= text_bytes("APTOS::SparseMerkleLeafNode"@));
    assert(INTERNAL_DOMAIN@ =~= text_bytes("APTOS::SparseMerkleInternal"@));
    assert(PLACEHOLDER_BYTES@ =~= text_bytes("SPARSE_MERKLE_PLACEHOLDER_HASH"@) + seq![0u8, 0u8]);
}

/// Whether two different messages have the same digest.
pub open spec fn collide(a: Seq<u8>, b: Seq<u8>) -> bool {
    a != b && sha3_256(a) == sha3_256(b)
}

/// The digest that the hash of a leaf is.
pub proof fn lemma_leaf_digest(key: HashValue, value_hash: HashValue)
    ensures
        leaf_hash(key, value_hash).hash == sha3_256(
            sha3_256(text_bytes("APTOS::SparseMerkleLeafNode"@))@ + key.hash@ + value_hash.hash@,
        ),
{
    lemma_names();
    let tag = sha3_256(LEAF_DOMAIN@)@;
    assert(tag + (key.hash@ + value_hash.hash@) =~= tag + key.hash@ + value_hash.hash@);
}

/// The digest that the hash of a binary node is.
pub proof fn lemma_binary_digest(left: HashValue, right: HashValue)
    ensures
        binary_hash(left, right).hash == sha3_256(
            sha3_256(text_bytes("APTOS::SparseMerkleInternal"@))@ + left.hash@ + right.hash@,
        ),
{
    lemma_names();
    let tag = sha3_256(INTERNAL_DOMAIN@)@;
    assert(tag + (left.hash@ + right.hash@) =~= tag + left.hash@ + right.hash@);
}

/// The hash of a leaf is the digest of all bytes of its key and all bytes of its value hash, in this
/// order, behind the digest of the name of the leaves' domain.
pub proof fn lemma_hash_leaf(key: HashValue, value_hash: HashValue, r: HashValue)
    requires
        call_ensures(hash_leaf, (key, value_hash), r),
    ensures
        r.hash == sha3_256(
            sha3_256(text_bytes("APTOS::SparseMerkleLeafNode"@))@ + key.hash@ + value_hash.hash@,
        ),
{
    lemma_names();
    let tag = sha3_256(LEAF_DOMAIN@)@;
    assert(tag + (key.hash@ + value_hash.hash@) =~= tag + key.hash@ + value_hash.hash@);
}

/// The hash of a binary node is the digest of all bytes of both hashes, the left one first, behind the
/// digest of the name of the internal nodes' domain; an empty subtree is no exception.
pub proof fn lemma_hash_binary(left: HashValue, right: HashValue, r: HashValue)
    requires
        call_ensures(hash_binary, (left, right), r),
    ensures
        r.hash == sha3_256(
            sha3_256(text_bytes("APTOS::SparseMerkleInternal"@))@ + left.hash@ + right.hash@,
        ),
{
    lemma_names();
    let tag = sha3_256(INTERNAL_DOMAIN@)@;
    assert(tag + (left.hash@ + right.hash@) =~= tag + left.hash@ + right.hash@);
}

/// The hash of an empty subtree is spelled out, and filled up with zeros.
pub proof fn lemma_hash_placeholder(r: HashValue)
    requires
        call_ensures(hash_placeholder, (), r),
    ensures
        r.hash@ == text_bytes("SPARSE_MERKLE_PLACEHOLDER_HASH"@) + seq![0u8, 0u8],
{
    lemma_names();
}

/// Two hash values in a row, behind two tags of the same length, are known by their bytes.
proof fn lemma_message(
    tag: Seq<u8>,
    a: HashValue,
    b: HashValue,
    tag2: Seq<u8>,
    a2: HashValue,
    b2: HashValue,
)
    requires
        tag.len() == tag2.len(),
        tag + a.hash@ + b.hash@ == tag2 + a2.hash@ + b2.hash@,
    ensures
        tag == tag2,
        a == a2,
        b == b2,
{
    let x = tag + a.hash@ + b.hash@;
    let y = tag2 + a2.hash@ + b2.hash@;
    let n = tag.len() as int;
    assert(tag =~= x.subrange(0, n));
    assert(tag2 =~= y.subrange(0, n));
    assert(a.hash@ =~= x.subrange(n, n + 32));
    assert(a2.hash@ =~= y.subrange(n, n + 32));
    assert(b.hash@ =~= x.subrange(n + 32, n + 64));
    assert(b2.hash@ =~= y.subrange(n + 32, n + 64));
    assert(a.hash =~= a2.hash);
    assert(b.hash =~= b2.hash);
}

/// A hash binds what was hashed: two calls for leaves with different keys or different values give the
/// same hash only if the two messages, or the two names, collide under SHA3-256. So do two calls for
/// binary nodes with different halves, and a call for a leaf and one for a binary node.
pub proof fn lemma_hashes_bind(
    a: HashValue,
    b: HashValue,
    c: HashValue,
    d: HashValue,
    leaf_ab: HashValue,
    leaf_cd: HashValue,
    binary_ab: HashValue,
    binary_cd: HashValue,
)
    requires
        call_ensures(hash_leaf, (a, b), leaf_ab),
        call_ensures(hash_leaf, (c, d), leaf_cd),
        call_ensures(hash_binary, (a, b), binary_ab),
        call_ensures(hash_binary, (c, d), binary_cd),
    ensures
        ({
            let leaf_name = text_bytes("APTOS::SparseMerkleLeafNode"@);
            let internal_name = text_bytes("APTOS::SparseMerkleInternal"@);
            let leaf_tag = sha3_256(leaf_name)@;
            let internal_tag = sha3_256(internal_name)@;
            &&& leaf_ab == leaf_cd ==> (a == c && b == d) || collide(
                leaf_tag + a.hash@ + b.hash@,
                leaf_tag + c.hash@ + d.hash@,
            )
            &&& binary_ab == binary_cd ==> (a == c && b == d) || collide(
                internal_tag + a.hash@ + b.hash@,
                internal_tag + c.hash@ + d.hash@,
            )
            &&& leaf_ab == binary_cd ==> collide(leaf_name, internal_name) || collide(
                leaf_tag + a.hash@ + b.hash@,
                internal_tag + c.hash@ + d.hash@,
            )
        }),
{
    let leaf_name = text_bytes("APTOS::SparseMerkleLeafNode"@);
    let internal_name = text_bytes("APTOS::SparseMerkleInternal"@);
    let leaf_tag = sha3_256(leaf_name)@;
    let internal_tag = sha3_256(internal_name)@;
    lemma_names();
    lemma_hash_leaf(a, b, leaf_ab);
    lemma_hash_leaf(c, d, leaf_cd);
    lemma_hash_binary(a, b, binary_ab);
    lemma_hash_binary(c, d, binary_cd);
    if leaf_tag + a.hash@ + b.hash@ == leaf_tag + c.hash@ + d.hash@ {
        lemma_message(leaf_tag, a, b, leaf_tag, c, d);
    }
    if internal_tag + a.hash@ + b.hash@ == internal_tag + c.hash@ + d.hash@ {
        lemma_message(internal_tag, a, b, internal_tag, c, d);
    }
    if leaf_tag + a.hash@ + b.hash@ == internal_tag + c.hash@ + d.hash@ {
        lemma_message(leaf_tag, a, b, internal_tag, c, d);
        assert(sha3_256(leaf_name) =~= sha3_256(internal_name));
        assert(LEAF_DOMAIN@[19] == 76);
        assert(INTERNAL_DOMAIN@[19] == 73);
    }
}

/// A byte is made of its two nibbles, the high one first, and of its eight bits, the most significant one
/// first.
pub proof fn lemma_digits_of_bytes(key: HashValue, i: int)
    requires
        0 <= i < 32,
    ensures
        key.nibble_at(2 * i) < 16,
        key.nibble_at(2 * i + 1) < 16,
        key.hash[i] == 16 * key.nibble_at(2 * i) + key.nibble_at(2 * i + 1),
        key.hash[i] == weight(key.bit_at(8 * i), 128) + weight(key.bit_at(8 * i + 1), 64) + weight(
            key.bit_at(8 * i + 2),
            32,
        ) + weight(key.bit_at(8 * i + 3), 16) + weight(key.bit_at(8 * i + 4), 8) + weight(
            key.bit_at(8 * i + 5),
            4,
        ) + weight(key.bit_at(8 * i + 6), 2) + weight(key.bit_at(8 * i + 7), 1),
{
    assert((2 * i) % 2 == 0 && (2 * i) / 2 == i);
    assert((2 * i + 1) % 2 == 1 && (2 * i + 1) / 2 == i);
    assert((8 * i) / 4 == 2 * i && (8 * i + 4) / 4 == 2 * i + 1);
}

/// What a bit adds to a number.
pub open spec fn weight(bit: bool, n: int) -> int {
    if bit {
        n
    } else {
        0
    }
}

/// A call for a nibble gives half of a byte, the high half of each byte first; a call for a bit gives one
/// bit of a byte, the most significant one first.
pub proof fn lemma_digit_calls(key: HashValue, index: usize, nibble: u8, bit_index: usize, bit: bool)
    requires
        index < 64,
        bit_index < 256,
        call_ensures(HashValue::nibble, (&key, index), nibble),
        call_ensures(HashValue::bit, (&key, bit_index), bit),
    ensures
        ({
            let byte = key.hash[index as int / 2];
            nibble == if index % 2 == 0 {
                byte / 16
            } else {
                byte % 16
            }
        }),
        ({
            let byte = key.hash[bit_index as int / 8];
            bit == match bit_index % 8 {
                0 => byte >= 128,
                1 => byte % 128 >= 64,
                2 => byte % 64 >= 32,
                3 => byte % 32 >= 16,
                4 => byte % 16 >= 8,
                5 => byte % 8 >= 4,
                6 => byte % 4 >= 2,
                _ => byte % 2 == 1,
            }
        }),
{
    let i = bit_index as int / 8;
    let r = bit_index as int % 8;
    lemma_bits_of_byte(key.hash[i]);
    assert(bit == key.bit_at(bit_index as int));
    assert(bit_index as int == 8 * i + r);
    if r < 4 {
        assert((8 * i + r) / 4 == 2 * i && (8 * i + r) % 4 == r);
    } else {
        assert((8 * i + r) / 4 == 2 * i + 1 && (8 * i + r) % 4 == r - 4);
    }
}

/// The bits of a byte, read from its halves or from the byte itself.
proof fn lemma_bits_of_byte(byte: u8)
    ensures
        (byte / 16 / 8 % 2 == 1) == (byte >= 128),
        (byte / 16 / 4 % 2 == 1) == (byte % 128 >= 64),
        (byte / 16 / 2 % 2 == 1) == (byte % 64 >= 32),
        (byte / 16 % 2 == 1) == (byte % 32 >= 16),
        (byte % 16 / 8 % 2 == 1) == (byte % 16 >= 8),
        (byte % 16 / 4 % 2 == 1) == (byte % 8 >= 4),
        (byte % 16 / 2 % 2 == 1) == (byte % 4 >= 2),
        (byte % 16 % 2 == 1) == (byte % 2 == 1),
{
}

} // verus!
