//! Keccak hashing of Merkle leaves and nodes the way an EVM contract computes it.
use crate::bytes::{be_bytes, le_bytes, lemma_be_roundtrip, lemma_le_bytes_reversed, reversed};
use crate::field::{vals, PrimeField};
use sha3::Digest;
use std::marker::PhantomData;
use vstd::arithmetic::power::pow;
use vstd::prelude::*;

verus! {

/// A 32-byte hash.
#[derive(Clone, Copy, Debug, PartialEq, Eq, Hash)]
pub struct KeccakDigest(pub [u8; 32]);

impl View for KeccakDigest {
    type V = Seq<u8>;

    open spec fn view(&self) -> Seq<u8> {
        self.0@
    }
}

impl KeccakDigest {
    /// Whether the two hashes have the same bytes.
    pub fn same(&self, other: &KeccakDigest) -> (r: bool)
        ensures
            r == (self@ == other@),
    {
        let mut i: usize = 0;
        while i < 32
            invariant
                i <= 32,
                forall|j: int| 0 <= j < i ==> self@[j] == other@[j],
            decreases 32 - i,
        {
            if self.0[i] != other.0[i] {
                assert(self@[i as int] != other@[i as int]);
                return false;
            }
            i += 1;
        }
        assert(self@ =~= other@);
        true
    }
}

/// The Keccak-256 hash of `data`, as `sha3::Keccak256` computes it.
pub uninterp spec fn keccak256_digest(data: Seq<u8>) -> Seq<u8>;

/// `sha3::Keccak256::digest`: a hash that the bytes alone determine.
#[verifier::external_body]
pub(crate) fn keccak256(data: &[u8]) -> (d: [u8; 32])
    ensures
        d@ == keccak256_digest(data@),
{
    sha3::Keccak256::digest(data).into()
}

/// The elements one after another, each in `width` bytes, most significant first: how the EVM
/// lays out an array whose length is known.
pub open spec fn abi_encode(elements: Seq<nat>, width: nat) -> Seq<u8>
    decreases elements.len(),
{
    if elements.len() == 0 {
        Seq::empty()
    } else {
        be_bytes(elements[0], width) + abi_encode(elements.drop_first(), width)
    }
}

/// The layout takes `width` bytes for each element.
proof fn lemma_abi_encode_len(elements: Seq<nat>, width: nat)
    ensures
        abi_encode(elements, width).len() == elements.len() * width,
    decreases elements.len(),
{
    if elements.len() > 0 {
        lemma_abi_encode_len(elements.drop_first(), width);
        lemma_le_bytes_reversed(elements[0], width);
        let n = elements.drop_first().len();
        assert((n + 1) * width == n * width + width) by (nonlinear_arith);
    } else {
        assert(0 * width == 0) by (nonlinear_arith);
    }
}

/// Different leaves are laid out differently: no count before the elements is needed to tell them
/// apart.
pub proof fn law_abi_encode_injective(a: Seq<nat>, b: Seq<nat>, width: nat)
    requires
        width > 0,
        forall|i: int| 0 <= i < a.len() ==> a[i] < pow(256, width),
        forall|i: int| 0 <= i < b.len() ==> b[i] < pow(256, width),
        abi_encode(a, width) == abi_encode(b, width),
    ensures
        a == b,
    decreases a.len(),
{
    lemma_abi_encode_len(a, width);
    lemma_abi_encode_len(b, width);
    let (m, n) = (a.len(), b.len());
    assert(m == n) by (nonlinear_arith)
        requires
            m * width == n * width,
            width > 0,
    ;
    if m > 0 {
        let (a1, b1) = (a.drop_first(), b.drop_first());
        let (x, y) = (be_bytes(a[0], width), be_bytes(b[0], width));
        lemma_be_roundtrip(a[0], width);
        lemma_be_roundtrip(b[0], width);
        let w = width as int;
        assert(abi_encode(a, width).take(w) =~= x);
        assert(abi_encode(b, width).take(w) =~= y);
        assert(abi_encode(a, width).skip(w) =~= abi_encode(a1, width));
        assert(abi_encode(b, width).skip(w) =~= abi_encode(b1, width));
        assert forall|i: int| 0 <= i < a1.len() implies a1[i] < pow(256, width) by {
            assert(a1[i] == a[i + 1]);
        }
        assert forall|i: int| 0 <= i < b1.len() implies b1[i] < pow(256, width) by {
            assert(b1[i] == b[i + 1]);
        }
        law_abi_encode_injective(a1, b1, width);
        assert(a =~= seq![a[0]] + a1);
        assert(b =~= seq![b[0]] + b1);
    } else {
        assert(a =~= b);
    }
}

/// `digest` with its last 12 bytes cleared.
pub open spec fn masked(digest: Seq<u8>) -> Seq<u8> {
    digest.take(20) + Seq::new(12, |i: int| 0u8)
}

/// Lays out field elements as the EVM does.
fn encode_leaf<F: PrimeField>(input: &[F]) -> (r: Vec<u8>)
    ensures
        r@ == abi_encode(vals(input@), F::byte_len()),
{
    let mut buf: Vec<u8> = Vec::new();
    let mut k: usize = input.len();
    proof {
        assert(vals(input@).skip(k as int) =~= Seq::<nat>::empty());
        assert(buf@.reverse() =~= Seq::<u8>::empty());
    }
    while k > 0
        invariant
            k <= input@.len(),
            buf@.reverse() == abi_encode(vals(input@).skip(k as int), F::byte_len()),
        decreases k,
    {
        k -= 1;
        let ghost before = buf@;
        input[k].serialize_uncompressed(&mut buf);
        proof {
            let x = input@[k as int].val();
            let w = F::byte_len();
            lemma_le_bytes_reversed(x, w);
            assert((before + le_bytes(x, w)).reverse() =~= le_bytes(x, w).reverse()
                + before.reverse());
            let rest = vals(input@).skip(k as int);
            assert(rest[0] == x);
            assert(rest.drop_first() =~= vals(input@).skip(k + 1));
        }
    }
    assert(vals(input@).skip(0) =~= vals(input@));
    reversed(&buf)
}

/// Keeps the first 20 bytes of a hash and clears the others.
fn mask(digest: [u8; 32]) -> (r: [u8; 32])
    ensures
        r@ == masked(digest@),
{
    let mut r: [u8; 32] = [0u8; 32];
    let mut i: usize = 0;
    while i < 20
        invariant
            i <= 20,
            forall|j: int| 0 <= j < i ==> r@[j] == digest@[j],
            forall|j: int| i <= j < 32 ==> r@[j] == 0u8,
        decreases 20 - i,
    {
        r[i] = digest[i];
        i += 1;
    }
    assert(r@ =~= masked(digest@));
    r
}

/// The bytes of two hashes in one string.
fn joined(left: &KeccakDigest, right: &KeccakDigest) -> (r: Vec<u8>)
    ensures
        r@ == left@ + right@,
{
    let mut r: Vec<u8> = Vec::with_capacity(64);
    let mut i: usize = 0;
    while i < 32
        invariant
            i <= 32,
            r@ == left@.take(i as int),
        decreases 32 - i,
    {
        r.push(left.0[i]);
        i += 1;
        assert(left@.take(i as int) =~= left@.take(i - 1).push(left@[i - 1]));
    }
    assert(left@.take(32) =~= left@);
    let mut j: usize = 0;
    assert(left@ + right@.take(0) =~= left@);
    while j < 32
        invariant
            j <= 32,
            r@ == left@ + right@.take(j as int),
        decreases 32 - j,
    {
        r.push(right.0[j]);
        j += 1;
        assert(left@ + right@.take(j as int) =~= (left@ + right@.take(j - 1)).push(right@[j - 1]));
    }
    assert(right@.take(32) =~= right@);
    r
}

/// The hash of a leaf: Keccak-256 of its elements as the EVM lays them out.
pub struct EvmKeccakLeafHash<F>(PhantomData<F>);

impl<F: PrimeField> EvmKeccakLeafHash<F> {
    pub fn evaluate(input: &[F]) -> (d: KeccakDigest)
        ensures
            d@ == keccak256_digest(abi_encode(vals(input@), F::byte_len())),
    {
        let buf = encode_leaf(input);
        KeccakDigest(keccak256(buf.as_slice()))
    }
}

/// The hash of a leaf, of which only the first 20 bytes are kept. Shorter hashes save calldata.
pub struct MaskedEvmKeccakLeafHash<F>(PhantomData<F>);

impl<F: PrimeField> MaskedEvmKeccakLeafHash<F> {
    pub fn evaluate(input: &[F]) -> (d: KeccakDigest)
        ensures
            d@ == masked(keccak256_digest(abi_encode(vals(input@), F::byte_len()))),
    {
        let buf = encode_leaf(input);
        KeccakDigest(mask(keccak256(buf.as_slice())))
    }
}

/// The hash of an inner node: Keccak-256 of the hashes of its children.
pub struct KeccakTwoToOneCRHScheme;

impl KeccakTwoToOneCRHScheme {
    pub fn evaluate(left_input: &KeccakDigest, right_input: &KeccakDigest) -> (d: KeccakDigest)
        ensures
            d@ == keccak256_digest(left_input@ + right_input@),
    {
        let buf = joined(left_input, right_input);
        KeccakDigest(keccak256(buf.as_slice()))
    }
}

/// The hash of an inner node, of which only the first 20 bytes are kept.
pub struct MaskedKeccakTwoToOneCRHScheme;

impl MaskedKeccakTwoToOneCRHScheme {
    pub fn evaluate(left_input: &KeccakDigest, right_input: &KeccakDigest) -> (d: KeccakDigest)
        ensures
            d@ == masked(keccak256_digest(left_input@ + right_input@)),
    {
        let buf = joined(left_input, right_input);
        KeccakDigest(mask(keccak256(buf.as_slice())))
    }

    /// Hashes two hashes; the same as [`Self::evaluate`].
    pub fn compress(left_input: &KeccakDigest, right_input: &KeccakDigest) -> (d: KeccakDigest)
        ensures
            d@ == masked(keccak256_digest(left_input@ + right_input@)),
    {
        Self::evaluate(left_input, right_input)
    }
}

/// How a Merkle tree hashes its leaves and its inner nodes.
pub trait MerkleConfig<F: PrimeField> {
    /// The hash of a leaf with these elements.
    spec fn leaf_digest(leaf: Seq<nat>) -> Seq<u8>;

    /// The hash of the node over two hashes.
    spec fn node_digest(left: Seq<u8>, right: Seq<u8>) -> Seq<u8>;

    fn hash_leaf(leaf: &[F]) -> (d: KeccakDigest)
        ensures
            d@ == Self::leaf_digest(vals(leaf@)),
    ;

    fn hash_node(left: &KeccakDigest, right: &KeccakDigest) -> (d: KeccakDigest)
        ensures
            d@ == Self::node_digest(left@, right@),
    ;
}

/// Merkle trees over full Keccak-256 hashes.
#[derive(Debug, Default)]
pub struct MerkleTreeEvmParams<F>(PhantomData<F>);

impl<F> Clone for MerkleTreeEvmParams<F> {
    fn clone(&self) -> (r: Self)
        ensures
            r == *self,
    {
        MerkleTreeEvmParams(PhantomData)
    }
}

impl<F: PrimeField> MerkleConfig<F> for MerkleTreeEvmParams<F> {
    open spec fn leaf_digest(leaf: Seq<nat>) -> Seq<u8> {
        keccak256_digest(abi_encode(leaf, F::byte_len()))
    }

    open spec fn node_digest(left: Seq<u8>, right: Seq<u8>) -> Seq<u8> {
        keccak256_digest(left + right)
    }

    fn hash_leaf(leaf: &[F]) -> (d: KeccakDigest) {
        EvmKeccakLeafHash::<F>::evaluate(leaf)
    }

    fn hash_node(left: &KeccakDigest, right: &KeccakDigest) -> (d: KeccakDigest) {
        KeccakTwoToOneCRHScheme::evaluate(left, right)
    }
}

/// Merkle trees over Keccak-256 hashes cut to 20 bytes.
#[derive(Debug, Default)]
pub struct MaskedMerkleTreeEvmParams<F>(PhantomData<F>);

impl<F> Clone for MaskedMerkleTreeEvmParams<F> {
    fn clone(&self) -> (r: Self)
        ensures
            r == *self,
    {
        MaskedMerkleTreeEvmParams(PhantomData)
    }
}

impl<F: PrimeField> MerkleConfig<F> for MaskedMerkleTreeEvmParams<F> {
    open spec fn leaf_digest(leaf: Seq<nat>) -> Seq<u8> {
        masked(keccak256_digest(abi_encode(leaf, F::byte_len())))
    }

    open spec fn node_digest(left: Seq<u8>, right: Seq<u8>) -> Seq<u8> {
        masked(keccak256_digest(left + right))
    }

    fn hash_leaf(leaf: &[F]) -> (d: KeccakDigest) {
        MaskedEvmKeccakLeafHash::<F>::evaluate(leaf)
    }

    fn hash_node(left: &KeccakDigest, right: &KeccakDigest) -> (d: KeccakDigest) {
        MaskedKeccakTwoToOneCRHScheme::evaluate(left, right)
    }
}

} // verus!
