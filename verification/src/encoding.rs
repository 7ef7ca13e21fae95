//! How numbers, leaves and hashes are laid out in bytes.
use crate::bytes::{be_bytes, be_value, le_bytes, le_value, lemma_be_roundtrip};
use crate::evm_fs::{chain_start, ChainState, EVMFs, KeccakEVMPoW};
use crate::field::PrimeField;
use crate::hasher::{
    abi_encode, keccak256_digest, masked, MaskedMerkleTreeEvmParams, MerkleConfig,
    MerkleTreeEvmParams,
};
use crate::transcript::{Difficulty, Fault, Grinding, PowStrategy, Refusal, Transcript};
use vstd::arithmetic::power::pow;
use vstd::prelude::*;

verus! {

/// The bytes `a` and then `b`, most significant first, make the number of `a` shifted by the bytes
/// of `b`, plus that of `b`; and one byte is its own number.
pub proof fn law_be_value(a: Seq<u8>, b: Seq<u8>, byte: u8)
    ensures
        be_value(Seq::empty()) == 0,
        be_value(seq![byte]) == byte,
        be_value(a + b) == be_value(a) * pow(256, b.len()) + be_value(b),
    decreases b.len(),
{
    reveal(pow);
    assert(seq![byte].drop_last() =~= Seq::<u8>::empty());
    assert(be_value(seq![byte].drop_last()) == 0);
    if b.len() == 0 {
        assert(a + b =~= a);
    } else {
        let c = b.drop_last();
        law_be_value(a, c, byte);
        assert((a + b).drop_last() =~= a + c);
        let (x, q, y) = (be_value(a) as int, pow(256, c.len()), be_value(c) as int);
        assert(pow(256, b.len()) == 256 * q);
        assert((x * q + y) * 256 == x * (256 * q) + y * 256) by (nonlinear_arith);
    }
}

/// The same with the least significant byte first.
pub proof fn law_le_value(a: Seq<u8>, b: Seq<u8>, byte: u8)
    ensures
        le_value(Seq::empty()) == 0,
        le_value(seq![byte]) == byte,
        le_value(a + b) == le_value(a) + le_value(b) * pow(256, a.len()),
    decreases a.len(),
{
    reveal(pow);
    assert(seq![byte].drop_first() =~= Seq::<u8>::empty());
    assert(le_value(seq![byte].drop_first()) == 0);
    if a.len() == 0 {
        assert(a + b =~= b);
    } else {
        let c = a.drop_first();
        law_le_value(c, b, byte);
        assert((a + b).drop_first() =~= c + b);
        let (q, y, z) = (pow(256, c.len()), le_value(b) as int, le_value(c) as int);
        assert(pow(256, a.len()) == 256 * q);
        assert(256 * (z + y * q) == 256 * z + y * (256 * q)) by (nonlinear_arith);
    }
}

/// A number that fits into `n` bytes is written in `n` bytes that make it again, in either order;
/// and only these bytes do.
pub proof fn law_number_bytes(v: nat, n: nat, bytes: Seq<u8>)
    requires
        v < pow(256, n),
        bytes.len() == n,
    ensures
        be_bytes(v, n).len() == n,
        le_bytes(v, n).len() == n,
        be_value(bytes) == v <==> bytes == be_bytes(v, n),
        le_value(bytes) == v <==> bytes == le_bytes(v, n),
{
    lemma_be_roundtrip(v, n);
    crate::bytes::lemma_le_roundtrip(v, n);
    crate::bytes::lemma_le_bytes_reversed(v, n);
    vstd::arithmetic::div_mod::lemma_small_mod(v, pow(256, n) as nat);
    if be_value(bytes) == v {
        lemma_be_unique(bytes, be_bytes(v, n));
    }
    if le_value(bytes) == v {
        crate::bytes::lemma_value_reversed(bytes.reverse());
        assert(bytes.reverse().reverse() =~= bytes);
        lemma_be_unique(bytes.reverse(), be_bytes(v, n));
        assert(bytes =~= be_bytes(v, n).reverse());
        assert(le_bytes(v, n).reverse().reverse() =~= le_bytes(v, n));
    }
}

/// Two lists of as many bytes that make the same number are the same.
proof fn lemma_be_unique(a: Seq<u8>, b: Seq<u8>)
    requires
        a.len() == b.len(),
        be_value(a) == be_value(b),
    ensures
        a == b,
    decreases a.len(),
{
    if a.len() > 0 {
        let (x, y) = (be_value(a.drop_last()) as int, be_value(b.drop_last()) as int);
        assert(x * 256 + a.last() == y * 256 + b.last());
        lemma_be_unique(a.drop_last(), b.drop_last());
        assert(a =~= a.drop_last().push(a.last()));
        assert(b =~= b.drop_last().push(b.last()));
    }
    assert(a =~= b);
}

/// A leaf is laid out element by element, in order, each in `width` bytes, most significant
/// first, with nothing before, between or after them.
pub proof fn law_leaf_layout(elements: Seq<nat>, width: nat, i: int)
    requires
        0 <= i < elements.len(),
        elements[i] < pow(256, width),
    ensures
        abi_encode(elements, width).len() == elements.len() * width,
        0 <= i * width,
        i * width + width <= elements.len() * width,
        be_value(abi_encode(elements, width).subrange(i * width, i * width + width)) == elements[i],
    decreases elements.len(),
{
    lemma_layout_len(elements, width);
    let rest = elements.drop_first();
    let head = be_bytes(elements[0], width);
    let tail = abi_encode(rest, width);
    let n = elements.len();
    crate::bytes::lemma_le_bytes_reversed(elements[0], width);
    assert(0 <= i * width) by (nonlinear_arith)
        requires
            0 <= i,
    ;
    assert(i * width + width <= n * width) by (nonlinear_arith)
        requires
            i + 1 <= n,
    ;
    let all = abi_encode(elements, width);
    if i == 0 {
        lemma_be_roundtrip(elements[0], width);
        assert(all.subrange(0, width as int) =~= head);
        assert(i * width == 0) by (nonlinear_arith)
            requires
                i == 0,
        ;
    } else {
        assert(rest[i - 1] == elements[i]);
        law_leaf_layout(rest, width, i - 1);
        assert((i - 1) * width + width == i * width) by (nonlinear_arith);
        assert(all.subrange(i * width, i * width + width) =~= tail.subrange(
            (i - 1) * width,
            (i - 1) * width + width,
        ));
    }
}

/// The layout takes `width` bytes for each element.
proof fn lemma_layout_len(elements: Seq<nat>, width: nat)
    ensures
        abi_encode(elements, width).len() == elements.len() * width,
    decreases elements.len(),
{
    if elements.len() > 0 {
        let n = elements.drop_first().len();
        lemma_layout_len(elements.drop_first(), width);
        crate::bytes::lemma_le_bytes_reversed(elements[0], width);
        assert((n + 1) * width == n * width + width) by (nonlinear_arith);
    } else {
        assert(0 * width == 0) by (nonlinear_arith);
    }
}

/// A cut hash keeps the first 20 bytes, and the other 12 are zero.
pub proof fn law_cut_hash(digest: Seq<u8>, i: int)
    requires
        digest.len() == 32,
    ensures
        masked(digest).len() == 32,
        0 <= i < 20 ==> masked(digest)[i] == digest[i],
        20 <= i < 32 ==> masked(digest)[i] == 0,
{
}

/// The two kinds of trees hash the same bytes: the layout of a leaf, and the hashes of both
/// children, the left one first. They differ in how much of the hash they keep.
pub proof fn law_tree_hashes<F: PrimeField>(leaf: Seq<nat>, left: Seq<u8>, right: Seq<u8>)
    ensures
        <MerkleTreeEvmParams<F> as MerkleConfig<F>>::leaf_digest(leaf) == keccak256_digest(
            abi_encode(leaf, F::byte_len()),
        ),
        <MerkleTreeEvmParams<F> as MerkleConfig<F>>::node_digest(left, right) == keccak256_digest(
            left + right,
        ),
        <MaskedMerkleTreeEvmParams<F> as MerkleConfig<F>>::leaf_digest(leaf) == masked(
            keccak256_digest(abi_encode(leaf, F::byte_len())),
        ),
        <MaskedMerkleTreeEvmParams<F> as MerkleConfig<F>>::node_digest(left, right) == masked(
            keccak256_digest(left + right),
        ),
{
}

/// A read takes the next bytes off the transcript and hashes them behind the chain; nothing
/// happens where there are too few.
pub proof fn law_chain_read(message: Seq<u8>, rest: Seq<u8>, chain: Seq<u8>, n: nat)
    ensures
        ({
            let s = ChainState { unread: message + rest, chain };
            let after = ChainState { unread: rest, chain: keccak256_digest(chain + message) };
            let short = ChainState { unread: message, chain };
            &&& s.read(message.len()) == Ok::<(Seq<u8>, ChainState), Refusal<ChainState>>(
                (message, after),
            )
            &&& n > message.len() ==> (short.read(n) is Err && short.read(n)->Err_0.error
                is InvalidIO && short.read(n)->Err_0.state == Some(short))
        }),
        chain_start().len() == 32,
        forall|i: int| 0 <= i < 32 ==> chain_start()[i] == 0,
{
    assert((message + rest).take(message.len() as int) =~= message);
    assert((message + rest).skip(message.len() as int) =~= rest);
}

/// What a verifier reads and draws over the chain: hashes of 32 bytes and field elements of a fixed
/// width, most significant byte first, which have to be reduced; a challenge is the hash of the
/// chain and the new chain, and stands for a field element by its residue. No work is asked for.
pub proof fn law_chain_transcript<F: PrimeField, S: PowStrategy>(
    message: Seq<u8>,
    rest: Seq<u8>,
    chain: Seq<u8>,
)
    ensures
        ({
            let s = ChainState { unread: message + rest, chain };
            let read = ChainState { unread: rest, chain: keccak256_digest(chain + message) };
            let drawn = ChainState { unread: message + rest, chain: keccak256_digest(chain) };
            let v = be_value(message);
            &&& message.len() == 32 ==> <EVMFs<F> as Transcript<F>>::reads_bytes(s) == Ok::<
                (Seq<u8>, ChainState),
                Refusal<ChainState>,
            >((message, read))
            &&& message.len() == F::byte_len() && v < F::modulus() ==> <EVMFs<F> as Transcript<
                F,
            >>::reads_scalar(s) == Ok::<(nat, ChainState), Refusal<ChainState>>((v, read))
            &&& message.len() == F::byte_len() && v >= F::modulus() ==> <EVMFs<F> as Transcript<
                F,
            >>::reads_scalar(s) == Err::<(nat, ChainState), Refusal<ChainState>>(
                Refusal { error: Fault::SerializationError, state: Some(read) },
            )
            &&& <EVMFs<F> as Transcript<F>>::draws_bytes(s) == Ok::<
                (Seq<u8>, ChainState),
                Refusal<ChainState>,
            >((keccak256_digest(chain), drawn))
            &&& <EVMFs<F> as Transcript<F>>::draws_scalar(s) == Ok::<
                (nat, ChainState),
                Refusal<ChainState>,
            >((be_value(keccak256_digest(chain)) % F::modulus(), drawn))
            &&& forall|d: Difficulty| #[trigger]
                <EVMFs<F> as Grinding<F, S>>::passes_work(s, d) == Ok::<
                    ((), ChainState),
                    Refusal<ChainState>,
                >(((), s))
        }),
{
    law_chain_read(message, rest, chain, 0);
}

/// A nonce is accepted under a bound exactly if the first 8 bytes of the hash of challenge and
/// nonce, the nonce in 8 bytes, make a smaller number.
pub proof fn law_keccak_work(challenge: Seq<u8>, nonce_bytes: Seq<u8>, bound: u64, nonce: u64)
    requires
        nonce_bytes.len() == 8,
        be_value(nonce_bytes) == nonce,
    ensures
        <KeccakEVMPoW as PowStrategy>::accepts(challenge, bound, nonce) <==> be_value(
            keccak256_digest(challenge + nonce_bytes).take(8),
        ) < bound,
{
    assert(pow(256, 8) == 0x1_0000_0000_0000_0000) by {
        reveal_with_fuel(pow, 9);
    }
    law_number_bytes(nonce as nat, 8, nonce_bytes);
}

} // verus!
