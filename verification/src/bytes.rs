//! Positional readings of byte strings.
use vstd::arithmetic::power::{lemma_pow0, lemma_pow_increases, lemma_pow_positive, pow};
use vstd::prelude::*;

verus! {

/// The number whose base-256 digits are `bytes`, least significant first.
pub open spec fn le_value(bytes: Seq<u8>) -> nat
    decreases bytes.len(),
{
    if bytes.len() == 0 {
        0
    } else {
        bytes[0] as nat + 256 * le_value(bytes.drop_first())
    }
}

/// The number whose base-256 digits are `bytes`, most significant first.
pub open spec fn be_value(bytes: Seq<u8>) -> nat
    decreases bytes.len(),
{
    if bytes.len() == 0 {
        0
    } else {
        be_value(bytes.drop_last()) * 256 + bytes.last() as nat
    }
}

/// The `n` low base-256 digits of `v`, least significant first.
pub open spec fn le_bytes(v: nat, n: nat) -> Seq<u8>
    decreases n,
{
    if n == 0 {
        Seq::empty()
    } else {
        seq![(v % 256) as u8] + le_bytes(v / 256, (n - 1) as nat)
    }
}

/// The `n` low base-256 digits of `v`, most significant first.
pub open spec fn be_bytes(v: nat, n: nat) -> Seq<u8>
    decreases n,
{
    if n == 0 {
        Seq::empty()
    } else {
        be_bytes(v / 256, (n - 1) as nat).push((v % 256) as u8)
    }
}

/// The number whose base-256 digits are `bytes`, most significant first.
pub fn be_u64(bytes: &[u8; 8]) -> (r: u64)
    ensures
        r == be_value(bytes@),
{
    let mut r: u64 = 0;
    let mut i: usize = 0;
    proof {
        lemma_pow0(256);
    }
    while i < 8
        invariant
            i <= 8,
            r == be_value(bytes@.take(i as int)),
            r < pow(256, i as nat),
        decreases 8 - i,
    {
        proof {
            assert(pow(256, 8) == 0x1_0000_0000_0000_0000) by {
                reveal_with_fuel(pow, 9);
            }
            lemma_pow_increases(256, (i + 1) as nat, 8);
            assert(pow(256, (i + 1) as nat) == 256 * pow(256, i as nat)) by {
                reveal(pow);
            }
            assert(bytes@.take(i + 1).drop_last() =~= bytes@.take(i as int));
        }
        r = r * 256 + bytes[i] as u64;
        i += 1;
    }
    assert(bytes@.take(8) =~= bytes@);
    r
}

/// The bytes in the opposite order.
pub fn reversed(bytes: &Vec<u8>) -> (r: Vec<u8>)
    ensures
        r@ == bytes@.reverse(),
{
    let mut r: Vec<u8> = Vec::with_capacity(bytes.len());
    let mut i: usize = bytes.len();
    while i > 0
        invariant
            i <= bytes@.len(),
            r@.len() == bytes@.len() - i,
            forall|j: int| 0 <= j < r@.len() ==> r@[j] == bytes@[bytes@.len() - 1 - j],
        decreases i,
    {
        i -= 1;
        r.push(bytes[i]);
    }
    assert(r@ =~= bytes@.reverse());
    r
}

/// Digits read backwards make the same number in the opposite order.
pub proof fn lemma_value_reversed(bytes: Seq<u8>)
    ensures
        le_value(bytes.reverse()) == be_value(bytes),
    decreases bytes.len(),
{
    if bytes.len() > 0 {
        lemma_value_reversed(bytes.drop_last());
        assert(bytes.reverse().drop_first() =~= bytes.drop_last().reverse());
    }
}

/// A little-endian encoding read backwards is the big-endian one.
pub proof fn lemma_le_bytes_reversed(v: nat, n: nat)
    ensures
        le_bytes(v, n).len() == n,
        be_bytes(v, n).len() == n,
        le_bytes(v, n).reverse() == be_bytes(v, n),
    decreases n,
{
    if n > 0 {
        lemma_le_bytes_reversed(v / 256, (n - 1) as nat);
        let tail = le_bytes(v / 256, (n - 1) as nat);
        assert((seq![(v % 256) as u8] + tail).reverse() =~= tail.reverse().push((v % 256) as u8));
    } else {
        assert(le_bytes(v, n).reverse() =~= be_bytes(v, n));
    }
}

/// Reading back a little-endian encoding gives the number, where the digits suffice.
pub proof fn lemma_le_roundtrip(v: nat, n: nat)
    ensures
        le_value(le_bytes(v, n)) == v % pow(256, n) as nat,
        pow(256, n) > 0,
    decreases n,
{
    lemma_pow_positive(256, n);
    if n == 0 {
        lemma_pow0(256);
    } else {
        let m = (n - 1) as nat;
        lemma_le_roundtrip(v / 256, m);
        lemma_pow_positive(256, m);
        let p = pow(256, m) as nat;
        assert(pow(256, n) == 256 * p) by {
            reveal(pow);
        }
        assert(le_bytes(v, n).drop_first() =~= le_bytes(v / 256, m));
        assert(v % (256 * p) == v % 256 + 256 * ((v / 256) % p)) by {
            vstd::arithmetic::div_mod::lemma_mod_breakdown(v as int, 256, p as int);
        }
    }
}

/// Reading back a big-endian encoding gives the number, where the digits suffice.
pub proof fn lemma_be_roundtrip(v: nat, n: nat)
    requires
        v < pow(256, n),
    ensures
        be_value(be_bytes(v, n)) == v,
        be_bytes(v, n).len() == n,
{
    lemma_le_roundtrip(v, n);
    lemma_le_bytes_reversed(v, n);
    lemma_value_reversed(be_bytes(v, n));
    assert(be_bytes(v, n).reverse() =~= le_bytes(v, n));
    vstd::arithmetic::div_mod::lemma_small_mod(v, pow(256, n) as nat);
}

/// The 8 base-256 digits of `v`, most significant first.
pub fn u64_be(v: u64) -> (r: Vec<u8>)
    ensures
        r@ == be_bytes(v as nat, 8),
{
    let mut digits: Vec<u8> = Vec::with_capacity(8);
    let mut rest: u64 = v;
    let mut i: usize = 0;
    assert(digits@ + le_bytes(v as nat, 8) =~= le_bytes(v as nat, 8));
    while i < 8
        invariant
            i <= 8,
            digits@ + le_bytes(rest as nat, (8 - i) as nat) == le_bytes(v as nat, 8),
        decreases 8 - i,
    {
        let ghost before = digits@;
        let digit: u8 = (rest % 256) as u8;
        let ghost tail = le_bytes((rest / 256) as nat, (7 - i) as nat);
        assert(le_bytes(rest as nat, (8 - i) as nat) == seq![digit] + tail);
        digits.push(digit);
        assert(before.push(digit) + tail =~= before + (seq![digit] + tail));
        rest = rest / 256;
        i += 1;
    }
    assert(digits@ + le_bytes(rest as nat, 0) =~= digits@);
    proof {
        lemma_le_bytes_reversed(v as nat, 8);
    }
    reversed(&digits)
}

} // verus!
