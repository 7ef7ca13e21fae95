//! The scalar field of the BN254 curve.
use crate::bytes::{be_value, le_bytes, le_value};
use crate::field::{fpow, PrimeField};
use ark_ff::{BigInt, Field, PrimeField as ArkPrimeField};
use ark_serialize::{CanonicalDeserialize, CanonicalSerialize};
use vstd::arithmetic::power::pow;
use vstd::prelude::*;

verus! {

/// The number with the 64-bit digits `limbs`, least significant first.
pub open spec fn limbs_value(limbs: [u64; 4]) -> nat {
    (limbs[0] + limbs[1] * 0x1_0000_0000_0000_0000 + limbs[2]
        * 0x1_0000_0000_0000_0000_0000_0000_0000_0000 + limbs[3]
        * 0x1_0000_0000_0000_0000_0000_0000_0000_0000_0000_0000_0000_0000) as nat
}

/// The order of the field.
pub open spec fn bn254_order() -> nat {
    21888242871839275222246405745257275088548364400416034343698204186575808495617nat
}

/// `ark_bn254::Fr`'s addition, on reduced numbers: the sum modulo the order.
#[verifier::external_body]
fn fr_add(a: [u64; 4], b: [u64; 4]) -> (r: [u64; 4])
    requires
        limbs_value(a) < bn254_order(),
        limbs_value(b) < bn254_order(),
    ensures
        limbs_value(r) == (limbs_value(a) + limbs_value(b)) % bn254_order(),
{
    let x = ark_bn254::Fr::from_bigint(BigInt(a)).unwrap();
    let y = ark_bn254::Fr::from_bigint(BigInt(b)).unwrap();
    (x + y).into_bigint().0
}

/// `ark_bn254::Fr`'s subtraction, on reduced numbers: the difference modulo the order.
#[verifier::external_body]
fn fr_sub(a: [u64; 4], b: [u64; 4]) -> (r: [u64; 4])
    requires
        limbs_value(a) < bn254_order(),
        limbs_value(b) < bn254_order(),
    ensures
        limbs_value(r) == (limbs_value(a) - limbs_value(b)) % (bn254_order() as int),
{
    let x = ark_bn254::Fr::from_bigint(BigInt(a)).unwrap();
    let y = ark_bn254::Fr::from_bigint(BigInt(b)).unwrap();
    (x - y).into_bigint().0
}

/// `ark_bn254::Fr`'s multiplication, on reduced numbers: the product modulo the order.
#[verifier::external_body]
fn fr_mul(a: [u64; 4], b: [u64; 4]) -> (r: [u64; 4])
    requires
        limbs_value(a) < bn254_order(),
        limbs_value(b) < bn254_order(),
    ensures
        limbs_value(r) == (limbs_value(a) * limbs_value(b)) % bn254_order(),
{
    let x = ark_bn254::Fr::from_bigint(BigInt(a)).unwrap();
    let y = ark_bn254::Fr::from_bigint(BigInt(b)).unwrap();
    (x * y).into_bigint().0
}

/// `ark_ff::Field::pow` of `ark_bn254::Fr`, with a one-word exponent, on reduced numbers: the
/// power modulo the order.
#[verifier::external_body]
fn fr_pow(a: [u64; 4], e: u64) -> (r: [u64; 4])
    requires
        limbs_value(a) < bn254_order(),
    ensures
        limbs_value(r) == pow(limbs_value(a) as int, e as nat) % (bn254_order() as int),
{
    let x = ark_bn254::Fr::from_bigint(BigInt(a)).unwrap();
    x.pow([e]).into_bigint().0
}

/// `ark_ff::Field::inverse` of `ark_bn254::Fr`, on reduced numbers: nothing for zero, and for
/// every other number the reduced one whose product with it is one modulo the order.
#[verifier::external_body]
fn fr_inverse(a: [u64; 4]) -> (r: Option<[u64; 4]>)
    requires
        limbs_value(a) < bn254_order(),
    ensures
        r is Some <==> limbs_value(a) != 0,
        r matches Some(i) ==> limbs_value(i) < bn254_order() && (limbs_value(a) * limbs_value(i))
            % bn254_order() == 1,
{
    let x = ark_bn254::Fr::from_bigint(BigInt(a)).unwrap();
    x.inverse().map(|i| i.into_bigint().0)
}

/// `ark_serialize::CanonicalSerialize::serialize_uncompressed` of `ark_bn254::Fr` into a byte
/// vector, on reduced numbers: appends the number in 32 bytes, least significant first.
#[verifier::external_body]
fn fr_serialize_uncompressed(a: [u64; 4], buf: &mut Vec<u8>)
    requires
        limbs_value(a) < bn254_order(),
    ensures
        final(buf)@ == old(buf)@ + le_bytes(limbs_value(a), 32),
{
    let x = ark_bn254::Fr::from_bigint(BigInt(a)).unwrap();
    x.serialize_uncompressed(buf).unwrap()
}

/// `ark_serialize::CanonicalDeserialize::deserialize_uncompressed` of `ark_bn254::Fr`, on 32
/// bytes: the number that they encode, least significant first, and nothing where that number is
/// not reduced.
#[verifier::external_body]
fn fr_deserialize_uncompressed(bytes: &[u8]) -> (r: Option<[u64; 4]>)
    requires
        bytes@.len() == 32,
    ensures
        r is Some <==> le_value(bytes@) < bn254_order(),
        r matches Some(limbs) ==> limbs_value(limbs) == le_value(bytes@),
{
    ark_bn254::Fr::deserialize_uncompressed(bytes).ok().map(|x| x.into_bigint().0)
}

/// `ark_ff::PrimeField::from_be_bytes_mod_order` of `ark_bn254::Fr`: the number with these
/// digits, most significant first, modulo the order.
#[verifier::external_body]
fn fr_from_be_bytes_mod_order(bytes: &[u8]) -> (r: [u64; 4])
    ensures
        limbs_value(r) == be_value(bytes@) % bn254_order(),
{
    ark_bn254::Fr::from_be_bytes_mod_order(bytes).into_bigint().0
}

/// An element of the scalar field of the BN254 curve.
#[derive(Clone, Copy, Debug, PartialEq, Eq)]
pub struct FieldBn256 {
    limbs: [u64; 4],
}

impl FieldBn256 {
    #[verifier::type_invariant]
    spec fn reduced(self) -> bool {
        limbs_value(self.limbs) < bn254_order()
    }

    /// The element with the 64-bit digits `limbs`, least significant first, if they make a
    /// reduced number.
    pub fn from_limbs(limbs: [u64; 4]) -> (r: Option<Self>)
        ensures
            r is Some <==> limbs_value(limbs) < bn254_order(),
            r matches Some(x) ==> x.val() == limbs_value(limbs),
    {
        let m0: u64 = 0x43e1f593f0000001;
        let m1: u64 = 0x2833e84879b97091;
        let m2: u64 = 0xb85045b68181585d;
        let m3: u64 = 0x30644e72e131a029;
        let below = limbs[3] < m3 || (limbs[3] == m3 && (limbs[2] < m2 || (limbs[2] == m2 && (
        limbs[1] < m1 || (limbs[1] == m1 && limbs[0] < m0)))));
        assert(below <==> limbs_value(limbs) < bn254_order());
        if below {
            Some(FieldBn256 { limbs })
        } else {
            None
        }
    }

    /// The 64-bit digits of the residue, least significant first.
    pub fn to_limbs(self) -> (r: [u64; 4])
        ensures
            limbs_value(r) == self.val(),
    {
        proof {
            use_type_invariant(self);
        }
        self.limbs
    }
}

/// Powers taken one factor at a time agree with the powers of the integers.
proof fn lemma_fpow_is_pow(p: nat, b: nat, e: nat)
    requires
        p > 0,
    ensures
        fpow(p, b, e) == pow(b as int, e) % (p as int),
    decreases e,
{
    reveal(pow);
    if e > 0 {
        let q = (e - 1) as nat;
        lemma_fpow_is_pow(p, b, q);
        vstd::arithmetic::div_mod::lemma_mul_mod_noop_left(pow(b as int, q), b as int, p as int);
        assert(pow(b as int, e) == pow(b as int, q) * b) by (nonlinear_arith)
            requires
                pow(b as int, e) == b * pow(b as int, q),
        ;
    }
}

impl PrimeField for FieldBn256 {
    open spec fn modulus() -> nat {
        bn254_order()
    }

    closed spec fn val(&self) -> nat {
        limbs_value(self.limbs) % bn254_order()
    }

    open spec fn byte_len() -> nat {
        32
    }

    proof fn lemma_modulus() {
    }

    proof fn lemma_byte_len() {
        assert(pow(256, 8) == 0x1_0000_0000_0000_0000) by {
            vstd::arithmetic::power::lemma_pow0(256);
            reveal_with_fuel(pow, 9);
        }
        vstd::arithmetic::power::lemma_pow_adds(256, 8, 8);
        assert(pow(256, 16) == 0x1_0000_0000_0000_0000 * 0x1_0000_0000_0000_0000);
        vstd::arithmetic::power::lemma_pow_adds(256, 16, 16);
        assert(pow(256, 32) == 0x1_0000_0000_0000_0000_0000_0000_0000_0000
            * 0x1_0000_0000_0000_0000_0000_0000_0000_0000);
    }

    proof fn lemma_val(&self) {
    }

    fn zero() -> (r: Self) {
        FieldBn256 { limbs: [0, 0, 0, 0] }
    }

    fn one() -> (r: Self) {
        FieldBn256 { limbs: [1, 0, 0, 0] }
    }

    fn from_u64(x: u64) -> (r: Self) {
        FieldBn256 { limbs: [x, 0, 0, 0] }
    }

    fn plus(self, other: Self) -> (r: Self) {
        proof {
            use_type_invariant(self);
            use_type_invariant(other);
        }
        FieldBn256 { limbs: fr_add(self.limbs, other.limbs) }
    }

    fn minus(self, other: Self) -> (r: Self) {
        proof {
            use_type_invariant(self);
            use_type_invariant(other);
        }
        FieldBn256 { limbs: fr_sub(self.limbs, other.limbs) }
    }

    fn times(self, other: Self) -> (r: Self) {
        proof {
            use_type_invariant(self);
            use_type_invariant(other);
        }
        FieldBn256 { limbs: fr_mul(self.limbs, other.limbs) }
    }

    fn pow(self, exponent: u64) -> (r: Self) {
        proof {
            use_type_invariant(self);
            lemma_fpow_is_pow(bn254_order(), limbs_value(self.limbs), exponent as nat);
        }
        FieldBn256 { limbs: fr_pow(self.limbs, exponent) }
    }

    fn inverse(self) -> (r: Option<Self>) {
        proof {
            use_type_invariant(self);
        }
        match fr_inverse(self.limbs) {
            Some(limbs) => Some(FieldBn256 { limbs }),
            None => None,
        }
    }

    fn equals(self, other: Self) -> (r: bool) {
        proof {
            use_type_invariant(self);
            use_type_invariant(other);
        }
        self.limbs[0] == other.limbs[0] && self.limbs[1] == other.limbs[1] && self.limbs[2]
            == other.limbs[2] && self.limbs[3] == other.limbs[3]
    }

    fn serialize_uncompressed(self, buf: &mut Vec<u8>) {
        proof {
            use_type_invariant(self);
        }
        fr_serialize_uncompressed(self.limbs, buf)
    }

    fn encoded_len() -> (n: usize) {
        32
    }

    fn deserialize_uncompressed(bytes: &[u8]) -> (r: Option<Self>) {
        match fr_deserialize_uncompressed(bytes) {
            Some(limbs) => Some(FieldBn256 { limbs }),
            None => None,
        }
    }

    fn from_be_bytes_mod_order(bytes: &[u8]) -> (r: Self) {
        FieldBn256 { limbs: fr_from_be_bytes_mod_order(bytes) }
    }
}

} // verus!
