//! Arithmetic modulo a prime: the mathematical operations and the trait of the types that
//! compute them.
use crate::bytes::{be_value, le_bytes, le_value};
use vstd::arithmetic::power::pow;
use vstd::prelude::*;

verus! {

/// `a + b` modulo `p`.
pub open spec fn fadd(p: nat, a: nat, b: nat) -> nat {
    (a + b) % p
}

/// `a - b` modulo `p`.
pub open spec fn fsub(p: nat, a: nat, b: nat) -> nat {
    ((a - b) % (p as int)) as nat
}

/// `a * b` modulo `p`.
pub open spec fn fmul(p: nat, a: nat, b: nat) -> nat {
    (a * b) % p
}

/// `b` to the power `e` modulo `p`.
pub open spec fn fpow(p: nat, b: nat, e: nat) -> nat
    decreases e,
{
    if e == 0 {
        1nat % p
    } else {
        fmul(p, fpow(p, b, (e - 1) as nat), b)
    }
}

/// The inverse of two modulo an odd `p`.
pub open spec fn half(p: nat) -> nat {
    (p + 1) / 2
}

/// The residue of a residue.
pub proof fn lemma_residue(p: nat, a: nat)
    requires
        a < p,
    ensures
        a % p == a,
{
    vstd::arithmetic::div_mod::lemma_small_mod(a, p);
}

/// Operations on residues may reduce their arguments first.
pub proof fn lemma_reduce(p: nat, a: nat, b: nat)
    requires
        p > 0,
    ensures
        fadd(p, a % p, b) == fadd(p, a, b),
        fadd(p, a, b % p) == fadd(p, a, b),
        fmul(p, a % p, b) == fmul(p, a, b),
        fmul(p, a, b % p) == fmul(p, a, b),
        fadd(p, a, b) < p,
        fmul(p, a, b) < p,
{
    let (x, y, m) = (a as int, b as int, p as int);
    vstd::arithmetic::div_mod::lemma_add_mod_noop_right(y, x, m);
    vstd::arithmetic::div_mod::lemma_add_mod_noop_right(x, y, m);
    vstd::arithmetic::div_mod::lemma_mul_mod_noop_left(x, y, m);
    vstd::arithmetic::div_mod::lemma_mul_mod_noop_right(x, y, m);
    vstd::arithmetic::div_mod::lemma_mod_bound(x + y, m);
    vstd::arithmetic::div_mod::lemma_mod_bound(x * y, m);
}

pub proof fn lemma_fadd_assoc(p: nat, a: nat, b: nat, c: nat)
    requires
        p > 0,
    ensures
        fadd(p, fadd(p, a, b), c) == fadd(p, a, fadd(p, b, c)),
{
    lemma_reduce(p, a + b, c);
    lemma_reduce(p, a, b + c);
}

pub proof fn lemma_fmul_comm(p: nat, a: nat, b: nat)
    ensures
        fmul(p, a, b) == fmul(p, b, a),
{
    assert(a * b == b * a) by (nonlinear_arith);
}

pub proof fn lemma_fmul_assoc(p: nat, a: nat, b: nat, c: nat)
    requires
        p > 0,
    ensures
        fmul(p, fmul(p, a, b), c) == fmul(p, a, fmul(p, b, c)),
{
    lemma_reduce(p, a * b, c);
    lemma_reduce(p, a, b * c);
    assert((a * b) * c == a * (b * c)) by (nonlinear_arith);
}

pub proof fn lemma_distribute(p: nat, a: nat, b: nat, c: nat)
    requires
        p > 0,
    ensures
        fmul(p, a, fadd(p, b, c)) == fadd(p, fmul(p, a, b), fmul(p, a, c)),
{
    lemma_reduce(p, a, b + c);
    lemma_reduce(p, a * b, a * c);
    lemma_reduce(p, (a * b) % p, a * c);
    assert(a * (b + c) == a * b + a * c) by (nonlinear_arith);
}

/// The powers of a base add their exponents.
pub proof fn lemma_fpow_add(p: nat, b: nat, m: nat, n: nat)
    requires
        p > 0,
    ensures
        fpow(p, b, m + n) == fmul(p, fpow(p, b, m), fpow(p, b, n)),
        fpow(p, b, m) < p,
    decreases n,
{
    lemma_fpow_bound(p, b, m);
    if n == 0 {
        lemma_reduce(p, fpow(p, b, m), 1);
        lemma_residue(p, fpow(p, b, m));
    } else {
        lemma_fpow_add(p, b, m, (n - 1) as nat);
        lemma_fmul_assoc(p, fpow(p, b, m), fpow(p, b, (n - 1) as nat), b);
    }
}

/// A power of a power multiplies the exponents.
pub proof fn lemma_fpow_mul(p: nat, b: nat, m: nat, n: nat)
    requires
        p > 0,
    ensures
        fpow(p, fpow(p, b, m), n) == fpow(p, b, m * n),
    decreases n,
{
    if n == 0 {
        assert(m * 0 == 0) by (nonlinear_arith);
    } else {
        let k = (n - 1) as nat;
        lemma_fpow_mul(p, b, m, k);
        lemma_fpow_add(p, b, m * k, m);
        assert(m * n == m * k + m) by (nonlinear_arith)
            requires
                n == k + 1,
        ;
    }
}

/// Powers are reduced.
pub proof fn lemma_fpow_bound(p: nat, b: nat, m: nat)
    requires
        p > 0,
    ensures
        fpow(p, b, m) < p,
{
    if m > 0 {
        lemma_reduce(p, fpow(p, b, (m - 1) as nat), b);
    }
}

/// The first power is the residue itself.
pub proof fn lemma_fpow_one(p: nat, b: nat)
    requires
        b < p,
    ensures
        fpow(p, b, 1) == b,
{
    assert(fpow(p, b, 1) == fmul(p, fpow(p, b, 0), b));
    lemma_reduce(p, 1, b);
    lemma_residue(p, b);
}

/// Two times [`half`] is one.
pub proof fn lemma_half(p: nat)
    requires
        p > 2,
        p % 2 == 1,
    ensures
        fmul(p, 2, half(p)) == 1,
        half(p) < p,
{
    assert(2 * half(p) == p + 1);
    vstd::arithmetic::div_mod::lemma_mod_add_multiples_vanish(1, p as int);
    lemma_residue(p, 1);
}

/// [`half`] is the only inverse of two.
pub proof fn lemma_half_unique(p: nat, t: nat)
    requires
        p > 2,
        p % 2 == 1,
        t < p,
        fmul(p, 2, t) == 1,
    ensures
        t == half(p),
{
    let h = half(p);
    lemma_half(p);
    // h == h * (2 * t) == (h * 2) * t == t
    lemma_fmul_assoc(p, h, 2, t);
    lemma_fmul_comm(p, 2, h);
    lemma_residue(p, t);
    lemma_residue(p, h);
}

/// The residues that a sequence of field elements stands for.
pub open spec fn vals<F: PrimeField>(s: Seq<F>) -> Seq<nat> {
    s.map_values(|x: F| x.val())
}

/// The residues that a sequence of rows of field elements stands for.
pub open spec fn rows<F: PrimeField>(s: Seq<Vec<F>>) -> Seq<Seq<nat>> {
    s.map_values(|x: Vec<F>| vals(x@))
}

/// A field whose elements are represented by residues modulo an odd number, its order. That the
/// order is prime is not claimed; [`Self::inverse`] finds the inverses.
pub trait PrimeField: Sized + Copy {
    /// The order of the field.
    spec fn modulus() -> nat;

    /// The residue that this element stands for.
    spec fn val(&self) -> nat;

    /// How many bytes the encoding of an element takes.
    spec fn byte_len() -> nat;

    /// The order is odd and more than two.
    proof fn lemma_modulus()
        ensures
            Self::modulus() > 2,
            Self::modulus() % 2 == 1,
    ;

    /// The encoding of an element has room for every residue.
    proof fn lemma_byte_len()
        ensures
            Self::modulus() <= pow(256, Self::byte_len()),
    ;

    /// Residues are reduced.
    proof fn lemma_val(&self)
        ensures
            self.val() < Self::modulus(),
    ;

    fn zero() -> (r: Self)
        ensures
            r.val() == 0,
    ;

    fn one() -> (r: Self)
        ensures
            r.val() == 1,
    ;

    fn from_u64(x: u64) -> (r: Self)
        ensures
            r.val() == x as nat % Self::modulus(),
    ;

    fn plus(self, other: Self) -> (r: Self)
        ensures
            r.val() == fadd(Self::modulus(), self.val(), other.val()),
    ;

    fn minus(self, other: Self) -> (r: Self)
        ensures
            r.val() == fsub(Self::modulus(), self.val(), other.val()),
    ;

    fn times(self, other: Self) -> (r: Self)
        ensures
            r.val() == fmul(Self::modulus(), self.val(), other.val()),
    ;

    fn pow(self, exponent: u64) -> (r: Self)
        ensures
            r.val() == fpow(Self::modulus(), self.val(), exponent as nat),
    ;

    /// The multiplicative inverse, of every element but zero.
    fn inverse(self) -> (r: Option<Self>)
        ensures
            r is Some <==> self.val() != 0,
            r matches Some(i) ==> fmul(Self::modulus(), self.val(), i.val()) == 1,
    ;

    fn equals(self, other: Self) -> (r: bool)
        ensures
            r == (self.val() == other.val()),
    ;

    /// Appends the uncompressed encoding: the residue, least significant byte first.
    fn serialize_uncompressed(self, buf: &mut Vec<u8>)
        ensures
            final(buf)@ == old(buf)@ + le_bytes(self.val(), Self::byte_len()),
    ;

    /// How many bytes the encoding of an element takes.
    fn encoded_len() -> (n: usize)
        ensures
            n == Self::byte_len(),
    ;

    /// Reads an uncompressed encoding; only reduced residues are accepted.
    fn deserialize_uncompressed(bytes: &[u8]) -> (r: Option<Self>)
        requires
            bytes@.len() == Self::byte_len(),
        ensures
            r is Some <==> le_value(bytes@) < Self::modulus(),
            r matches Some(x) ==> x.val() == le_value(bytes@),
    ;

    /// The residue of the number with the base-256 digits `bytes`, most significant first.
    fn from_be_bytes_mod_order(bytes: &[u8]) -> (r: Self)
        ensures
            r.val() == be_value(bytes@) % Self::modulus(),
    ;
}

} // verus!
