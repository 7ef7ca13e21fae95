//! The polynomials that a sumcheck prover sends.
use crate::field::{fadd, fmul, fsub, half, lemma_reduce, lemma_residue, PrimeField};
use crate::poly::univariate;
use vstd::prelude::*;

verus! {

/// The values at 0, 1 and 2 of a polynomial of degree at most two.
pub struct Quadratic {
    pub at_zero: nat,
    pub at_one: nat,
    pub at_two: nat,
}

impl Quadratic {
    /// The sum of the values at 0 and 1.
    pub open spec fn sum(self, p: nat) -> nat {
        fadd(p, self.at_zero, self.at_one)
    }

    /// The value at `r`, by interpolation.
    pub open spec fn at(self, p: nat, r: nat) -> nat {
        let w0 = fmul(p, fmul(p, fsub(p, r, 1), fsub(p, r, 2)), half(p));
        let w1 = fmul(p, r, fsub(p, 2, r));
        let w2 = fmul(p, fmul(p, r, fsub(p, r, 1)), half(p));
        fadd(
            p,
            fadd(p, fmul(p, self.at_zero, w0), fmul(p, self.at_one, w1)),
            fmul(p, self.at_two, w2),
        )
    }
}

/// A polynomial of degree at most two, given by its values at 0, 1 and 2.
#[derive(Clone, Copy, Debug)]
pub struct SumcheckPolynomial<F> {
    pub evaluations: [F; 3],
}

impl<F: PrimeField> SumcheckPolynomial<F> {
    /// The values at 0, 1 and 2.
    pub open spec fn quadratic(&self) -> Quadratic {
        Quadratic {
            at_zero: self.evaluations[0].val(),
            at_one: self.evaluations[1].val(),
            at_two: self.evaluations[2].val(),
        }
    }

    pub fn new(evaluations: [F; 3]) -> (r: Self)
        ensures
            r.evaluations == evaluations,
    {
        SumcheckPolynomial { evaluations }
    }

    /// The sum of the values at 0 and 1.
    pub fn sum_over_hypercube(&self) -> (r: F)
        ensures
            r.val() == self.quadratic().sum(F::modulus()),
    {
        self.evaluations[0].plus(self.evaluations[1])
    }

    /// The value at `point`; `two_inv` is the inverse of two.
    pub fn evaluate_at_point(&self, point: F, two_inv: F) -> (r: F)
        requires
            two_inv.val() == half(F::modulus()),
        ensures
            r.val() == self.quadratic().at(F::modulus(), point.val()),
    {
        let one: F = F::one();
        let two: F = F::from_u64(2);
        proof {
            F::lemma_modulus();
            lemma_residue(F::modulus(), 2);
        }
        let w0 = point.minus(one).times(point.minus(two)).times(two_inv);
        let w1 = point.times(two.minus(point));
        let w2 = point.times(point.minus(one)).times(two_inv);
        self.evaluations[0].times(w0).plus(self.evaluations[1].times(w1)).plus(
            self.evaluations[2].times(w2),
        )
    }
}

/// The interpolation formula, with the reductions in between left out.
pub proof fn lemma_at_flat(q: Quadratic, p: nat, r: nat)
    requires
        p > 0,
    ensures
        q.at(p, r) == (q.at_zero * (((r - 1) * (r - 2)) * half(p)) + q.at_one * (r * (2 - r))
            + q.at_two * ((r * (r - 1)) * half(p))) % (p as int),
{
    let m = p as int;
    let h = half(p) as int;
    let ri = r as int;
    let (e0, e1, e2) = (q.at_zero as int, q.at_one as int, q.at_two as int);
    vstd::arithmetic::div_mod::lemma_mod_bound(ri - 1, m);
    vstd::arithmetic::div_mod::lemma_mod_bound(ri - 2, m);
    vstd::arithmetic::div_mod::lemma_mod_bound(2 - ri, m);
    vstd::arithmetic::div_mod::lemma_mul_mod_noop(ri - 1, ri - 2, m);
    vstd::arithmetic::div_mod::lemma_mul_mod_noop_left((ri - 1) * (ri - 2), h, m);
    vstd::arithmetic::div_mod::lemma_mul_mod_noop_right(ri, 2 - ri, m);
    vstd::arithmetic::div_mod::lemma_mul_mod_noop_right(ri, ri - 1, m);
    vstd::arithmetic::div_mod::lemma_mul_mod_noop_left(ri * (ri - 1), h, m);
    let w0 = fmul(p, fmul(p, fsub(p, r, 1), fsub(p, r, 2)), half(p));
    let w1 = fmul(p, r, fsub(p, 2, r));
    let w2 = fmul(p, fmul(p, r, fsub(p, r, 1)), half(p));
    let a0 = ((ri - 1) * (ri - 2)) * h;
    let a1 = ri * (2 - ri);
    let a2 = (ri * (ri - 1)) * h;
    assert(w0 == a0 % m);
    assert(w1 == a1 % m);
    assert(w2 == a2 % m);
    vstd::arithmetic::div_mod::lemma_mul_mod_noop_right(e0, a0, m);
    vstd::arithmetic::div_mod::lemma_mul_mod_noop_right(e1, a1, m);
    vstd::arithmetic::div_mod::lemma_mul_mod_noop_right(e2, a2, m);
    vstd::arithmetic::div_mod::lemma_add_mod_noop(e0 * a0, e1 * a1, m);
    vstd::arithmetic::div_mod::lemma_add_mod_noop(e0 * a0 + e1 * a1, e2 * a2, m);
    assert(fmul(p, q.at_zero, w0) == (e0 * a0) % m);
    assert(fmul(p, q.at_one, w1) == (e1 * a1) % m);
    assert(fmul(p, q.at_two, w2) == (e2 * a2) % m);
}

/// The values of the polynomial with the coefficients `a`, `b` and `c`.
pub open spec fn quadratic_of(p: nat, a: nat, b: nat, c: nat) -> Quadratic {
    Quadratic {
        at_zero: univariate(p, seq![a, b, c], 0),
        at_one: univariate(p, seq![a, b, c], 1),
        at_two: univariate(p, seq![a, b, c], 2),
    }
}

/// A polynomial with three coefficients, written out.
pub proof fn lemma_three_coefficients(p: nat, a: nat, b: nat, c: nat, x: nat)
    requires
        p > 0,
    ensures
        univariate(p, seq![a, b, c], x) == (a + x * (b + x * c)) % p,
{
    let s = seq![a, b, c];
    assert(s.drop_first() =~= seq![b, c]);
    assert(seq![b, c].drop_first() =~= seq![c]);
    assert(seq![c].drop_first() =~= Seq::<nat>::empty());
    assert(univariate(p, Seq::<nat>::empty(), x) == 0);
    assert(x * 0 == 0) by (nonlinear_arith);
    assert(univariate(p, seq![c], x) == fadd(p, c, fmul(p, x, 0)));
    assert(univariate(p, seq![c], x) == c % p) by {
        lemma_residue(p, 0);
    }
    assert(univariate(p, seq![b, c], x) == fadd(p, b, fmul(p, x, c % p)));
    lemma_reduce(p, x, c);
    lemma_reduce(p, b, x * c);
    assert(univariate(p, seq![b, c], x) == (b + x * c) % p);
    assert(univariate(p, s, x) == fadd(p, a, fmul(p, x, (b + x * c) % p)));
    lemma_reduce(p, x, b + x * c);
    lemma_reduce(p, a, x * (b + x * c));
}

/// A multiple of `m` taken out of one factor.
proof fn lemma_drop_multiple(v: int, m: int, k: int, a: int)
    ensures
        (v - m * k) * a == v * a - m * (k * a),
{
    assert((v - m * k) * a == v * a - m * (k * a)) by (nonlinear_arith);
}

/// The interpolation formula on the values of `a + b * r + c * r^2`, where `x = r * (r - 1)` and
/// twice `h` is one more than `m`.
proof fn lemma_interpolation_sum(a: int, b: int, c: int, r: int, x: int, h: int, m: int)
    requires
        2 * h == m + 1,
    ensures
        a * ((x - 2 * r + 2) * h) + (a + b + c) * (r - x) + (a + 2 * b + 4 * c) * (x * h) == (a + b
            * r + c * (x + r)) + m * (a * (x - r + 1) + b * x + 2 * (c * x)),
{
    let w = x - r + 1;
    assert((x - 2 * r + 2) * h + x * h == w + m * w) by (nonlinear_arith)
        requires
            2 * h == m + 1,
            w == x - r + 1,
    ;
    assert(2 * (x * h) == x + m * x) by (nonlinear_arith)
        requires
            2 * h == m + 1,
    ;
    let (s, t) = ((x - 2 * r + 2) * h, x * h);
    assert(a * s + (a + 2 * b + 4 * c) * t == a * (s + t) + b * (2 * t) + 2 * (c * (2 * t)))
        by (nonlinear_arith);
    assert(a * (w + m * w) == a * w + m * (a * w)) by (nonlinear_arith);
    assert(b * (x + m * x) == b * x + m * (b * x)) by (nonlinear_arith);
    assert(c * (x + m * x) == c * x + m * (c * x)) by (nonlinear_arith);
    assert((a + b + c) * (r - x) == a * r - a * x + b * r - b * x + c * r - c * x)
        by (nonlinear_arith);
    assert(a * w == a * x - a * r + a) by (nonlinear_arith)
        requires
            w == x - r + 1,
    ;
    assert(c * (x + r) == c * x + c * r) by (nonlinear_arith);
    assert(m * (a * w + b * x + 2 * (c * x)) == m * (a * w) + m * (b * x) + 2 * (m * (c * x)))
        by (nonlinear_arith);
}

/// The values at 0, 1 and 2 determine a polynomial of degree at most two: what a verifier
/// interpolates from them at any point is what the polynomial takes there.
pub proof fn law_interpolation(p: nat, a: nat, b: nat, c: nat, r: nat)
    requires
        p > 2,
        p % 2 == 1,
    ensures
        quadratic_of(p, a, b, c).at(p, r) == univariate(p, seq![a, b, c], r),
{
    let q = quadratic_of(p, a, b, c);
    lemma_at_flat(q, p, r);
    lemma_three_coefficients(p, a, b, c, 0);
    lemma_three_coefficients(p, a, b, c, 1);
    lemma_three_coefficients(p, a, b, c, 2);
    lemma_three_coefficients(p, a, b, c, r);
    let m = p as int;
    let h = half(p) as int;
    let (ai, bi, ci, ri) = (a as int, b as int, c as int, r as int);
    let (v0, v1, v2) = (ai, ai + bi + ci, ai + 2 * bi + 4 * ci);
    let (k0, k1, k2) = (v0 / m, v1 / m, v2 / m);
    vstd::arithmetic::div_mod::lemma_fundamental_div_mod(v0, m);
    vstd::arithmetic::div_mod::lemma_fundamental_div_mod(v1, m);
    vstd::arithmetic::div_mod::lemma_fundamental_div_mod(v2, m);
    let (e0, e1, e2) = (q.at_zero as int, q.at_one as int, q.at_two as int);
    assert(0 * (b + 0 * c) == 0 && 1 * (b + 1 * c) == b + c && 2 * (b + 2 * c) == 2 * b + 4 * c);
    assert(e0 == v0 - m * k0 && e1 == v1 - m * k1 && e2 == v2 - m * k2);
    assert(2 * h == m + 1);
    let a0 = ((ri - 1) * (ri - 2)) * h;
    let a1 = ri * (2 - ri);
    let a2 = (ri * (ri - 1)) * h;
    let lhs = e0 * a0 + e1 * a1 + e2 * a2;
    let rhs = ai + ri * (bi + ri * ci);
    // With x = r * (r - 1): a0 = (x - 2 * r + 2) * h, a1 = r - x, a2 = x * h.
    let x = ri * (ri - 1);
    assert((ri - 1) * (ri - 2) == x - 2 * ri + 2) by (nonlinear_arith)
        requires
            x == ri * (ri - 1),
    ;
    assert(a1 == ri - x) by (nonlinear_arith)
        requires
            x == ri * (ri - 1),
            a1 == ri * (2 - ri),
    ;
    assert(ri * ri == x + ri) by (nonlinear_arith)
        requires
            x == ri * (ri - 1),
    ;
    let k = ai * (x - ri + 1) + bi * x + 2 * (ci * x);
    assert(rhs == ai + bi * ri + ci * (x + ri)) by (nonlinear_arith)
        requires
            rhs == ai + ri * (bi + ri * ci),
            ri * ri == x + ri,
    ;
    lemma_interpolation_sum(ai, bi, ci, ri, x, h, m);
    assert(v0 * a0 + v1 * a1 + v2 * a2 == rhs + m * k);
    let (d0, d1, d2) = (k0 * a0, k1 * a1, k2 * a2);
    lemma_drop_multiple(v0, m, k0, a0);
    lemma_drop_multiple(v1, m, k1, a1);
    lemma_drop_multiple(v2, m, k2, a2);
    let j = k - (d0 + d1 + d2);
    assert(m * j == m * k - m * d0 - m * d1 - m * d2) by (nonlinear_arith)
        requires
            j == k - (d0 + d1 + d2),
    ;
    assert(lhs == rhs + m * j);
    vstd::arithmetic::div_mod::lemma_mod_multiples_vanish(j, rhs, m);
}

} // verus!
