//! What the algebra computes, said in whole numbers.
use crate::cube::{cong, lemma_cong_add, lemma_cong_mul, lemma_cong_ops};
use crate::field::{fadd, fmul, fpow, fsub, rows, vals, PrimeField};
use crate::fold::{fold, fold_once};
use crate::poly::{
    dot, dot_upto, eq_bit, eq_poly, eq_upto, lemma_univariate_split, multilinear, power_point,
    powers, univariate, CoefficientList, MultilinearPoint,
};
use crate::sumcheck::{Quadratic, SumcheckPolynomial};
use vstd::arithmetic::power::pow;
use vstd::arithmetic::power2::{lemma_pow2_unfold, pow2};
use vstd::prelude::*;

verus! {

/// Sums, differences, products and powers are those of whole numbers, reduced.
pub proof fn law_operations(p: nat, a: nat, b: nat, e: nat)
    requires
        p > 1,
    ensures
        fadd(p, a, b) == (a + b) % p,
        fsub(p, a, b) == (a - b) % p as int,
        fmul(p, a, b) == (a * b) % p,
        fpow(p, a, e) == pow(a as int, e) % p as int,
    decreases e,
{
    vstd::arithmetic::div_mod::lemma_mod_bound(a - b, p as int);
    if e == 0 {
        vstd::arithmetic::power::lemma_pow0(a as int);
        vstd::arithmetic::div_mod::lemma_small_mod(1, p);
    } else {
        let d = (e - 1) as nat;
        law_operations(p, a, b, d);
        reveal(pow);
        vstd::arithmetic::div_mod::lemma_mul_mod_noop_left(pow(a as int, d), a as int, p as int);
        assert(a * pow(a as int, d) == pow(a as int, d) * a) by (nonlinear_arith);
        assert(fpow(p, a, e) == fmul(p, fpow(p, a, d), a));
    }
}

/// The randomness that combines claims is the powers of one element, as many as there are claims.
pub proof fn law_powers(p: nat, g: nat, n: nat)
    requires
        p > 1,
    ensures
        powers(p, g, n).len() == n,
        forall|i: int|
            0 <= i < n ==> #[trigger] powers(p, g, n)[i] == pow(g as int, i as nat) % p as int,
{
    assert forall|i: int| 0 <= i < n implies #[trigger] powers(p, g, n)[i] == pow(
        g as int,
        i as nat,
    ) % p as int by {
        law_operations(p, g, 0, i as nat);
    }
}

/// What lies behind the first `k` pairs does not matter for their sum.
proof fn lemma_dot_prefix(
    p: nat,
    xs: Seq<nat>,
    ys: Seq<nat>,
    us: Seq<nat>,
    vs: Seq<nat>,
    k: nat,
)
    requires
        forall|i: int| 0 <= i < k ==> #[trigger] xs[i] == us[i],
        forall|i: int| 0 <= i < k ==> #[trigger] ys[i] == vs[i],
    ensures
        dot_upto(p, xs, ys, k) == dot_upto(p, us, vs, k),
    decreases k,
{
    if k > 0 {
        lemma_dot_prefix(p, xs, ys, us, vs, (k - 1) as nat);
        assert(xs[k - 1] == us[k - 1]);
        assert(ys[k - 1] == vs[k - 1]);
    }
}

/// A sum of products grows by a product with each pair, starts at zero, and stops where the
/// shorter list ends.
pub proof fn law_dot(p: nat, xs: Seq<nat>, ys: Seq<nat>, x: nat, y: nat, more: Seq<nat>)
    requires
        p > 0,
        xs.len() == ys.len(),
    ensures
        dot(p, Seq::empty(), more) == 0,
        dot(p, xs.push(x), ys.push(y)) == (dot(p, xs, ys) + x * y) % p,
        dot(p, xs + more, ys) == dot(p, xs, ys),
        dot(p, xs, ys + more) == dot(p, xs, ys),
{
    let n = xs.len();
    lemma_dot_prefix(p, xs.push(x), ys.push(y), xs, ys, n);
    lemma_dot_prefix(p, xs + more, ys, xs, ys, n);
    lemma_dot_prefix(p, xs, ys + more, xs, ys, n);
    assert(xs.push(x)[n as int] == x && ys.push(y)[n as int] == y);
    assert((dot(p, xs, ys) + (x * y) % p) % p == (dot(p, xs, ys) + x * y) % p) by {
        vstd::arithmetic::div_mod::lemma_add_mod_noop_right(
            dot(p, xs, ys) as int,
            (x * y) as int,
            p as int,
        );
    }
}

/// What lies behind the first `k` coordinates does not matter for their product.
proof fn lemma_eq_prefix(p: nat, a: Seq<nat>, b: Seq<nat>, c: Seq<nat>, d: Seq<nat>, k: nat)
    requires
        forall|i: int| 0 <= i < k ==> #[trigger] a[i] == c[i],
        forall|i: int| 0 <= i < k ==> #[trigger] b[i] == d[i],
    ensures
        eq_upto(p, a, b, k) == eq_upto(p, c, d, k),
    decreases k,
{
    if k > 0 {
        lemma_eq_prefix(p, a, b, c, d, (k - 1) as nat);
        assert(a[k - 1] == c[k - 1]);
        assert(b[k - 1] == d[k - 1]);
    }
}

/// The equality of two points is the product over all coordinates of
/// `x * y + (1 - x) * (1 - y)`.
pub proof fn law_eq_poly(p: nat, a: Seq<nat>, b: Seq<nat>, x: nat, y: nat)
    requires
        p > 1,
        a.len() == b.len(),
    ensures
        eq_poly(p, Seq::empty(), Seq::empty()) == 1,
        eq_poly(p, a.push(x), b.push(y)) == (eq_poly(p, a, b) * (x * y + (1 - x) * (1 - y)))
            % p as int,
{
    let n = a.len();
    lemma_eq_prefix(p, a.push(x), b.push(y), a, b, n);
    assert(a.push(x)[n as int] == x && b.push(y)[n as int] == y);
    let e = eq_poly(p, a, b);
    let (u, v) = (fsub(p, 1, x), fsub(p, 1, y));
    lemma_cong_ops(p, 1, x);
    lemma_cong_ops(p, 1, y);
    lemma_cong_ops(p, x, y);
    lemma_cong_ops(p, u, v);
    lemma_cong_mul(p, u as int, 1 - x, v as int, 1 - y);
    lemma_cong_ops(p, fmul(p, x, y), fmul(p, u, v));
    lemma_cong_add(
        p,
        fmul(p, x, y) as int,
        (x * y) as int,
        fmul(p, u, v) as int,
        (1 - x) * (1 - y),
    );
    let bit = eq_bit(p, x, y);
    lemma_cong_mul(p, e as int, e as int, bit as int, x * y + (1 - x) * (1 - y));
}

/// A polynomial in one variable with one more coefficient, the highest: its value grows by that
/// coefficient times a power.
pub proof fn law_univariate(p: nat, c: Seq<nat>, a: nat, x: nat)
    requires
        p > 1,
    ensures
        univariate(p, Seq::empty(), x) == 0,
        univariate(p, c.push(a), x) == (univariate(p, c, x) + a * pow(x as int, c.len()))
            % p as int,
{
    let n = c.len();
    let d = c.push(a);
    lemma_univariate_split(p, d, x, n);
    assert(d.take(n as int) =~= c);
    let top = d.skip(n as int);
    assert(top =~= seq![a]);
    assert(top.drop_first() =~= Seq::<nat>::empty());
    assert(univariate(p, top.drop_first(), x) == 0);
    assert(univariate(p, top, x) == fadd(p, a, fmul(p, x, 0)));
    assert(x * 0 == 0) by (nonlinear_arith);
    law_operations(p, x, 0, n);
    let u = univariate(p, c, x) as int;
    let q = pow(x as int, n);
    let m = p as int;
    vstd::arithmetic::div_mod::lemma_small_mod(0, p);
    vstd::arithmetic::div_mod::lemma_mul_mod_noop(q, a as int, m);
    vstd::arithmetic::div_mod::lemma_add_mod_noop_right(u, q * a, m);
    assert(q * a == a * q) by (nonlinear_arith);
}

/// A multilinear polynomial whose coefficients come in two halves: the first variable multiplies
/// the second half.
pub proof fn law_multilinear(p: nat, c: Seq<nat>, d: Seq<nat>, x: nat, rest: Seq<nat>)
    requires
        p > 0,
        c.len() == d.len(),
    ensures
        multilinear(p, seq![x], Seq::empty()) == x,
        multilinear(p, c + d, seq![x] + rest) == (multilinear(p, c, rest) + multilinear(p, d, rest)
            * x) % p,
{
    let both = c + d;
    let point = seq![x] + rest;
    let h = (both.len() / 2) as int;
    assert(both.take(h) =~= c);
    assert(both.skip(h) =~= d);
    assert(point.drop_first() =~= rest);
    vstd::arithmetic::div_mod::lemma_add_mod_noop_right(
        multilinear(p, c, rest) as int,
        (multilinear(p, d, rest) * x) as int,
        p as int,
    );
}

/// The point that stands for a point of one variable: the last coordinate is the variable, and
/// each one is the square of the next.
pub proof fn law_power_point_squares(p: nat, x: nat, n: nat)
    requires
        p > 1,
        n > 0,
    ensures
        power_point(p, x, n).len() == n,
        power_point(p, x, n).last() == x % p,
        forall|i: int|
            0 <= i < n - 1 ==> #[trigger] power_point(p, x, n)[i] == (power_point(p, x, n)[i + 1]
                * power_point(p, x, n)[i + 1]) % p,
{
    let point = power_point(p, x, n);
    vstd::arithmetic::power2::lemma2_to64();
    law_operations(p, x, 0, 1);
    vstd::arithmetic::power::lemma_pow1(x as int);
    assert forall|i: int| 0 <= i < n - 1 implies #[trigger] point[i] == (point[i + 1] * point[i
        + 1]) % p by {
        let e = (n - 1 - (i + 1)) as nat;
        lemma_pow2_unfold(e + 1);
        crate::field::lemma_fpow_add(p, x, pow2(e), pow2(e));
        assert((n - 1 - i) as nat == e + 1);
    }
}

/// One folding: the value at a point and that at its negative, half the list further on, become
/// `t * ((u + v) + r * (x * (u - v)))`, with `x` the inverse of the point; the last randomness
/// comes first, and the points are squared. What is left in the end is the first value.
pub proof fn law_fold_step(
    p: nat,
    answers: Seq<nat>,
    randomness: Seq<nat>,
    r: nat,
    offset_inv: nat,
    gen_inv: nat,
    t: nat,
    k: nat,
    folded: Seq<nat>,
)
    requires
        p > 1,
        folded.len() == answers.len() / 2,
        forall|i: int|
            0 <= i < folded.len() ==> #[trigger] folded[i] == ({
                let (u, v) = (answers[i], answers[i + folded.len()]);
                let x = offset_inv * pow(gen_inv as int, i as nat);
                t * ((u + v) + r * (x * (u - v)))
            }) % p as int,
    ensures
        fold(p, answers, randomness, offset_inv, gen_inv, t, 0) == answers[0],
        fold(p, answers, randomness.push(r), offset_inv, gen_inv, t, k + 1) == fold(
            p,
            folded,
            randomness,
            (offset_inv * offset_inv) % p,
            (gen_inv * gen_inv) % p,
            t,
            k,
        ),
{
    assert(randomness.push(r).drop_last() =~= randomness);
    assert(randomness.push(r).last() == r);
    let once = fold_once(p, answers, r, offset_inv, gen_inv, t);
    assert forall|i: int| 0 <= i < folded.len() implies once[i] == folded[i] by {
        let (u, v) = (answers[i], answers[i + folded.len()]);
        let q = pow(gen_inv as int, i as nat);
        let g = fpow(p, gen_inv, i as nat);
        law_operations(p, gen_inv, 0, i as nat);
        vstd::arithmetic::div_mod::lemma_mod_bound(q, p as int);
        vstd::arithmetic::div_mod::lemma_mod_twice(q, p as int);
        assert(cong(p, g as int, q));
        let x = fmul(p, offset_inv, g);
        lemma_cong_ops(p, offset_inv, g);
        lemma_cong_mul(p, offset_inv as int, offset_inv as int, g as int, q);
        let d = fsub(p, u, v);
        lemma_cong_ops(p, u, v);
        lemma_cong_ops(p, x, d);
        lemma_cong_mul(p, x as int, offset_inv * q, d as int, u - v);
        let xd = fmul(p, x, d);
        lemma_cong_ops(p, r, xd);
        lemma_cong_mul(p, r as int, r as int, xd as int, (offset_inv * q) * (u - v));
        let rxd = fmul(p, r, xd);
        let sum = fadd(p, u, v);
        lemma_cong_ops(p, sum, rxd);
        lemma_cong_add(
            p,
            sum as int,
            (u + v) as int,
            rxd as int,
            r * ((offset_inv * q) * (u - v)),
        );
        let all = fadd(p, sum, rxd);
        lemma_cong_ops(p, t, all);
        lemma_cong_mul(
            p,
            t as int,
            t as int,
            all as int,
            (u + v) + r * ((offset_inv * q) * (u - v)),
        );
        vstd::arithmetic::div_mod::lemma_small_mod(fmul(p, t, all), p);
    }
    assert(once =~= folded);
}

/// What is said of field elements is said of the residues they stand for, one for one and in
/// order: in lists, in lists of lists, in points, coefficients and polynomials.
pub proof fn law_residues<F: PrimeField>(
    xs: Seq<F>,
    lists: Seq<Vec<F>>,
    point: MultilinearPoint<F>,
    coefficients: CoefficientList<F>,
    polynomial: SumcheckPolynomial<F>,
)
    ensures
        vals(xs).len() == xs.len(),
        forall|i: int| 0 <= i < xs.len() ==> #[trigger] vals(xs)[i] == xs[i].val(),
        rows(lists).len() == lists.len(),
        forall|i: int| 0 <= i < lists.len() ==> #[trigger] rows(lists)[i] == vals(lists[i]@),
        point.coords() == vals(point.0@),
        coefficients.list() == vals(coefficients.coeffs@),
        polynomial.quadratic().at_zero == polynomial.evaluations[0].val(),
        polynomial.quadratic().at_one == polynomial.evaluations[1].val(),
        polynomial.quadratic().at_two == polynomial.evaluations[2].val(),
{
}

/// What a polynomial of a sumcheck sums to is what its values at 0 and 1 add up to.
pub proof fn law_quadratic_sum(q: Quadratic, p: nat)
    requires
        p > 0,
    ensures
        q.sum(p) == (q.at_zero + q.at_one) % p,
{
}

} // verus!
