//! Folding of the values that a polynomial takes on a coset.
use crate::field::{
    fadd, fmul, fpow, fsub, half, lemma_distribute, lemma_fadd_assoc, lemma_fmul_assoc,
    lemma_fmul_comm, lemma_fpow_add, lemma_half, lemma_reduce, lemma_residue, vals, PrimeField,
};
use crate::poly::{multilinear, univariate};
use vstd::arithmetic::power2::{lemma_pow2_pos, lemma_pow2_unfold, pow2};
use vstd::prelude::*;

verus! {

/// One folded value: from the values `u` at a point and `v` at its negative, with `x_inv` the
/// inverse of the point and `t` that of two, `t * ((u + v) + r * (x_inv * (u - v)))`.
pub open spec fn fold_pair(p: nat, u: nat, v: nat, r: nat, x_inv: nat, t: nat) -> nat {
    fmul(p, t, fadd(p, fadd(p, u, v), fmul(p, r, fmul(p, x_inv, fsub(p, u, v)))))
}

/// The folded values: each of the first half with its partner in the second half. The inverses of
/// the points are `offset_inv` times the powers of `gen_inv`.
pub open spec fn fold_once(
    p: nat,
    answers: Seq<nat>,
    r: nat,
    offset_inv: nat,
    gen_inv: nat,
    t: nat,
) -> Seq<nat> {
    let h = (answers.len() / 2) as int;
    Seq::new(
        h as nat,
        |i: int|
            fold_pair(
                p,
                answers[i],
                answers[i + h],
                r,
                fmul(p, offset_inv, fpow(p, gen_inv, i as nat)),
                t,
            ),
    )
}

/// What is left of `answers` after `k` foldings, with the last of `randomness` first. Between two
/// foldings the points are squared.
pub open spec fn fold(
    p: nat,
    answers: Seq<nat>,
    randomness: Seq<nat>,
    offset_inv: nat,
    gen_inv: nat,
    t: nat,
    k: nat,
) -> nat
    decreases k,
{
    if k == 0 {
        answers[0]
    } else {
        fold(
            p,
            fold_once(p, answers, randomness.last(), offset_inv, gen_inv, t),
            randomness.drop_last(),
            fmul(p, offset_inv, offset_inv),
            fmul(p, gen_inv, gen_inv),
            t,
            (k - 1) as nat,
        )
    }
}

/// The values of the polynomial with the coefficients `c` at `offset` times the first `n` powers
/// of `gen`.
pub open spec fn coset_values(p: nat, c: Seq<nat>, offset: nat, gen: nat, n: nat) -> Seq<nat> {
    Seq::new(n, |j: int| univariate(p, c, fmul(p, offset, fpow(p, gen, j as nat))))
}

/// The coefficients at even places plus `r` times those at odd places.
pub open spec fn fold_coefficients(p: nat, c: Seq<nat>, r: nat) -> Seq<nat> {
    Seq::new(c.len() / 2, |j: int| fadd(p, c[2 * j], fmul(p, c[2 * j + 1], r)))
}

/// The coefficients folded once with each element of `r`, the last one first.
pub open spec fn fold_all(p: nat, c: Seq<nat>, r: Seq<nat>) -> Seq<nat>
    decreases r.len(),
{
    if r.len() == 0 {
        c
    } else {
        fold_all(p, fold_coefficients(p, c, r.last()), r.drop_last())
    }
}

/// Every second coefficient, from the one at `from` on.
spec fn every_second(c: Seq<nat>, from: int) -> Seq<nat> {
    Seq::new(c.len() / 2, |j: int| c[2 * j + from])
}

/// Fixing the last variable folds the coefficients.
pub proof fn lemma_fix_last(p: nat, c: Seq<nat>, r: Seq<nat>)
    requires
        p > 0,
        r.len() >= 1,
        c.len() == pow2(r.len()),
    ensures
        multilinear(p, c, r) == multilinear(p, fold_coefficients(p, c, r.last()), r.drop_last()),
    decreases r.len(),
{
    let n = r.len();
    let folded = fold_coefficients(p, c, r.last());
    lemma_pow2_unfold(n);
    lemma_pow2_pos((n - 1) as nat);
    if n == 1 {
        vstd::arithmetic::power2::lemma2_to64();
        assert(multilinear(p, c.take(1), r.drop_first()) == c[0]);
        assert(multilinear(p, c.skip(1), r.drop_first()) == c[1]);
        assert(folded[0] == fadd(p, c[0], fmul(p, c[1], r[0])));
    } else {
        lemma_pow2_unfold((n - 1) as nat);
        let h = (c.len() / 2) as int;
        let q = (folded.len() / 2) as int;
        assert(h == 2 * q);
        lemma_fix_last(p, c.take(h), r.drop_first());
        lemma_fix_last(p, c.skip(h), r.drop_first());
        assert(r.drop_first().last() == r.last());
        assert(r.drop_first().drop_last() =~= r.drop_last().drop_first());
        assert(fold_coefficients(p, c.take(h), r.last()) =~= folded.take(q));
        assert(fold_coefficients(p, c.skip(h), r.last()) =~= folded.skip(q));
    }
}

/// A polynomial is its even part plus the variable times its odd part.
proof fn lemma_even_odd(p: nat, c: Seq<nat>, x: nat)
    requires
        p > 0,
        c.len() % 2 == 0,
    ensures
        univariate(p, c, x) == fadd(
            p,
            univariate(p, every_second(c, 0), fmul(p, x, x)),
            fmul(p, x, univariate(p, every_second(c, 1), fmul(p, x, x))),
        ),
    decreases c.len(),
{
    let y = fmul(p, x, x);
    if c.len() == 0 {
        assert(x * 0 == 0) by (nonlinear_arith);
        assert(0nat % p == 0);
    } else {
        let rest = c.drop_first().drop_first();
        lemma_even_odd(p, rest, x);
        let even = univariate(p, every_second(rest, 0), y);
        let odd = univariate(p, every_second(rest, 1), y);
        assert(every_second(c, 0).drop_first() =~= every_second(rest, 0));
        assert(every_second(c, 1).drop_first() =~= every_second(rest, 1));
        let a = c[0];
        let b = c[1];
        let u = univariate(p, rest, x);
        assert(univariate(p, c.drop_first(), x) == fadd(p, b, fmul(p, x, u)));
        assert(every_second(c, 0)[0] == a);
        assert(every_second(c, 1)[0] == b);
        // a + x * (b + x * (even + x * odd)) == (a + y * even) + x * (b + y * odd)
        lemma_distribute(p, x, even, fmul(p, x, odd));
        lemma_distribute(p, x, b, fmul(p, x, u));
        lemma_fmul_assoc(p, x, x, u);
        lemma_distribute(p, y, even, fmul(p, x, odd));
        lemma_fmul_assoc(p, y, x, odd);
        lemma_fmul_comm(p, y, x);
        lemma_fmul_assoc(p, x, y, odd);
        lemma_distribute(p, x, b, fmul(p, y, odd));
        let xb = fmul(p, x, b);
        let ye = fmul(p, y, even);
        let xyo = fmul(p, x, fmul(p, y, odd));
        // a + (xb + (ye + xyo)) == (a + ye) + (xb + xyo)
        lemma_fadd_assoc(p, xb, ye, xyo);
        lemma_fadd_assoc(p, ye, xb, xyo);
        lemma_fadd_assoc(p, a, ye, fadd(p, xb, xyo));
    }
}

/// The folded coefficients belong to the even part plus `r` times the odd part.
proof fn lemma_folded_value(p: nat, c: Seq<nat>, r: nat, y: nat)
    requires
        p > 0,
        c.len() % 2 == 0,
    ensures
        univariate(p, fold_coefficients(p, c, r), y) == fadd(
            p,
            univariate(p, every_second(c, 0), y),
            fmul(p, r, univariate(p, every_second(c, 1), y)),
        ),
    decreases c.len(),
{
    if c.len() == 0 {
        assert(r * 0 == 0) by (nonlinear_arith);
        assert(0nat % p == 0);
    } else {
        let rest = c.drop_first().drop_first();
        lemma_folded_value(p, rest, r, y);
        let even = univariate(p, every_second(rest, 0), y);
        let odd = univariate(p, every_second(rest, 1), y);
        assert(every_second(c, 0).drop_first() =~= every_second(rest, 0));
        assert(every_second(c, 1).drop_first() =~= every_second(rest, 1));
        assert(fold_coefficients(p, c, r).drop_first() =~= fold_coefficients(p, rest, r));
        let a = c[0];
        let b = c[1];
        let rb = fmul(p, r, b);
        lemma_fmul_comm(p, b, r);
        // (a + rb) + y * (even + r * odd) == (a + y * even) + r * (b + y * odd)
        lemma_distribute(p, y, even, fmul(p, r, odd));
        lemma_fmul_assoc(p, y, r, odd);
        lemma_fmul_comm(p, y, r);
        lemma_fmul_assoc(p, r, y, odd);
        lemma_distribute(p, r, b, fmul(p, y, odd));
        let ye = fmul(p, y, even);
        let ryo = fmul(p, r, fmul(p, y, odd));
        lemma_fadd_assoc(p, a, rb, fadd(p, ye, ryo));
        lemma_fadd_assoc(p, rb, ye, ryo);
        lemma_fadd_assoc(p, ye, rb, ryo);
        lemma_fadd_assoc(p, a, ye, fadd(p, rb, ryo));
    }
}

/// A formula of folding, with the reductions in between left out.
proof fn lemma_fold_pair_flat(p: nat, u: nat, v: nat, r: nat, x_inv: nat, t: nat)
    requires
        p > 0,
    ensures
        fold_pair(p, u, v, r, x_inv, t) == (t * ((u + v) + r * (x_inv * (u - v)))) % (p as int),
{
    let m = p as int;
    let d = (u - v) as int;
    let a = (u + v) as int;
    vstd::arithmetic::div_mod::lemma_mod_bound(d, m);
    // x_inv * (d % m), then r * (that % m), then the sum, then t * (that % m)
    vstd::arithmetic::div_mod::lemma_mul_mod_noop_right(x_inv as int, d, m);
    vstd::arithmetic::div_mod::lemma_mul_mod_noop_right(r as int, x_inv * d, m);
    vstd::arithmetic::div_mod::lemma_add_mod_noop(a, r * (x_inv * d), m);
    vstd::arithmetic::div_mod::lemma_mul_mod_noop_right(t as int, a + r * (x_inv * d), m);
    let w = fmul(p, x_inv, fsub(p, u, v));
    assert(w == (x_inv * d) % m);
    let z = fmul(p, r, w);
    assert(z == (r * (x_inv * d)) % m);
    assert(fadd(p, fadd(p, u, v), z) == (a + r * (x_inv * d)) % m);
}

/// Folding the values `e + x * o` and `e - x * o` gives `e + r * o`.
proof fn lemma_fold_pair_value(
    p: nat,
    e: nat,
    o: nat,
    x: nat,
    u: nat,
    v: nat,
    r: nat,
    x_inv: nat,
    t: nat,
)
    requires
        p > 0,
        u == fadd(p, e, fmul(p, x, o)),
        v == fadd(p, e, fmul(p, fmul(p, x, (p - 1) as nat), o)),
        fmul(p, x, x_inv) == 1,
        fmul(p, 2, t) == 1,
    ensures
        fold_pair(p, u, v, r, x_inv, t) == fadd(p, e, fmul(p, r, o)),
{
    let m = p as int;
    lemma_fold_pair_flat(p, u, v, r, x_inv, t);
    // Write the congruences as equations.
    let a = (e + x * o) as int / m;
    lemma_reduce(p, e, x * o);
    vstd::arithmetic::div_mod::lemma_fundamental_div_mod((e + x * o) as int, m);
    let n = x * (p - 1);
    lemma_reduce(p, n as nat, o);
    lemma_reduce(p, e, n as nat * o);
    let b = (e + n * o) / m;
    vstd::arithmetic::div_mod::lemma_fundamental_div_mod(e + n * o, m);
    let c = (x * x_inv) as int / m;
    vstd::arithmetic::div_mod::lemma_fundamental_div_mod((x * x_inv) as int, m);
    let d = (2 * t) as int / m;
    vstd::arithmetic::div_mod::lemma_fundamental_div_mod((2 * t) as int, m);
    let (ei, oi, xi, ui, vi, ri, yi, ti) = (
        e as int,
        o as int,
        x as int,
        u as int,
        v as int,
        r as int,
        x_inv as int,
        t as int,
    );
    assert(ui == ei + xi * oi - m * a);
    assert(vi == ei - xi * oi + m * (xi * oi - b)) by (nonlinear_arith)
        requires
            vi == ei + (xi * (m - 1)) * oi - m * b,
    ;
    let g = xi * oi - b - a;
    let k = a + xi * oi - b;
    assert(ui + vi == 2 * ei + m * g) by (nonlinear_arith)
        requires
            ui == ei + xi * oi - m * a,
            vi == ei - xi * oi + m * (xi * oi - b),
            g == xi * oi - b - a,
    ;
    assert(ui - vi == 2 * (xi * oi) - m * k) by (nonlinear_arith)
        requires
            ui == ei + xi * oi - m * a,
            vi == ei - xi * oi + m * (xi * oi - b),
            k == a + xi * oi - b,
    ;
    assert(xi * yi == 1 + m * c);
    let s = 2 * (oi * c) - yi * k;
    assert(yi * (ui - vi) == 2 * oi + m * s) by (nonlinear_arith)
        requires
            ui - vi == 2 * (xi * oi) - m * k,
            xi * yi == 1 + m * c,
            s == 2 * (oi * c) - yi * k,
    {
        let w = ui - vi;
        assert(yi * w == yi * (2 * (xi * oi) - m * k));
        assert(yi * (2 * (xi * oi) - m * k) == 2 * ((xi * yi) * oi) - m * (yi * k));
        assert((xi * yi) * oi == (1 + m * c) * oi);
        assert((1 + m * c) * oi == oi + m * (oi * c));
    }
    assert(2 * ti == 1 + m * d);
    let f = g + ri * s;
    let q = d * (ei + ri * oi) + ti * f;
    assert((ui + vi) + ri * (yi * (ui - vi)) == 2 * (ei + ri * oi) + m * f) by (nonlinear_arith)
        requires
            ui + vi == 2 * ei + m * g,
            yi * (ui - vi) == 2 * oi + m * s,
            f == g + ri * s,
    {
        assert(ri * (2 * oi + m * s) == 2 * (ri * oi) + m * (ri * s));
    }
    let total = (ui + vi) + ri * (yi * (ui - vi));
    assert(ti * total == (ei + ri * oi) + m * q) by (nonlinear_arith)
        requires
            total == 2 * (ei + ri * oi) + m * f,
            2 * ti == 1 + m * d,
            q == d * (ei + ri * oi) + ti * f,
    {
        let w = ei + ri * oi;
        assert(ti * (2 * w + m * f) == (2 * ti) * w + m * (ti * f));
        assert((1 + m * d) * w == w + m * (d * w));
    }
    vstd::arithmetic::div_mod::lemma_mod_multiples_vanish(q, ei + ri * oi, m);
    lemma_reduce(p, e, r * o);
}

/// The square of a power is the power of the square.
proof fn lemma_square_power(p: nat, g: nat, n: nat)
    requires
        p > 0,
    ensures
        fpow(p, fmul(p, g, g), n) == fpow(p, g, 2 * n),
    decreases n,
{
    if n > 0 {
        let m = (n - 1) as nat;
        lemma_square_power(p, g, m);
        assert(fpow(p, g, 2 * n) == fmul(p, fpow(p, g, (2 * n - 1) as nat), g));
        assert(fpow(p, g, (2 * n - 1) as nat) == fmul(p, fpow(p, g, 2 * m), g));
        lemma_fmul_assoc(p, fpow(p, g, 2 * m), g, g);
    }
}

/// The product of two products.
proof fn lemma_regroup(p: nat, a: nat, b: nat, c: nat, d: nat)
    requires
        p > 0,
    ensures
        fmul(p, fmul(p, a, b), fmul(p, c, d)) == fmul(p, fmul(p, a, c), fmul(p, b, d)),
{
    lemma_fmul_assoc(p, a, b, fmul(p, c, d));
    lemma_fmul_assoc(p, b, c, d);
    lemma_fmul_comm(p, b, c);
    lemma_fmul_assoc(p, c, b, d);
    lemma_fmul_assoc(p, a, c, fmul(p, b, d));
}

/// Powers of inverse elements are inverse.
pub proof fn lemma_inverse_power(p: nat, g: nat, g_inv: nat, n: nat)
    requires
        p > 1,
        fmul(p, g, g_inv) == 1,
    ensures
        fmul(p, fpow(p, g, n), fpow(p, g_inv, n)) == 1,
    decreases n,
{
    lemma_residue(p, 1);
    if n > 0 {
        let m = (n - 1) as nat;
        lemma_inverse_power(p, g, g_inv, m);
        lemma_regroup(p, fpow(p, g, m), g, fpow(p, g_inv, m), g_inv);
    }
}

/// One folding of the values on a coset gives the values of the folded coefficients on the coset
/// of the squares.
proof fn lemma_fold_once_values(
    p: nat,
    c: Seq<nat>,
    r: nat,
    offset: nat,
    offset_inv: nat,
    gen: nat,
    gen_inv: nat,
    h: nat,
)
    requires
        p > 2,
        p % 2 == 1,
        c.len() % 2 == 0,
        fmul(p, offset, offset_inv) == 1,
        fmul(p, gen, gen_inv) == 1,
        fpow(p, gen, h) == p - 1,
    ensures
        fold_once(p, coset_values(p, c, offset, gen, 2 * h), r, offset_inv, gen_inv, half(p))
            == coset_values(
            p,
            fold_coefficients(p, c, r),
            fmul(p, offset, offset),
            fmul(p, gen, gen),
            h,
        ),
{
    let values = coset_values(p, c, offset, gen, 2 * h);
    let folded = fold_once(p, values, r, offset_inv, gen_inv, half(p));
    let want = coset_values(
        p,
        fold_coefficients(p, c, r),
        fmul(p, offset, offset),
        fmul(p, gen, gen),
        h,
    );
    lemma_half(p);
    assert forall|i: int| 0 <= i < h implies folded[i] == want[i] by {
        let k = i as nat;
        let x = fmul(p, offset, fpow(p, gen, k));
        let x_inv = fmul(p, offset_inv, fpow(p, gen_inv, k));
        let neg = fmul(p, offset, fpow(p, gen, k + h));
        let y = fmul(p, x, x);
        let minus = (p - 1) as nat;
        lemma_fpow_add(p, gen, k, h);
        lemma_fmul_assoc(p, offset, fpow(p, gen, k), minus);
        assert(neg == fmul(p, x, minus));
        lemma_regroup(p, x, minus, x, minus);
        assert(fmul(p, minus, minus) == 1) by {
            assert(minus * minus == p * (p - 2) + 1) by (nonlinear_arith)
                requires
                    minus == p - 1,
            ;
            vstd::arithmetic::div_mod::lemma_mod_multiples_vanish(p - 2, 1, p as int);
            lemma_residue(p, 1);
        }
        lemma_reduce(p, x, x);
        lemma_residue(p, y);
        assert(fmul(p, neg, neg) == y);
        lemma_even_odd(p, c, x);
        lemma_even_odd(p, c, neg);
        let e = univariate(p, every_second(c, 0), y);
        let o = univariate(p, every_second(c, 1), y);
        lemma_inverse_power(p, gen, gen_inv, k);
        lemma_regroup(p, offset, fpow(p, gen, k), offset_inv, fpow(p, gen_inv, k));
        lemma_residue(p, 1);
        assert(fmul(p, x, x_inv) == 1);
        assert(values[i] == univariate(p, c, x));
        assert(values[i + h] == univariate(p, c, neg));
        lemma_fold_pair_value(p, e, o, x, values[i], values[i + h], r, x_inv, half(p));
        lemma_folded_value(p, c, r, y);
        lemma_regroup(p, offset, fpow(p, gen, k), offset, fpow(p, gen, k));
        lemma_fpow_add(p, gen, k, k);
        lemma_square_power(p, gen, k);
        assert(y == fmul(p, fmul(p, offset, offset), fpow(p, fmul(p, gen, gen), k)));
    }
    assert(folded =~= want);
}

/// Folding halves the number of coefficients each time, keeps them reduced, and fixes the last
/// variables.
pub proof fn lemma_fold_all(p: nat, c: Seq<nat>, n: nat, r: Seq<nat>)
    requires
        p > 0,
        c.len() == pow2(n + r.len()),
        forall|i: int| 0 <= i < c.len() ==> c[i] < p,
    ensures
        fold_all(p, c, r).len() == pow2(n),
        forall|i: int| 0 <= i < fold_all(p, c, r).len() ==> fold_all(p, c, r)[i] < p,
        forall|x: Seq<nat>|
            x.len() == n ==> #[trigger] multilinear(p, fold_all(p, c, r), x) == multilinear(
                p,
                c,
                x + r,
            ),
    decreases r.len(),
{
    if r.len() == 0 {
        assert forall|x: Seq<nat>| x.len() == n implies #[trigger] multilinear(
            p,
            fold_all(p, c, r),
            x,
        ) == multilinear(p, c, x + r) by {
            assert(x + r =~= x);
        }
    } else {
        let folded = fold_coefficients(p, c, r.last());
        let rest = r.drop_last();
        lemma_pow2_unfold(n + r.len());
        assert forall|i: int| 0 <= i < folded.len() implies folded[i] < p by {
            lemma_reduce(p, c[2 * i], fmul(p, c[2 * i + 1], r.last()));
        }
        lemma_fold_all(p, folded, n, rest);
        assert forall|x: Seq<nat>| x.len() == n implies #[trigger] multilinear(
            p,
            fold_all(p, c, r),
            x,
        ) == multilinear(p, c, x + r) by {
            lemma_fix_last(p, c, x + r);
            assert((x + r).drop_last() =~= x + rest);
        }
    }
}

/// Folding the values that a polynomial takes on a coset gives the value of the folded
/// coefficients at the power that all the points of the coset have in common. The coset is
/// `offset` times the group that `gen` generates.
pub proof fn law_fold_of_values(
    p: nat,
    c: Seq<nat>,
    randomness: Seq<nat>,
    offset: nat,
    offset_inv: nat,
    gen: nat,
    gen_inv: nat,
    n: nat,
)
    requires
        p > 2,
        p % 2 == 1,
        c.len() == pow2(n + randomness.len()),
        fmul(p, offset, offset_inv) == 1,
        fmul(p, gen, gen_inv) == 1,
        randomness.len() >= 1 ==> fpow(p, gen, pow2((randomness.len() - 1) as nat)) == p - 1,
    ensures
        fold(
            p,
            coset_values(p, c, offset, gen, pow2(randomness.len())),
            randomness,
            offset_inv,
            gen_inv,
            half(p),
            randomness.len(),
        ) == univariate(p, fold_all(p, c, randomness), fpow(p, offset, pow2(randomness.len()))),
    decreases randomness.len(),
{
    let k = randomness.len();
    if k == 0 {
        vstd::arithmetic::power2::lemma2_to64();
        lemma_fmul_comm(p, offset, fpow(p, gen, 0));
        assert(fpow(p, offset, 1) == fmul(p, fpow(p, offset, 0), offset));
    } else {
        lemma_pow2_unfold(k);
        lemma_pow2_unfold(n + k);
        let h = pow2((k - 1) as nat);
        let r = randomness.last();
        let folded = fold_coefficients(p, c, r);
        lemma_fold_once_values(p, c, r, offset, offset_inv, gen, gen_inv, h);
        lemma_residue(p, 1);
        lemma_regroup(p, offset, offset, offset_inv, offset_inv);
        lemma_regroup(p, gen, gen, gen_inv, gen_inv);
        if k >= 2 {
            lemma_pow2_unfold((k - 1) as nat);
            lemma_square_power(p, gen, pow2((k - 2) as nat));
        }
        lemma_square_power(p, offset, h);
        law_fold_of_values(
            p,
            folded,
            randomness.drop_last(),
            fmul(p, offset, offset),
            fmul(p, offset_inv, offset_inv),
            fmul(p, gen, gen),
            fmul(p, gen_inv, gen_inv),
            n,
        );
    }
}

/// Folding the values that a polynomial takes on a coset gives the value of the multilinear
/// polynomial with the same coefficients at the point of the randomness: whether a prover sends
/// the values or the coefficients, the folded value is the same. The coset is `offset` times the
/// group that `gen` generates.
pub proof fn law_fold_is_evaluation(
    p: nat,
    c: Seq<nat>,
    randomness: Seq<nat>,
    offset: nat,
    offset_inv: nat,
    gen: nat,
    gen_inv: nat,
)
    requires
        p > 2,
        p % 2 == 1,
        c.len() == pow2(randomness.len()),
        forall|i: int| 0 <= i < c.len() ==> c[i] < p,
        fmul(p, offset, offset_inv) == 1,
        fmul(p, gen, gen_inv) == 1,
        randomness.len() >= 1 ==> fpow(p, gen, pow2((randomness.len() - 1) as nat)) == p - 1,
    ensures
        fold(
            p,
            coset_values(p, c, offset, gen, c.len()),
            randomness,
            offset_inv,
            gen_inv,
            half(p),
            randomness.len(),
        ) == multilinear(p, c, randomness),
{
    vstd::arithmetic::power2::lemma2_to64();
    law_fold_of_values(p, c, randomness, offset, offset_inv, gen, gen_inv, 0);
    lemma_fold_all(p, c, 0, randomness);
    let constant = fold_all(p, c, randomness);
    let x = fpow(p, offset, c.len());
    assert(univariate(p, constant.drop_first(), x) == 0);
    assert(fmul(p, x, 0) == 0) by {
        assert(x * 0 == 0) by (nonlinear_arith);
        lemma_residue(p, 0);
    }
    lemma_residue(p, constant[0]);
    assert(univariate(p, constant, x) == constant[0]);
    assert(multilinear(p, constant, Seq::empty()) == constant[0]);
    assert(Seq::<nat>::empty() + randomness =~= randomness);
}

/// Folds the values that a polynomial takes on a coset into one value, `folding_factor` times.
pub fn compute_fold<F: PrimeField>(
    answers: &Vec<F>,
    folding_randomness: &Vec<F>,
    coset_offset_inv: F,
    coset_gen_inv: F,
    two_inv: F,
    folding_factor: usize,
) -> (r: F)
    requires
        answers@.len() >= pow2(folding_factor as nat),
        folding_randomness@.len() >= folding_factor,
    ensures
        r.val() == fold(
            F::modulus(),
            vals(answers@),
            vals(folding_randomness@),
            coset_offset_inv.val(),
            coset_gen_inv.val(),
            two_inv.val(),
            folding_factor as nat,
        ),
{
    let ghost p = F::modulus();
    let ghost target = fold(
        p,
        vals(answers@),
        vals(folding_randomness@),
        coset_offset_inv.val(),
        coset_gen_inv.val(),
        two_inv.val(),
        folding_factor as nat,
    );
    let n: usize = folding_randomness.len();
    let mut current: Vec<F> = Vec::with_capacity(answers.len());
    let mut c: usize = 0;
    while c < answers.len()
        invariant
            c <= answers@.len(),
            current@ == answers@.take(c as int),
        decreases answers@.len() - c,
    {
        current.push(answers[c]);
        c += 1;
        assert(answers@.take(c as int) =~= answers@.take(c - 1).push(answers@[c - 1]));
    }
    assert(answers@.take(c as int) =~= answers@);
    let mut offset_inv: F = coset_offset_inv;
    let mut gen_inv: F = coset_gen_inv;
    let mut rec: usize = 0;
    assert(vals(folding_randomness@).take(n as int) =~= vals(folding_randomness@));
    while rec < folding_factor
        invariant
            p == F::modulus(),
            rec <= folding_factor <= n,
            n == folding_randomness@.len(),
            current@.len() >= pow2((folding_factor - rec) as nat),
            fold(
                p,
                vals(current@),
                vals(folding_randomness@).take(n - rec),
                offset_inv.val(),
                gen_inv.val(),
                two_inv.val(),
                (folding_factor - rec) as nat,
            ) == target,
        decreases folding_factor - rec,
    {
        let r: F = folding_randomness[n - 1 - rec];
        let len: usize = current.len();
        let h: usize = len / 2;
        let mut next: Vec<F> = Vec::with_capacity(h);
        let mut power: F = F::one();
        let mut i: usize = 0;
        proof {
            F::lemma_modulus();
            lemma_residue(p, 1);
            lemma_pow2_unfold((folding_factor - rec) as nat);
        }
        while i < h
            invariant
                i <= h,
                len == current@.len(),
                h == len / 2,
                p == F::modulus(),
                power.val() == fpow(p, gen_inv.val(), i as nat),
                next@.len() == i,
                forall|j: int|
                    0 <= j < i ==> (#[trigger] next@[j]).val() == fold_once(
                        p,
                        vals(current@),
                        r.val(),
                        offset_inv.val(),
                        gen_inv.val(),
                        two_inv.val(),
                    )[j],
            decreases h - i,
        {
            let u: F = current[i];
            let v: F = current[i + h];
            let point_inv = offset_inv.times(power);
            let left = u.plus(v);
            let right = point_inv.times(u.minus(v));
            next.push(two_inv.times(left.plus(r.times(right))));
            power = power.times(gen_inv);
            i += 1;
        }
        proof {
            let now = vals(folding_randomness@).take(n - rec);
            assert(now.last() == r.val());
            assert(now.drop_last() =~= vals(folding_randomness@).take(n - rec - 1));
            assert(vals(next@) =~= fold_once(
                p,
                vals(current@),
                r.val(),
                offset_inv.val(),
                gen_inv.val(),
                two_inv.val(),
            ));
        }
        current = next;
        offset_inv = offset_inv.times(offset_inv);
        gen_inv = gen_inv.times(gen_inv);
        rec += 1;
    }
    proof {
        lemma_pow2_pos(0);
    }
    current[0]
}

} // verus!
