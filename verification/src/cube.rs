//! Sums over the hypercube of products of multilinear functions, as a sumcheck takes them.
use crate::field::{
    fadd, fmul, fsub, half, lemma_distribute, lemma_fmul_assoc, lemma_fmul_comm, lemma_reduce,
    lemma_residue,
};
use crate::poly::{dot_upto, eq_bit, eq_poly, eq_upto, multilinear, univariate};
use crate::protocol::equalities;
use crate::sumcheck::{
    law_interpolation, lemma_at_flat, lemma_three_coefficients, quadratic_of, Quadratic,
};
use vstd::arithmetic::div_mod::{
    lemma_add_mod_noop, lemma_mod_bound, lemma_mod_twice, lemma_mul_mod_noop, lemma_small_mod,
    lemma_sub_mod_noop,
};
use vstd::arithmetic::power2::{lemma_pow2_pos, lemma_pow2_unfold, pow2};
use vstd::prelude::*;

verus! {

/// A function of points.
pub type PointFn = spec_fn(Seq<nat>) -> nat;

/// The two numbers have the same residue.
pub open spec fn cong(p: nat, a: int, b: int) -> bool {
    a % (p as int) == b % (p as int)
}

pub proof fn lemma_cong_add(p: nat, a: int, b: int, c: int, d: int)
    requires
        p > 0,
        cong(p, a, b),
        cong(p, c, d),
    ensures
        cong(p, a + c, b + d),
{
    lemma_add_mod_noop(a, c, p as int);
    lemma_add_mod_noop(b, d, p as int);
}

pub proof fn lemma_cong_sub(p: nat, a: int, b: int, c: int, d: int)
    requires
        p > 0,
        cong(p, a, b),
        cong(p, c, d),
    ensures
        cong(p, a - c, b - d),
{
    lemma_sub_mod_noop(a, c, p as int);
    lemma_sub_mod_noop(b, d, p as int);
}

pub proof fn lemma_cong_mul(p: nat, a: int, b: int, c: int, d: int)
    requires
        p > 0,
        cong(p, a, b),
        cong(p, c, d),
    ensures
        cong(p, a * c, b * d),
{
    lemma_mul_mod_noop(a, c, p as int);
    lemma_mul_mod_noop(b, d, p as int);
}

/// The operations on residues agree with those on numbers.
pub proof fn lemma_cong_ops(p: nat, a: nat, b: nat)
    requires
        p > 0,
    ensures
        cong(p, fadd(p, a, b) as int, (a + b) as int),
        cong(p, fmul(p, a, b) as int, (a * b) as int),
        cong(p, fsub(p, a, b) as int, a - b),
        fadd(p, a, b) < p,
        fmul(p, a, b) < p,
        fsub(p, a, b) < p,
{
    lemma_mod_twice((a + b) as int, p as int);
    lemma_mod_twice((a * b) as int, p as int);
    lemma_mod_twice(a - b, p as int);
    lemma_mod_bound((a + b) as int, p as int);
    lemma_mod_bound((a * b) as int, p as int);
    lemma_mod_bound(a - b, p as int);
}

/// Reduced numbers with the same residue are equal.
pub proof fn lemma_cong_equal(p: nat, a: nat, b: nat)
    requires
        a < p,
        b < p,
        cong(p, a as int, b as int),
    ensures
        a == b,
{
    lemma_small_mod(a, p);
    lemma_small_mod(b, p);
}

/// `vx` is the value at `x` of the line through `v0` at 0 and `v1` at 1.
pub open spec fn on_line(p: nat, v0: nat, v1: nat, x: nat, vx: nat) -> bool {
    cong(p, vx as int, v0 + x * (v1 - v0))
}

/// Lines add up.
pub proof fn lemma_line_add(p: nat, u0: nat, u1: nat, ux: nat, v0: nat, v1: nat, vx: nat, x: nat)
    requires
        p > 0,
        on_line(p, u0, u1, x, ux),
        on_line(p, v0, v1, x, vx),
    ensures
        on_line(p, fadd(p, u0, v0), fadd(p, u1, v1), x, fadd(p, ux, vx)),
{
    lemma_cong_ops(p, u0, v0);
    lemma_cong_ops(p, u1, v1);
    lemma_cong_ops(p, ux, vx);
    let (s0, s1) = (fadd(p, u0, v0) as int, fadd(p, u1, v1) as int);
    let (t0, t1) = ((u0 + v0) as int, (u1 + v1) as int);
    lemma_cong_sub(p, s1, t1, s0, t0);
    lemma_cong_mul(p, x as int, x as int, s1 - s0, t1 - t0);
    lemma_cong_add(p, s0, t0, x * (s1 - s0), x * (t1 - t0));
    lemma_cong_add(p, ux as int, u0 + x * (u1 - u0), vx as int, v0 + x * (v1 - v0));
    assert((u0 + x * (u1 - u0)) + (v0 + x * (v1 - v0)) == t0 + x * (t1 - t0)) by (nonlinear_arith)
        requires
            t0 == u0 + v0,
            t1 == u1 + v1,
    ;
}

/// Multiples of lines are lines.
proof fn lemma_line_scale(p: nat, s: nat, v0: nat, v1: nat, vx: nat, x: nat)
    requires
        p > 0,
        on_line(p, v0, v1, x, vx),
    ensures
        on_line(p, fmul(p, s, v0), fmul(p, s, v1), x, fmul(p, s, vx)),
{
    lemma_cong_ops(p, s, v0);
    lemma_cong_ops(p, s, v1);
    lemma_cong_ops(p, s, vx);
    let (s0, s1) = (fmul(p, s, v0) as int, fmul(p, s, v1) as int);
    let (t0, t1) = (s * v0, s * v1);
    lemma_cong_sub(p, s1, t1 as int, s0, t0 as int);
    lemma_cong_mul(p, x as int, x as int, s1 - s0, t1 - t0);
    lemma_cong_add(p, s0, t0 as int, x * (s1 - s0), x * (t1 - t0));
    lemma_cong_mul(p, s as int, s as int, vx as int, v0 + x * (v1 - v0));
    assert(s * (v0 + x * (v1 - v0)) == t0 + x * (t1 - t0)) by (nonlinear_arith)
        requires
            t0 == s * v0,
            t1 == s * v1,
    ;
}

/// Along one coordinate, with the others fixed, `g` is a line.
pub open spec fn line_at(p: nat, g: PointFn, before: Seq<nat>, x: nat, after: Seq<nat>) -> bool {
    on_line(
        p,
        g(before + seq![0nat] + after),
        g(before + seq![1nat] + after),
        x,
        g(before + seq![x] + after),
    )
}

/// Along every coordinate, `g` of points with `n` coordinates is a line.
pub open spec fn multi_linear(p: nat, g: PointFn, n: nat) -> bool {
    forall|before: Seq<nat>, x: nat, after: Seq<nat>|
        before.len() + 1 + after.len() == n ==> #[trigger] line_at(p, g, before, x, after)
}

/// The function with these coefficients.
pub open spec fn coefficient_fn(p: nat, c: Seq<nat>) -> PointFn {
    |x: Seq<nat>| multilinear(p, c, x)
}

/// Values are reduced where the coefficients are.
pub proof fn lemma_multilinear_bound(p: nat, c: Seq<nat>, x: Seq<nat>)
    requires
        p > 0,
        c.len() == pow2(x.len()),
        forall|i: int| 0 <= i < c.len() ==> c[i] < p,
    ensures
        multilinear(p, c, x) < p,
{
    lemma_pow2_pos(x.len());
    if x.len() > 0 {
        let h = (c.len() / 2) as int;
        lemma_reduce(
            p,
            multilinear(p, c.take(h), x.drop_first()),
            fmul(p, multilinear(p, c.skip(h), x.drop_first()), x[0]),
        );
    }
}

/// A function that coefficients give is a line along each coordinate.
proof fn lemma_coefficient_line(
    p: nat,
    c: Seq<nat>,
    before: Seq<nat>,
    x: nat,
    after: Seq<nat>,
)
    requires
        p > 0,
        c.len() == pow2(before.len() + 1 + after.len()),
    ensures
        on_line(
            p,
            multilinear(p, c, before + seq![0nat] + after),
            multilinear(p, c, before + seq![1nat] + after),
            x,
            multilinear(p, c, before + seq![x] + after),
        ),
    decreases before.len(),
{
    let h = (c.len() / 2) as int;
    lemma_pow2_unfold(before.len() + 1 + after.len());
    let (p0, p1, px) = (
        before + seq![0nat] + after,
        before + seq![1nat] + after,
        before + seq![x] + after,
    );
    if before.len() == 0 {
        assert(p0.drop_first() =~= after && p1.drop_first() =~= after && px.drop_first() =~= after);
        let lo = multilinear(p, c.take(h), after);
        let hi = multilinear(p, c.skip(h), after);
        let (v0, v1) = (fadd(p, lo, fmul(p, hi, 0)), fadd(p, lo, fmul(p, hi, 1)));
        lemma_cong_ops(p, hi, 0);
        lemma_cong_ops(p, hi, 1);
        lemma_cong_ops(p, hi, x);
        lemma_cong_ops(p, lo, fmul(p, hi, 0));
        lemma_cong_ops(p, lo, fmul(p, hi, 1));
        lemma_cong_ops(p, lo, fmul(p, hi, x));
        assert(hi * 0 == 0 && hi * 1 == hi) by (nonlinear_arith);
        lemma_cong_add(p, lo as int, lo as int, fmul(p, hi, 0) as int, 0);
        lemma_cong_add(p, lo as int, lo as int, fmul(p, hi, 1) as int, hi as int);
        lemma_cong_add(p, lo as int, lo as int, fmul(p, hi, x) as int, (hi * x) as int);
        lemma_cong_sub(p, v1 as int, (lo + hi) as int, v0 as int, lo as int);
        lemma_cong_mul(p, x as int, x as int, v1 - v0, hi as int);
        lemma_cong_add(p, v0 as int, lo as int, x * (v1 - v0), (x * hi) as int);
        assert(x * hi == hi * x) by (nonlinear_arith);
    } else {
        let rest = before.drop_first();
        let t = before[0];
        assert(p0.drop_first() =~= rest + seq![0nat] + after);
        assert(p1.drop_first() =~= rest + seq![1nat] + after);
        assert(px.drop_first() =~= rest + seq![x] + after);
        lemma_coefficient_line(p, c.take(h), rest, x, after);
        lemma_coefficient_line(p, c.skip(h), rest, x, after);
        let lo = c.take(h);
        let hi = c.skip(h);
        let (h0, h1, hx) = (
            multilinear(p, hi, rest + seq![0nat] + after),
            multilinear(p, hi, rest + seq![1nat] + after),
            multilinear(p, hi, rest + seq![x] + after),
        );
        lemma_fmul_comm(p, h0, t);
        lemma_fmul_comm(p, h1, t);
        lemma_fmul_comm(p, hx, t);
        lemma_line_scale(p, t, h0, h1, hx, x);
        lemma_line_add(
            p,
            multilinear(p, lo, rest + seq![0nat] + after),
            multilinear(p, lo, rest + seq![1nat] + after),
            multilinear(p, lo, rest + seq![x] + after),
            fmul(p, h0, t),
            fmul(p, h1, t),
            fmul(p, hx, t),
            x,
        );
    }
}

/// Functions that coefficients give are multilinear.
pub proof fn lemma_coefficient_fn(p: nat, c: Seq<nat>, n: nat)
    requires
        p > 0,
        c.len() == pow2(n),
    ensures
        multi_linear(p, coefficient_fn(p, c), n),
{
    let g = coefficient_fn(p, c);
    assert forall|before: Seq<nat>, x: nat, after: Seq<nat>|
        before.len() + 1 + after.len() == n implies #[trigger] line_at(
        p,
        g,
        before,
        x,
        after,
    ) by {
        lemma_coefficient_line(p, c, before, x, after);
    }
}

/// The first coordinates alone determine a product over the first coordinates.
proof fn lemma_eq_upto_prefix(
    p: nat,
    a: Seq<nat>,
    b: Seq<nat>,
    c: Seq<nat>,
    d: Seq<nat>,
    k: nat,
)
    requires
        k <= a.len(),
        k <= b.len(),
        k <= c.len(),
        k <= d.len(),
        a.take(k as int) == c.take(k as int),
        b.take(k as int) == d.take(k as int),
    ensures
        eq_upto(p, a, b, k) == eq_upto(p, c, d, k),
    decreases k,
{
    if k > 0 {
        assert(a.take(k as int)[k - 1] == a[k - 1] && c.take(k as int)[k - 1] == c[k - 1]);
        assert(b.take(k as int)[k - 1] == b[k - 1] && d.take(k as int)[k - 1] == d[k - 1]);
        assert(a.take(k - 1) =~= a.take(k as int).take(k - 1));
        assert(b.take(k - 1) =~= b.take(k as int).take(k - 1));
        assert(c.take(k - 1) =~= c.take(k as int).take(k - 1));
        assert(d.take(k - 1) =~= d.take(k as int).take(k - 1));
        lemma_eq_upto_prefix(p, a, b, c, d, (k - 1) as nat);
    }
}

/// Products over coordinates are reduced.
proof fn lemma_eq_poly_bound(p: nat, a: Seq<nat>, b: Seq<nat>)
    requires
        p > 1,
    ensures
        eq_poly(p, a, b) < p,
{
    if a.len() > 0 {
        let k = a.len();
        lemma_reduce(
            p,
            eq_upto(p, a, b, (k - 1) as nat),
            eq_bit(p, a[k - 1], b[k - 1]),
        );
    }
}

/// Equality of points is equality of their parts.
proof fn lemma_eq_split(p: nat, a: Seq<nat>, b: Seq<nat>, c: Seq<nat>, d: Seq<nat>)
    requires
        p > 1,
        a.len() == b.len(),
        c.len() == d.len(),
    ensures
        eq_poly(p, a + c, b + d) == fmul(p, eq_poly(p, a, b), eq_poly(p, c, d)),
    decreases c.len(),
{
    lemma_eq_poly_bound(p, a, b);
    if c.len() == 0 {
        assert(a + c =~= a && b + d =~= b);
        let e = eq_poly(p, a, b);
        assert(e * 1 == e) by (nonlinear_arith);
        lemma_residue(p, e);
    } else {
        let n = (a + c).len();
        let (c1, d1) = (c.drop_last(), d.drop_last());
        lemma_eq_split(p, a, b, c1, d1);
        assert((a + c).take(n - 1) =~= (a + c1).take(n - 1));
        assert((b + d).take(n - 1) =~= (b + d1).take(n - 1));
        lemma_eq_upto_prefix(p, a + c, b + d, a + c1, b + d1, (n - 1) as nat);
        assert(c.take(c.len() - 1) =~= c1.take(c.len() - 1));
        assert(d.take(c.len() - 1) =~= d1.take(c.len() - 1));
        lemma_eq_upto_prefix(p, c, d, c1, d1, (c.len() - 1) as nat);
        let bit = eq_bit(p, c.last(), d.last());
        assert((a + c)[n - 1] == c.last() && (b + d)[n - 1] == d.last());
        lemma_fmul_assoc(p, eq_poly(p, a, b), eq_poly(p, c1, d1), bit);
    }
}

/// Equality of single coordinates is a line.
proof fn lemma_eq_bit_line(p: nat, a: nat, x: nat)
    requires
        p > 1,
    ensures
        on_line(p, eq_bit(p, a, 0), eq_bit(p, a, 1), x, eq_bit(p, a, x)),
        cong(p, eq_bit(p, a, 0) as int, 1 - a),
        cong(p, eq_bit(p, a, 1) as int, a as int),
{
    lemma_eq_bit_flat(p, a, 0);
    lemma_eq_bit_flat(p, a, 1);
    lemma_eq_bit_flat(p, a, x);
    let (v0, v1) = (eq_bit(p, a, 0) as int, eq_bit(p, a, 1) as int);
    assert(a * 0 + (1 - a) * (1 - 0) == 1 - a) by (nonlinear_arith);
    assert(a * 1 + (1 - a) * (1 - 1) == a) by (nonlinear_arith);
    lemma_cong_sub(p, v1, a as int, v0, 1 - a);
    lemma_cong_mul(p, x as int, x as int, v1 - v0, a - (1 - a));
    lemma_cong_add(p, v0, 1 - a, x * (v1 - v0), x * (a - (1 - a)));
    assert(a * x + (1 - a) * (1 - x) == (1 - a) + x * (a - (1 - a))) by (nonlinear_arith);
}

/// Equality of single coordinates, with the reductions left out.
proof fn lemma_eq_bit_flat(p: nat, a: nat, x: nat)
    requires
        p > 0,
    ensures
        cong(p, eq_bit(p, a, x) as int, a * x + (1 - a) * (1 - x)),
{
    let (u, v) = (fsub(p, 1, a), fsub(p, 1, x));
    lemma_cong_ops(p, 1, a);
    lemma_cong_ops(p, 1, x);
    lemma_cong_ops(p, a, x);
    lemma_cong_ops(p, u, v);
    lemma_cong_ops(p, fmul(p, a, x), fmul(p, u, v));
    lemma_cong_mul(p, u as int, 1 - a, v as int, 1 - x);
    lemma_cong_add(
        p,
        fmul(p, a, x) as int,
        (a * x) as int,
        fmul(p, u, v) as int,
        (1 - a) * (1 - x),
    );
}

/// Equality of points, with one coordinate taken out.
proof fn lemma_eq_at(
    p: nat,
    z1: Seq<nat>,
    a: nat,
    z2: Seq<nat>,
    before: Seq<nat>,
    y: nat,
    after: Seq<nat>,
)
    requires
        p > 1,
        z1.len() == before.len(),
        z2.len() == after.len(),
    ensures
        eq_poly(p, z1 + seq![a] + z2, before + seq![y] + after) == fmul(
            p,
            eq_poly(p, z2, after),
            fmul(p, eq_poly(p, z1, before), eq_bit(p, a, y)),
        ),
{
    let (e1, e2) = (eq_poly(p, z1, before), eq_poly(p, z2, after));
    lemma_eq_split(p, z1 + seq![a], before + seq![y], z2, after);
    lemma_eq_split(p, z1, before, seq![a], seq![y]);
    let bit = eq_bit(p, a, y);
    assert(eq_upto(p, seq![a], seq![y], 0) == 1);
    assert(eq_poly(p, seq![a], seq![y]) == fmul(p, 1, bit));
    lemma_cong_ops(p, fmul(p, a, y), fmul(p, fsub(p, 1, a), fsub(p, 1, y)));
    assert(1 * bit == bit);
    lemma_residue(p, bit);
    lemma_fmul_comm(p, fmul(p, e1, bit), e2);
}

/// Equality with a fixed point is a line along each coordinate.
proof fn lemma_eq_line(p: nat, z: Seq<nat>, before: Seq<nat>, x: nat, after: Seq<nat>)
    requires
        p > 1,
        z.len() == before.len() + 1 + after.len(),
    ensures
        on_line(
            p,
            eq_poly(p, z, before + seq![0nat] + after),
            eq_poly(p, z, before + seq![1nat] + after),
            x,
            eq_poly(p, z, before + seq![x] + after),
        ),
{
    let k = before.len() as int;
    let (z1, z2) = (z.take(k), z.skip(k + 1));
    let a = z[k];
    assert(z =~= z1 + seq![a] + z2);
    let (e1, e2) = (eq_poly(p, z1, before), eq_poly(p, z2, after));
    lemma_eq_at(p, z1, a, z2, before, 0, after);
    lemma_eq_at(p, z1, a, z2, before, 1, after);
    lemma_eq_at(p, z1, a, z2, before, x, after);
    lemma_eq_bit_line(p, a, x);
    lemma_line_scale(p, e1, eq_bit(p, a, 0), eq_bit(p, a, 1), eq_bit(p, a, x), x);
    lemma_line_scale(
        p,
        e2,
        fmul(p, e1, eq_bit(p, a, 0)),
        fmul(p, e1, eq_bit(p, a, 1)),
        fmul(p, e1, eq_bit(p, a, x)),
        x,
    );
}

/// The sum of `g` over the points that start with `v` bits and go on as `tail`.
pub open spec fn cube_sum(p: nat, g: PointFn, v: nat, tail: Seq<nat>) -> nat
    decreases v,
{
    if v == 0 {
        g(tail)
    } else {
        fadd(
            p,
            cube_sum(p, g, (v - 1) as nat, seq![0nat] + tail),
            cube_sum(p, g, (v - 1) as nat, seq![1nat] + tail),
        )
    }
}

/// The product of two lines, written out.
proof fn lemma_lines_expand(a: int, b: int, c: int, d: int, y: int)
    ensures
        (a + y * c) * (b + y * d) == a * b + y * ((a * d + b * c) + y * (c * d)),
{
    let z = b + y * d;
    assert((a + y * c) * z == a * z + (y * c) * z) by (nonlinear_arith);
    assert(a * (b + y * d) == a * b + a * (y * d)) by (nonlinear_arith);
    assert((y * c) * (b + y * d) == (y * c) * b + (y * c) * (y * d)) by (nonlinear_arith);
    assert(a * (y * d) == y * (a * d)) by (nonlinear_arith);
    assert((y * c) * b == y * (b * c)) by (nonlinear_arith);
    assert((y * c) * (y * d) == y * (y * (c * d))) by (nonlinear_arith);
    let (e, f, g) = (a * d, b * c, y * (c * d));
    assert(y * ((e + f) + g) == y * e + y * f + y * g) by (nonlinear_arith);
}

/// The product of two lines is a polynomial with three coefficients.
proof fn lemma_product_value(
    p: nat,
    u0: nat,
    u1: nat,
    v0: nat,
    v1: nat,
    a: nat,
    b: nat,
    c: nat,
    y: nat,
    uy: nat,
    vy: nat,
)
    requires
        p > 0,
        on_line(p, u0, u1, y, uy),
        on_line(p, v0, v1, y, vy),
        cong(p, a as int, (u0 * v0) as int),
        cong(p, b as int, u0 * (v1 - v0) + v0 * (u1 - u0)),
        cong(p, c as int, (u1 - u0) * (v1 - v0)),
    ensures
        fmul(p, uy, vy) == univariate(p, seq![a, b, c], y),
{
    let (du, dv) = (u1 - u0, v1 - v0);
    let yi = y as int;
    lemma_three_coefficients(p, a, b, c, y);
    lemma_cong_mul(p, uy as int, u0 + y * du, vy as int, v0 + y * dv);
    lemma_cong_mul(p, yi, yi, c as int, du * dv);
    lemma_cong_add(p, b as int, u0 * dv + v0 * du, yi * c, yi * (du * dv));
    lemma_cong_mul(p, yi, yi, b + yi * c, (u0 * dv + v0 * du) + yi * (du * dv));
    lemma_cong_add(
        p,
        a as int,
        (u0 * v0) as int,
        yi * (b + yi * c),
        yi * ((u0 * dv + v0 * du) + yi * (du * dv)),
    );
    lemma_lines_expand(u0 as int, v0 as int, du, dv, yi);
}

/// The values at 0, 1 and 2 of a product of lines determine it.
proof fn lemma_quadratic_product(
    p: nat,
    u0: nat,
    u1: nat,
    u2: nat,
    ux: nat,
    v0: nat,
    v1: nat,
    v2: nat,
    vx: nat,
    x: nat,
)
    requires
        p > 2,
        p % 2 == 1,
        on_line(p, u0, u1, 2, u2),
        on_line(p, u0, u1, x, ux),
        on_line(p, v0, v1, 2, v2),
        on_line(p, v0, v1, x, vx),
    ensures
        (Quadratic {
            at_zero: fmul(p, u0, v0),
            at_one: fmul(p, u1, v1),
            at_two: fmul(p, u2, v2),
        }).at(p, x) == fmul(p, ux, vx),
{
    let m = p as int;
    let (du, dv) = (u1 - u0, v1 - v0);
    let q = Quadratic {
        at_zero: fmul(p, u0, v0),
        at_one: fmul(p, u1, v1),
        at_two: fmul(p, u2, v2),
    };
    lemma_mod_bound(u0 * dv + v0 * du, m);
    lemma_mod_bound(du * dv, m);
    lemma_mod_bound((u0 * v0) as int, m);
    let a = ((u0 * v0) % p) as nat;
    let b = ((u0 * dv + v0 * du) % m) as nat;
    let c = ((du * dv) % m) as nat;
    lemma_mod_twice((u0 * v0) as int, m);
    lemma_mod_twice(u0 * dv + v0 * du, m);
    lemma_mod_twice(du * dv, m);
    assert(0 * du == 0 && 0 * dv == 0 && 1 * du == du && 1 * dv == dv);
    lemma_product_value(p, u0, u1, v0, v1, a, b, c, 0, u0, v0);
    lemma_product_value(p, u0, u1, v0, v1, a, b, c, 1, u1, v1);
    lemma_product_value(p, u0, u1, v0, v1, a, b, c, 2, u2, v2);
    lemma_product_value(p, u0, u1, v0, v1, a, b, c, x, ux, vx);
    assert(q == quadratic_of(p, a, b, c));
    law_interpolation(p, a, b, c, x);
}

/// Interpolation is linear.
proof fn lemma_quadratic_sum(p: nat, q: Quadratic, s: Quadratic, x: nat)
    requires
        p > 0,
    ensures
        (Quadratic {
            at_zero: fadd(p, q.at_zero, s.at_zero),
            at_one: fadd(p, q.at_one, s.at_one),
            at_two: fadd(p, q.at_two, s.at_two),
        }).at(p, x) == fadd(p, q.at(p, x), s.at(p, x)),
{
    let t = Quadratic {
        at_zero: fadd(p, q.at_zero, s.at_zero),
        at_one: fadd(p, q.at_one, s.at_one),
        at_two: fadd(p, q.at_two, s.at_two),
    };
    lemma_at_flat(q, p, x);
    lemma_at_flat(s, p, x);
    lemma_at_flat(t, p, x);
    let w0 = ((x - 1) * (x - 2)) * half(p);
    let w1 = x * (2 - x);
    let w2 = (x * (x - 1)) * half(p);
    let (q0, q1, q2) = (q.at_zero as int, q.at_one as int, q.at_two as int);
    let (s0, s1, s2) = (s.at_zero as int, s.at_one as int, s.at_two as int);
    let (t0, t1, t2) = (t.at_zero as int, t.at_one as int, t.at_two as int);
    lemma_cong_ops(p, q.at_zero, s.at_zero);
    lemma_cong_ops(p, q.at_one, s.at_one);
    lemma_cong_ops(p, q.at_two, s.at_two);
    lemma_cong_mul(p, t0, q0 + s0, w0, w0);
    lemma_cong_mul(p, t1, q1 + s1, w1, w1);
    lemma_cong_mul(p, t2, q2 + s2, w2, w2);
    lemma_cong_add(p, t0 * w0, (q0 + s0) * w0, t1 * w1, (q1 + s1) * w1);
    lemma_cong_add(
        p,
        t0 * w0 + t1 * w1,
        (q0 + s0) * w0 + (q1 + s1) * w1,
        t2 * w2,
        (q2 + s2) * w2,
    );
    let (left, right) = (q0 * w0 + q1 * w1 + q2 * w2, s0 * w0 + s1 * w1 + s2 * w2);
    assert((q0 + s0) * w0 + (q1 + s1) * w1 + (q2 + s2) * w2 == left + right) by (nonlinear_arith)
        requires
            left == q0 * w0 + q1 * w1 + q2 * w2,
            right == s0 * w0 + s1 * w1 + s2 * w2,
    ;
    lemma_add_mod_noop(left, right, p as int);
}

/// The product of two functions.
pub open spec fn product(p: nat, f: PointFn, w: PointFn) -> PointFn {
    |x: Seq<nat>| fmul(p, f(x), w(x))
}

/// A sum over the hypercube of a product of multilinear functions, in one of the fixed
/// coordinates, is determined by its values at 0, 1 and 2.
pub proof fn lemma_cube_quadratic(
    p: nat,
    f: PointFn,
    w: PointFn,
    v: nat,
    middle: Seq<nat>,
    x: nat,
    tail: Seq<nat>,
)
    requires
        p > 2,
        p % 2 == 1,
        multi_linear(p, f, v + middle.len() + 1 + tail.len()),
        multi_linear(p, w, v + middle.len() + 1 + tail.len()),
    ensures
        (Quadratic {
            at_zero: cube_sum(p, product(p, f, w), v, middle + seq![0nat] + tail),
            at_one: cube_sum(p, product(p, f, w), v, middle + seq![1nat] + tail),
            at_two: cube_sum(p, product(p, f, w), v, middle + seq![2nat] + tail),
        }).at(p, x) == cube_sum(p, product(p, f, w), v, middle + seq![x] + tail),
    decreases v,
{
    let g = product(p, f, w);
    if v == 0 {
        assert(line_at(p, f, middle, 2, tail));
        assert(line_at(p, f, middle, x, tail));
        assert(line_at(p, w, middle, 2, tail));
        assert(line_at(p, w, middle, x, tail));
        lemma_quadratic_product(
            p,
            f(middle + seq![0nat] + tail),
            f(middle + seq![1nat] + tail),
            f(middle + seq![2nat] + tail),
            f(middle + seq![x] + tail),
            w(middle + seq![0nat] + tail),
            w(middle + seq![1nat] + tail),
            w(middle + seq![2nat] + tail),
            w(middle + seq![x] + tail),
            x,
        );
    } else {
        let u = (v - 1) as nat;
        let (m0, m1) = (seq![0nat] + middle, seq![1nat] + middle);
        lemma_cube_quadratic(p, f, w, u, m0, x, tail);
        lemma_cube_quadratic(p, f, w, u, m1, x, tail);
        assert(seq![0nat] + (middle + seq![0nat] + tail) =~= m0 + seq![0nat] + tail);
        assert(seq![1nat] + (middle + seq![0nat] + tail) =~= m1 + seq![0nat] + tail);
        assert(seq![0nat] + (middle + seq![1nat] + tail) =~= m0 + seq![1nat] + tail);
        assert(seq![1nat] + (middle + seq![1nat] + tail) =~= m1 + seq![1nat] + tail);
        assert(seq![0nat] + (middle + seq![2nat] + tail) =~= m0 + seq![2nat] + tail);
        assert(seq![1nat] + (middle + seq![2nat] + tail) =~= m1 + seq![2nat] + tail);
        assert(seq![0nat] + (middle + seq![x] + tail) =~= m0 + seq![x] + tail);
        assert(seq![1nat] + (middle + seq![x] + tail) =~= m1 + seq![x] + tail);
        let q0 = Quadratic {
            at_zero: cube_sum(p, g, u, m0 + seq![0nat] + tail),
            at_one: cube_sum(p, g, u, m0 + seq![1nat] + tail),
            at_two: cube_sum(p, g, u, m0 + seq![2nat] + tail),
        };
        let q1 = Quadratic {
            at_zero: cube_sum(p, g, u, m1 + seq![0nat] + tail),
            at_one: cube_sum(p, g, u, m1 + seq![1nat] + tail),
            at_two: cube_sum(p, g, u, m1 + seq![2nat] + tail),
        };
        lemma_quadratic_sum(p, q0, q1, x);
    }
}

/// Sums of two pairs may be taken in either order.
proof fn lemma_add_pairs(p: nat, a: nat, b: nat, c: nat, d: nat)
    requires
        p > 0,
    ensures
        fadd(p, fadd(p, a, b), fadd(p, c, d)) == fadd(p, fadd(p, a, c), fadd(p, b, d)),
{
    lemma_add_mod_noop((a + b) as int, (c + d) as int, p as int);
    lemma_add_mod_noop((a + c) as int, (b + d) as int, p as int);
}

/// Equal functions have equal sums.
pub proof fn lemma_cube_equal(p: nat, g: PointFn, h: PointFn, v: nat, tail: Seq<nat>)
    requires
        forall|x: Seq<nat>| x.len() == v + tail.len() ==> #[trigger] g(x) == h(x),
    ensures
        cube_sum(p, g, v, tail) == cube_sum(p, h, v, tail),
    decreases v,
{
    if v > 0 {
        lemma_cube_equal(p, g, h, (v - 1) as nat, seq![0nat] + tail);
        lemma_cube_equal(p, g, h, (v - 1) as nat, seq![1nat] + tail);
    } else {
        assert(g(tail) == h(tail));
    }
}

/// The sum of a sum of functions.
pub proof fn lemma_cube_add(p: nat, g: PointFn, h: PointFn, s: PointFn, v: nat, tail: Seq<nat>)
    requires
        p > 0,
        forall|x: Seq<nat>|
            x.len() == v + tail.len() ==> #[trigger] s(x) == fadd(p, g(x), h(x)),
    ensures
        cube_sum(p, s, v, tail) == fadd(p, cube_sum(p, g, v, tail), cube_sum(p, h, v, tail)),
    decreases v,
{
    if v > 0 {
        let (t0, t1) = (seq![0nat] + tail, seq![1nat] + tail);
        let u = (v - 1) as nat;
        lemma_cube_add(p, g, h, s, u, t0);
        lemma_cube_add(p, g, h, s, u, t1);
        lemma_add_pairs(
            p,
            cube_sum(p, g, u, t0),
            cube_sum(p, h, u, t0),
            cube_sum(p, g, u, t1),
            cube_sum(p, h, u, t1),
        );
    } else {
        assert(s(tail) == fadd(p, g(tail), h(tail)));
    }
}

/// The sum of a multiple of a function.
proof fn lemma_cube_scale(p: nat, k: nat, g: PointFn, s: PointFn, v: nat, tail: Seq<nat>)
    requires
        p > 0,
        forall|x: Seq<nat>| x.len() == v + tail.len() ==> #[trigger] s(x) == fmul(p, k, g(x)),
    ensures
        cube_sum(p, s, v, tail) == fmul(p, k, cube_sum(p, g, v, tail)),
    decreases v,
{
    if v > 0 {
        let (t0, t1) = (seq![0nat] + tail, seq![1nat] + tail);
        let u = (v - 1) as nat;
        lemma_cube_scale(p, k, g, s, u, t0);
        lemma_cube_scale(p, k, g, s, u, t1);
        lemma_distribute(p, k, cube_sum(p, g, u, t0), cube_sum(p, g, u, t1));
    } else {
        assert(s(tail) == fmul(p, k, g(tail)));
    }
}

/// The function `g` with its last coordinates fixed.
pub open spec fn fixed(g: PointFn, last: Seq<nat>) -> PointFn {
    |x: Seq<nat>| g(x + last)
}

/// The sum of a function with fixed coordinates.
pub proof fn lemma_cube_fixed(p: nat, g: PointFn, last: Seq<nat>, v: nat, tail: Seq<nat>)
    ensures
        cube_sum(p, fixed(g, last), v, tail) == cube_sum(p, g, v, tail + last),
    decreases v,
{
    if v > 0 {
        assert(seq![0nat] + (tail + last) =~= seq![0nat] + tail + last);
        assert(seq![1nat] + (tail + last) =~= seq![1nat] + tail + last);
        lemma_cube_fixed(p, g, last, (v - 1) as nat, seq![0nat] + tail);
        lemma_cube_fixed(p, g, last, (v - 1) as nat, seq![1nat] + tail);
    }
}

/// Fixing coordinates keeps functions multilinear.
pub proof fn lemma_fixed_multi_linear(p: nat, g: PointFn, last: Seq<nat>, n: nat)
    requires
        multi_linear(p, g, n + last.len()),
    ensures
        multi_linear(p, fixed(g, last), n),
{
    let h = fixed(g, last);
    assert forall|before: Seq<nat>, x: nat, after: Seq<nat>|
        before.len() + 1 + after.len() == n implies #[trigger] line_at(
        p,
        h,
        before,
        x,
        after,
    ) by {
        assert(line_at(p, g, before, x, after + last));
        assert(before + seq![0nat] + after + last =~= before + seq![0nat] + (after + last));
        assert(before + seq![1nat] + after + last =~= before + seq![1nat] + (after + last));
        assert(before + seq![x] + after + last =~= before + seq![x] + (after + last));
    }
}

/// Equality with a fixed point.
pub open spec fn eq_fn(p: nat, z: Seq<nat>) -> PointFn {
    |x: Seq<nat>| eq_poly(p, z, x)
}

/// Summing a multilinear function against equality with `z` over the first coordinates evaluates
/// it at the first coordinates of `z`.
proof fn lemma_cube_reproduces(p: nat, f: PointFn, z: Seq<nat>, v: nat, tail: Seq<nat>)
    requires
        p > 1,
        z.len() == v + tail.len(),
        multi_linear(p, f, z.len()),
    ensures
        cube_sum(p, product(p, f, eq_fn(p, z)), v, tail) == fmul(
            p,
            f(z.take(v as int) + tail),
            eq_poly(p, z.skip(v as int), tail),
        ),
    decreases v,
{
    let g = product(p, f, eq_fn(p, z));
    if v == 0 {
        assert(z.take(0) + tail =~= tail);
        assert(z.skip(0) =~= z);
    } else {
        let u = (v - 1) as nat;
        let head = z.take(u as int);
        let a = z[u as int];
        let rest = z.skip(v as int);
        let e = eq_poly(p, rest, tail);
        lemma_cube_reproduces(p, f, z, u, seq![0nat] + tail);
        lemma_cube_reproduces(p, f, z, u, seq![1nat] + tail);
        let none = Seq::<nat>::empty();
        assert(z.skip(u as int) =~= none + seq![a] + rest);
        assert(none + seq![0nat] + tail =~= seq![0nat] + tail);
        assert(none + seq![1nat] + tail =~= seq![1nat] + tail);
        lemma_eq_at(p, none, a, rest, none, 0, tail);
        lemma_eq_at(p, none, a, rest, none, 1, tail);
        assert(head + (seq![0nat] + tail) =~= head + seq![0nat] + tail);
        assert(head + (seq![1nat] + tail) =~= head + seq![1nat] + tail);
        assert(z.take(v as int) + tail =~= head + seq![a] + tail);
        assert(line_at(p, f, head, a, tail));
        let (f0, f1, fa) = (
            f(head + seq![0nat] + tail),
            f(head + seq![1nat] + tail),
            f(head + seq![a] + tail),
        );
        assert(eq_poly(p, none, none) == 1);
        let (b0, b1) = (eq_bit(p, a, 0), eq_bit(p, a, 1));
        let (c0, c1) = (fmul(p, 1, b0), fmul(p, 1, b1));
        let (d0, d1) = (fmul(p, e, c0), fmul(p, e, c1));
        lemma_eq_bit_line(p, a, 0);
        lemma_cong_ops(p, 1, b0);
        lemma_cong_ops(p, 1, b1);
        lemma_cong_ops(p, e, c0);
        lemma_cong_ops(p, e, c1);
        lemma_cong_ops(p, f0, d0);
        lemma_cong_ops(p, f1, d1);
        lemma_cong_ops(p, fmul(p, f0, d0), fmul(p, f1, d1));
        lemma_cong_ops(p, fa, e);
        let (ei, ai) = (e as int, a as int);
        assert(1 * b0 == b0 && 1 * b1 == b1);
        lemma_cong_mul(p, ei, ei, c0 as int, 1 - ai);
        lemma_cong_mul(p, ei, ei, c1 as int, ai);
        lemma_cong_mul(p, f0 as int, f0 as int, d0 as int, ei * (1 - ai));
        lemma_cong_mul(p, f1 as int, f1 as int, d1 as int, ei * ai);
        lemma_cong_add(
            p,
            fmul(p, f0, d0) as int,
            f0 * (ei * (1 - ai)),
            fmul(p, f1, d1) as int,
            f1 * (ei * ai),
        );
        lemma_cong_mul(p, fa as int, f0 + a * (f1 - f0), ei, ei);
        assert(f0 * (ei * (1 - ai)) + f1 * (ei * ai) == (f0 + ai * (f1 - f0)) * ei)
            by (nonlinear_arith);
        lemma_cong_equal(p, fadd(p, fmul(p, f0, d0), fmul(p, f1, d1)), fmul(p, fa, e));
    }
}

/// The first `k` of the weighted claims: at `x`, the sum of the equalities with the points, each
/// times its weight.
pub open spec fn claims_fn(p: nat, points: Seq<Seq<nat>>, weights: Seq<nat>, k: nat) -> PointFn {
    |x: Seq<nat>| dot_upto(p, weights, equalities(p, points, x), k)
}

/// Weighted claims are multilinear.
pub proof fn lemma_claims_multi_linear(
    p: nat,
    points: Seq<Seq<nat>>,
    weights: Seq<nat>,
    k: nat,
    n: nat,
)
    requires
        p > 1,
        k <= points.len(),
        forall|i: int| 0 <= i < points.len() ==> (#[trigger] points[i]).len() == n,
    ensures
        multi_linear(p, claims_fn(p, points, weights, k), n),
    decreases k,
{
    let g = claims_fn(p, points, weights, k);
    if k > 0 {
        let h = claims_fn(p, points, weights, (k - 1) as nat);
        lemma_claims_multi_linear(p, points, weights, (k - 1) as nat, n);
        let (z, s) = (points[k - 1], weights[k - 1]);
        assert forall|before: Seq<nat>, x: nat, after: Seq<nat>|
            before.len() + 1 + after.len() == n implies #[trigger] line_at(
            p,
            g,
            before,
            x,
            after,
        ) by {
            assert(line_at(p, h, before, x, after));
            lemma_eq_line(p, z, before, x, after);
            let (x0, x1, xx) = (
                before + seq![0nat] + after,
                before + seq![1nat] + after,
                before + seq![x] + after,
            );
            lemma_line_scale(p, s, eq_poly(p, z, x0), eq_poly(p, z, x1), eq_poly(p, z, xx), x);
            lemma_line_add(
                p,
                h(x0),
                h(x1),
                h(xx),
                fmul(p, s, eq_poly(p, z, x0)),
                fmul(p, s, eq_poly(p, z, x1)),
                fmul(p, s, eq_poly(p, z, xx)),
                x,
            );
        }
    } else {
        assert forall|before: Seq<nat>, x: nat, after: Seq<nat>|
            before.len() + 1 + after.len() == n implies #[trigger] line_at(
            p,
            g,
            before,
            x,
            after,
        ) by {
            assert(x * 0 == 0) by (nonlinear_arith);
        }
    }
}

/// Nothing but zeros adds up to zero.
proof fn lemma_cube_zero(p: nat, g: PointFn, v: nat, tail: Seq<nat>)
    requires
        p > 0,
        forall|x: Seq<nat>| #[trigger] g(x) == 0,
    ensures
        cube_sum(p, g, v, tail) == 0,
    decreases v,
{
    if v > 0 {
        lemma_cube_zero(p, g, (v - 1) as nat, seq![0nat] + tail);
        lemma_cube_zero(p, g, (v - 1) as nat, seq![1nat] + tail);
        lemma_residue(p, 0);
    } else {
        assert(g(tail) == 0);
    }
}

/// Summing a multilinear function against weighted claims gives the weighted sum of its values at
/// the points of the claims.
pub proof fn lemma_cube_claims(
    p: nat,
    f: PointFn,
    points: Seq<Seq<nat>>,
    weights: Seq<nat>,
    k: nat,
    n: nat,
)
    requires
        p > 1,
        k <= points.len(),
        multi_linear(p, f, n),
        forall|x: Seq<nat>| x.len() == n ==> #[trigger] f(x) < p,
        forall|i: int| 0 <= i < points.len() ==> (#[trigger] points[i]).len() == n,
    ensures
        cube_sum(p, product(p, f, claims_fn(p, points, weights, k)), n, Seq::empty()) == dot_upto(
            p,
            weights,
            points.map_values(|z: Seq<nat>| f(z)),
            k,
        ),
    decreases k,
{
    let none = Seq::<nat>::empty();
    let g = product(p, f, claims_fn(p, points, weights, k));
    let values = points.map_values(|z: Seq<nat>| f(z));
    if k == 0 {
        assert forall|x: Seq<nat>| #[trigger] g(x) == 0 by {
            assert(f(x) * 0 == 0) by (nonlinear_arith);
            lemma_residue(p, 0);
        }
        lemma_cube_zero(p, g, n, none);
    } else {
        let j = (k - 1) as nat;
        lemma_cube_claims(p, f, points, weights, j, n);
        let (z, s) = (points[k - 1], weights[k - 1]);
        let one = product(p, f, eq_fn(p, z));
        let scaled = |x: Seq<nat>| fmul(p, s, one(x));
        let fewer = product(p, f, claims_fn(p, points, weights, j));
        lemma_cube_reproduces(p, f, z, n, none);
        assert(z.take(n as int) + none =~= z);
        assert(z.skip(n as int) =~= none);
        assert(f(z) * 1 == f(z)) by (nonlinear_arith);
        lemma_residue(p, f(z));
        lemma_cube_scale(p, s, one, scaled, n, none);
        assert forall|x: Seq<nat>| x.len() == n + none.len() implies #[trigger] g(x) == fadd(
            p,
            fewer(x),
            scaled(x),
        ) by {
            let sum = dot_upto(p, weights, equalities(p, points, x), j);
            let e = eq_poly(p, z, x);
            lemma_distribute(p, f(x), sum, fmul(p, s, e));
            lemma_fmul_assoc(p, f(x), s, e);
            lemma_fmul_comm(p, f(x), s);
            lemma_fmul_assoc(p, s, f(x), e);
        }
        lemma_cube_add(p, fewer, scaled, g, n, none);
        assert(values[k - 1] == f(z));
    }
}

} // verus!
