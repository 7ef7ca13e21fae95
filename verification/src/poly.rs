//! Points and polynomials over a prime field.
use crate::field::{
    fadd, fmul, fpow, fsub, lemma_distribute, lemma_fadd_assoc, lemma_fmul_assoc, lemma_fmul_comm,
    lemma_fpow_add, lemma_fpow_one, lemma_reduce, lemma_residue, vals, PrimeField,
};
use vstd::arithmetic::power2::{lemma_pow2_pos, lemma_pow2_unfold, pow2};
use vstd::prelude::*;

verus! {

/// The first `n` powers of `g`, from the zeroth on.
pub open spec fn powers(p: nat, g: nat, n: nat) -> Seq<nat> {
    Seq::new(n, |i: int| fpow(p, g, i as nat))
}

/// The sum of the products of the first `k` pairs.
pub open spec fn dot_upto(p: nat, xs: Seq<nat>, ys: Seq<nat>, k: nat) -> nat
    decreases k,
{
    if k == 0 {
        0
    } else {
        fadd(p, dot_upto(p, xs, ys, (k - 1) as nat), fmul(p, xs[k - 1], ys[k - 1]))
    }
}

/// The sum of the products of `xs` and `ys`, as far as both reach.
pub open spec fn dot(p: nat, xs: Seq<nat>, ys: Seq<nat>) -> nat {
    dot_upto(p, xs, ys, if xs.len() <= ys.len() { xs.len() } else { ys.len() })
}

/// The point whose coordinates are `x` raised to the powers of two below `2^n`, the highest
/// first.
pub open spec fn power_point(p: nat, x: nat, n: nat) -> Seq<nat> {
    Seq::new(n, |i: int| fpow(p, x, pow2((n - 1 - i) as nat)))
}

/// One where `a` and `b` are the same bit: `a * b + (1 - a) * (1 - b)`.
pub open spec fn eq_bit(p: nat, a: nat, b: nat) -> nat {
    fadd(p, fmul(p, a, b), fmul(p, fsub(p, 1, a), fsub(p, 1, b)))
}

/// The product of [`eq_bit`] over the first `k` coordinates.
pub open spec fn eq_upto(p: nat, a: Seq<nat>, b: Seq<nat>, k: nat) -> nat
    decreases k,
{
    if k == 0 {
        1
    } else {
        fmul(p, eq_upto(p, a, b, (k - 1) as nat), eq_bit(p, a[k - 1], b[k - 1]))
    }
}

/// The multilinear extension of equality at `a` and `b`.
pub open spec fn eq_poly(p: nat, a: Seq<nat>, b: Seq<nat>) -> nat {
    eq_upto(p, a, b, a.len())
}

/// The multilinear polynomial with the `2^x.len()` coefficients `c`, at `x`. The first variable
/// belongs to the coefficients of the second half.
pub open spec fn multilinear(p: nat, c: Seq<nat>, x: Seq<nat>) -> nat
    decreases x.len(),
{
    if x.len() == 0 {
        c[0]
    } else {
        let h = (c.len() / 2) as int;
        fadd(
            p,
            multilinear(p, c.take(h), x.drop_first()),
            fmul(p, multilinear(p, c.skip(h), x.drop_first()), x[0]),
        )
    }
}

/// The polynomial in one variable with the coefficients `c`, the constant one first, at `x`.
pub open spec fn univariate(p: nat, c: Seq<nat>, x: nat) -> nat
    decreases c.len(),
{
    if c.len() == 0 {
        0
    } else {
        fadd(p, c[0], fmul(p, x, univariate(p, c.drop_first(), x)))
    }
}

/// Values of polynomials are reduced.
pub proof fn lemma_univariate_bound(p: nat, c: Seq<nat>, x: nat)
    requires
        p > 0,
    ensures
        univariate(p, c, x) < p,
{
    if c.len() > 0 {
        lemma_reduce(p, c[0], fmul(p, x, univariate(p, c.drop_first(), x)));
    }
}

/// A polynomial in one variable is its low part plus a power of the variable times its high part.
pub proof fn lemma_univariate_split(p: nat, c: Seq<nat>, x: nat, h: nat)
    requires
        p > 0,
        h <= c.len(),
    ensures
        univariate(p, c, x) == fadd(
            p,
            univariate(p, c.take(h as int), x),
            fmul(p, fpow(p, x, h), univariate(p, c.skip(h as int), x)),
        ),
    decreases h,
{
    let low = univariate(p, c.take(h as int), x);
    let high = univariate(p, c.skip(h as int), x);
    lemma_univariate_bound(p, c, x);
    if h == 0 {
        assert(c.skip(0) =~= c);
        lemma_reduce(p, 1, high);
        lemma_residue(p, high);
    } else {
        let k = (h - 1) as nat;
        let rest = c.drop_first();
        lemma_univariate_split(p, rest, x, k);
        let low_rest = univariate(p, rest.take(k as int), x);
        assert(c.take(h as int).drop_first() =~= rest.take(k as int));
        assert(rest.skip(k as int) =~= c.skip(h as int));
        let xk = fpow(p, x, k);
        let tail = fmul(p, xk, high);
        // x * (low_rest + x^k * high) == x * low_rest + x^h * high
        lemma_distribute(p, x, low_rest, tail);
        lemma_fmul_assoc(p, x, xk, high);
        lemma_fmul_comm(p, x, xk);
        lemma_fadd_assoc(p, c[0], fmul(p, x, low_rest), fmul(p, fpow(p, x, h), high));
    }
}

/// A multilinear polynomial takes, at the point made of the powers of `x`, the value that the
/// polynomial in one variable with the same coefficients takes at `x`.
pub proof fn law_power_point(p: nat, c: Seq<nat>, x: nat, n: nat)
    requires
        p > 0,
        c.len() == pow2(n),
        forall|i: int| 0 <= i < c.len() ==> c[i] < p,
    ensures
        multilinear(p, c, power_point(p, x, n)) == univariate(p, c, x),
    decreases n,
{
    let point = power_point(p, x, n);
    if n == 0 {
        vstd::arithmetic::power2::lemma2_to64();
        assert(univariate(p, c.drop_first(), x) == 0);
        assert(fmul(p, x, 0) == 0) by {
            assert(x * 0 == 0) by (nonlinear_arith);
        }
        lemma_residue(p, c[0]);
    } else {
        let m = (n - 1) as nat;
        lemma_pow2_unfold(n);
        lemma_pow2_pos(m);
        let h = pow2(m);
        law_power_point(p, c.take(h as int), x, m);
        law_power_point(p, c.skip(h as int), x, m);
        assert(point.drop_first() =~= power_point(p, x, m));
        lemma_univariate_split(p, c, x, h);
        lemma_fmul_comm(p, fpow(p, x, h), univariate(p, c.skip(h as int), x));
    }
}

/// The first `len` powers of `base`.
pub fn expand_randomness<F: PrimeField>(base: F, len: usize) -> (r: Vec<F>)
    ensures
        vals(r@) == powers(F::modulus(), base.val(), len as nat),
{
    let mut r: Vec<F> = Vec::with_capacity(len);
    let mut acc: F = F::one();
    let mut i: usize = 0;
    proof {
        F::lemma_modulus();
        lemma_residue(F::modulus(), 1);
    }
    while i < len
        invariant
            i <= len,
            acc.val() == fpow(F::modulus(), base.val(), i as nat),
            r@.len() == i,
            forall|j: int|
                0 <= j < i ==> (#[trigger] r@[j]).val() == fpow(F::modulus(), base.val(), j as nat),
        decreases len - i,
    {
        r.push(acc);
        acc = acc.times(base);
        i += 1;
    }
    assert(vals(r@) =~= powers(F::modulus(), base.val(), len as nat));
    r
}

/// The sum of the products of `xs` and `ys`, as far as both reach.
pub fn inner_product<F: PrimeField>(xs: &Vec<F>, ys: &Vec<F>) -> (r: F)
    ensures
        r.val() == dot(F::modulus(), vals(xs@), vals(ys@)),
{
    let mut sum: F = F::zero();
    let n: usize = if xs.len() <= ys.len() {
        xs.len()
    } else {
        ys.len()
    };
    let mut i: usize = 0;
    while i < n
        invariant
            i <= n,
            n <= xs@.len(),
            n <= ys@.len(),
            sum.val() == dot_upto(F::modulus(), vals(xs@), vals(ys@), i as nat),
        decreases n - i,
    {
        sum = sum.plus(xs[i].times(ys[i]));
        i += 1;
    }
    sum
}

/// A point with one coordinate for each variable.
#[derive(Debug, Clone)]
pub struct MultilinearPoint<F>(pub Vec<F>);

impl<F: PrimeField> MultilinearPoint<F> {
    /// The coordinates.
    pub open spec fn coords(&self) -> Seq<nat> {
        vals(self.0@)
    }

    /// The point at which a multilinear polynomial takes the value that the polynomial in one
    /// variable with the same coefficients takes at `point`.
    pub fn expand_from_univariate(point: F, num_variables: usize) -> (r: Self)
        ensures
            r.coords() == power_point(F::modulus(), point.val(), num_variables as nat),
    {
        let mut squares: Vec<F> = Vec::with_capacity(num_variables);
        let mut cur: F = point;
        let mut i: usize = 0;
        proof {
            F::lemma_modulus();
            point.lemma_val();
            let p = F::modulus();
            vstd::arithmetic::power2::lemma2_to64();
            lemma_fpow_one(p, point.val());
        }
        while i < num_variables
            invariant
                i <= num_variables,
                squares@.len() == i,
                F::modulus() > 0,
                cur.val() == fpow(F::modulus(), point.val(), pow2(i as nat)),
                forall|j: int|
                    0 <= j < i ==> (#[trigger] squares@[j]).val() == fpow(
                        F::modulus(),
                        point.val(),
                        pow2(j as nat),
                    ),
            decreases num_variables - i,
        {
            squares.push(cur);
            proof {
                lemma_pow2_unfold((i + 1) as nat);
                lemma_fpow_add(F::modulus(), point.val(), pow2(i as nat), pow2(i as nat));
            }
            cur = cur.times(cur);
            i += 1;
        }
        let mut coords: Vec<F> = Vec::with_capacity(num_variables);
        while i > 0
            invariant
                i <= num_variables,
                squares@.len() == num_variables,
                coords@.len() == num_variables - i,
                forall|j: int|
                    0 <= j < num_variables ==> (#[trigger] squares@[j]).val() == fpow(
                        F::modulus(),
                        point.val(),
                        pow2(j as nat),
                    ),
                forall|j: int|
                    0 <= j < coords@.len() ==> #[trigger] coords@[j] == squares@[num_variables - 1
                        - j],
            decreases i,
        {
            i -= 1;
            coords.push(squares[i]);
        }
        assert(vals(coords@) =~= power_point(F::modulus(), point.val(), num_variables as nat));
        MultilinearPoint(coords)
    }
}

/// The multilinear extension of equality at `coords` and `point`.
pub fn eq_poly_outside<F: PrimeField>(
    coords: &MultilinearPoint<F>,
    point: &MultilinearPoint<F>,
) -> (r: F)
    requires
        coords.0@.len() == point.0@.len(),
    ensures
        r.val() == eq_poly(F::modulus(), coords.coords(), point.coords()),
{
    let mut acc: F = F::one();
    let one: F = F::one();
    let mut i: usize = 0;
    while i < coords.0.len()
        invariant
            i <= coords.0@.len(),
            coords.0@.len() == point.0@.len(),
            one.val() == 1,
            acc.val() == eq_upto(F::modulus(), coords.coords(), point.coords(), i as nat),
        decreases coords.0@.len() - i,
    {
        let l: F = coords.0[i];
        let r: F = point.0[i];
        acc = acc.times(l.times(r).plus(one.minus(l).times(one.minus(r))));
        i += 1;
    }
    acc
}

/// The value of the polynomial with the coefficients from `from` on, as many as the variables
/// from `var` on call for.
fn evaluate_part<F: PrimeField>(
    coeffs: &Vec<F>,
    from: usize,
    count: usize,
    point: &Vec<F>,
    var: usize,
) -> (r: F)
    requires
        var <= point@.len(),
        count == pow2((point@.len() - var) as nat),
        from + count <= coeffs@.len(),
    ensures
        r.val() == multilinear(
            F::modulus(),
            vals(coeffs@).subrange(from as int, from + count),
            vals(point@).skip(var as int),
        ),
    decreases point@.len() - var,
{
    let ghost c = vals(coeffs@).subrange(from as int, from + count);
    let ghost x = vals(point@).skip(var as int);
    proof {
        lemma_pow2_pos((point@.len() - var) as nat);
    }
    if var == point.len() {
        proof {
            vstd::arithmetic::power2::lemma2_to64();
        }
        coeffs[from]
    } else {
        let h: usize = count / 2;
        let all: usize = coeffs.len();
        proof {
            assert(from + h <= all);
            lemma_pow2_unfold((point@.len() - var) as nat);
            assert(c.take(h as int) =~= vals(coeffs@).subrange(from as int, from + h));
            assert(c.skip(h as int) =~= vals(coeffs@).subrange(from + h, from + h + h));
            assert(x.drop_first() =~= vals(point@).skip(var + 1));
        }
        let low = evaluate_part(coeffs, from, h, point, var + 1);
        let high = evaluate_part(coeffs, from + h, h, point, var + 1);
        low.plus(high.times(point[var]))
    }
}

/// The coefficients of a multilinear polynomial, which are as well those of a polynomial in one
/// variable.
pub struct CoefficientList<F> {
    pub coeffs: Vec<F>,
}

impl<F: PrimeField> CoefficientList<F> {
    /// The coefficients.
    pub open spec fn list(&self) -> Seq<nat> {
        vals(self.coeffs@)
    }

    pub fn new(coeffs: Vec<F>) -> (r: Self)
        ensures
            r.coeffs == coeffs,
    {
        CoefficientList { coeffs }
    }

    /// The value of the multilinear polynomial at `point`.
    pub fn evaluate(&self, point: &MultilinearPoint<F>) -> (r: F)
        requires
            self.coeffs@.len() == pow2(point.0@.len()),
        ensures
            r.val() == multilinear(F::modulus(), self.list(), point.coords()),
    {
        let r = evaluate_part(&self.coeffs, 0, self.coeffs.len(), &point.0, 0);
        assert(self.list().subrange(0, self.coeffs@.len() as int) =~= self.list());
        assert(point.coords().skip(0) =~= point.coords());
        r
    }

    /// The value of the polynomial in one variable at `x`.
    fn evaluate_one(&self, x: F) -> (r: F)
        ensures
            r.val() == univariate(F::modulus(), self.list(), x.val()),
    {
        let mut acc: F = F::zero();
        let mut i: usize = self.coeffs.len();
        assert(self.list().skip(i as int) =~= Seq::<nat>::empty());
        while i > 0
            invariant
                i <= self.coeffs@.len(),
                acc.val() == univariate(F::modulus(), self.list().skip(i as int), x.val()),
            decreases i,
        {
            i -= 1;
            acc = self.coeffs[i].plus(x.times(acc));
            assert(self.list().skip(i as int).drop_first() =~= self.list().skip(i + 1));
        }
        assert(self.list().skip(0) =~= self.list());
        acc
    }

    /// The values of the polynomial in one variable at `points`.
    pub fn evaluate_at_univariate(&self, points: &Vec<F>) -> (r: Vec<F>)
        ensures
            vals(r@) == vals(points@).map_values(
                |x: nat| univariate(F::modulus(), self.list(), x),
            ),
    {
        let mut r: Vec<F> = Vec::with_capacity(points.len());
        let mut i: usize = 0;
        while i < points.len()
            invariant
                i <= points@.len(),
                r@.len() == i,
                forall|j: int|
                    0 <= j < i ==> (#[trigger] r@[j]).val() == univariate(
                        F::modulus(),
                        self.list(),
                        points@[j].val(),
                    ),
            decreases points@.len() - i,
        {
            r.push(self.evaluate_one(points[i]));
            i += 1;
        }
        assert(vals(r@) =~= vals(points@).map_values(
            |x: nat| univariate(F::modulus(), self.list(), x),
        ));
        r
    }
}

} // verus!
