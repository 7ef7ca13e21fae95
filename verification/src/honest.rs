//! Completeness: the messages of a prover that follows the protocol are accepted.
use crate::cube::{
    claims_fn, coefficient_fn, cube_sum, fixed, lemma_claims_multi_linear, lemma_coefficient_fn,
    lemma_cube_add, lemma_cube_claims, lemma_cube_equal, lemma_cube_fixed, lemma_cube_quadratic,
    lemma_fixed_multi_linear, lemma_line_add, lemma_multilinear_bound, line_at, multi_linear,
    product, PointFn,
};
use crate::evm_merkle::MerkleOpening;
use crate::field::{
    fadd, fmul, fpow, lemma_distribute, lemma_fmul_comm, lemma_fpow_add, lemma_fpow_mul,
    PrimeField,
};
use crate::fold::{
    coset_values, fold_all, law_fold_is_evaluation, law_fold_of_values, lemma_fold_all,
    lemma_inverse_power,
};
use crate::parameters::{FoldType, WhirConfig};
use crate::poly::{dot, dot_upto, law_power_point, multilinear, univariate};
use crate::protocol::{
    agrees, chained_randomness, claim_after, claim_after_rounds, equalities, points_at,
    power_points, reversed_challenges, round_claim, round_holds, rounds_hold, rounds_randomness,
    rounds_weight, sumcheck_holds, Commitment, Messages, Round,
};
use crate::sumcheck::Quadratic;
use crate::transcript::{Grinding, PowStrategy};
use vstd::arithmetic::power2::{lemma_pow2_adds, lemma_pow2_pos, lemma_pow2_unfold, pow2};
use vstd::prelude::*;

verus! {

/// Polynomial `i` of a sumcheck holds the sums of `g` over the remaining bits, with the next
/// coordinate at 0, 1 and 2, the earlier challenges after it, and `tail` at the end.
pub open spec fn honest_polynomial(
    p: nat,
    g: PointFn,
    v: nat,
    tail: Seq<nat>,
    sumcheck: Seq<(Quadratic, nat)>,
    i: int,
) -> bool {
    let t = reversed_challenges(sumcheck.take(i)) + tail;
    let u = (v - 1 - i) as nat;
    sumcheck[i].0 == Quadratic {
        at_zero: cube_sum(p, g, u, seq![0nat] + t),
        at_one: cube_sum(p, g, u, seq![1nat] + t),
        at_two: cube_sum(p, g, u, seq![2nat] + t),
    }
}

/// The polynomials of a sumcheck are those for the sum of `g` over `v` bits with `tail` at the
/// end.
pub open spec fn honest_sumcheck(
    p: nat,
    g: PointFn,
    v: nat,
    tail: Seq<nat>,
    sumcheck: Seq<(Quadratic, nat)>,
) -> bool {
    forall|i: int|
        0 <= i < sumcheck.len() ==> #[trigger] honest_polynomial(p, g, v, tail, sumcheck, i)
}

/// A sumcheck for a product of multilinear functions holds, and leaves the sum over the bits that
/// remain.
pub proof fn law_sumcheck_complete(
    p: nat,
    f: PointFn,
    w: PointFn,
    v: nat,
    tail: Seq<nat>,
    sumcheck: Seq<(Quadratic, nat)>,
)
    requires
        p > 2,
        p % 2 == 1,
        multi_linear(p, f, v + tail.len()),
        multi_linear(p, w, v + tail.len()),
        sumcheck.len() <= v,
        honest_sumcheck(p, product(p, f, w), v, tail, sumcheck),
    ensures
        ({
            let claim = cube_sum(p, product(p, f, w), v, tail);
            &&& sumcheck_holds(p, claim, sumcheck)
            &&& claim_after(p, claim, sumcheck, sumcheck.len() as int) == cube_sum(
                p,
                product(p, f, w),
                (v - sumcheck.len()) as nat,
                reversed_challenges(sumcheck) + tail,
            )
        }),
{
    let g = product(p, f, w);
    let claim = cube_sum(p, g, v, tail);
    assert forall|i: int| 0 <= i <= sumcheck.len() implies #[trigger] claim_after(
        p,
        claim,
        sumcheck,
        i,
    ) == cube_sum(p, g, (v - i) as nat, reversed_challenges(sumcheck.take(i)) + tail) by {
        if i == 0 {
            assert(reversed_challenges(sumcheck.take(0)) + tail =~= tail);
        } else {
            let r = sumcheck[i - 1].1;
            let t = reversed_challenges(sumcheck.take(i - 1)) + tail;
            let none = Seq::<nat>::empty();
            assert(honest_polynomial(p, g, v, tail, sumcheck, i - 1));
            lemma_cube_quadratic(p, f, w, (v - i) as nat, none, r, t);
            assert(none + seq![0nat] + t =~= seq![0nat] + t);
            assert(none + seq![1nat] + t =~= seq![1nat] + t);
            assert(none + seq![2nat] + t =~= seq![2nat] + t);
            assert(none + seq![r] + t =~= reversed_challenges(sumcheck.take(i)) + tail);
        }
    }
    assert forall|i: int| 0 <= i < sumcheck.len() implies (#[trigger] sumcheck[i]).0.sum(p)
        == claim_after(p, claim, sumcheck, i) by {
        assert(honest_polynomial(p, g, v, tail, sumcheck, i));
    }
    let n = sumcheck.len() as int;
    assert(claim_after(p, claim, sumcheck, n) == cube_sum(
        p,
        g,
        (v - n) as nat,
        reversed_challenges(sumcheck.take(n)) + tail,
    ));
    assert(sumcheck.take(n) =~= sumcheck);
}

/// The order of the factors does not matter.
proof fn lemma_dot_comm(p: nat, xs: Seq<nat>, ys: Seq<nat>, k: nat)
    ensures
        dot_upto(p, xs, ys, k) == dot_upto(p, ys, xs, k),
    decreases k,
{
    if k > 0 {
        lemma_dot_comm(p, xs, ys, (k - 1) as nat);
        lemma_fmul_comm(p, xs[k - 1], ys[k - 1]);
    }
}

/// The values at `points` of the polynomial in one variable with the coefficients `c`.
pub open spec fn univariate_values(p: nat, c: Seq<nat>, points: Seq<nat>) -> Seq<nat> {
    points.map_values(|x: nat| univariate(p, c, x))
}

impl<F: PrimeField, C, S: PowStrategy> WhirConfig<F, C, S> {
    /// How many variables are left after `i` foldings.
    pub open spec fn vars_after(&self, i: nat) -> nat {
        (self.mv_parameters.num_variables - self.folding_factor * i) as nat
    }

    /// The randomness of folding `i`.
    pub open spec fn folding(&self, m: Messages, i: nat) -> Seq<nat> {
        if i < m.rounds.len() {
            m.rounds[i as int].folding_randomness
        } else {
            m.final_folding_randomness
        }
    }

    /// The polynomial after `i` foldings, of the one with the coefficients `c`.
    pub open spec fn polynomial_after(&self, c: Seq<nat>, m: Messages, i: nat) -> Seq<nat>
        decreases i,
    {
        if i == 0 {
            c
        } else {
            fold_all(
                F::modulus(),
                self.polynomial_after(c, m, (i - 1) as nat),
                self.folding(m, (i - 1) as nat),
            )
        }
    }

    /// The points of the claims that round `i` adds.
    pub open spec fn round_points(&self, m: Messages, i: nat) -> Seq<Seq<nat>> {
        let round = m.rounds[i as int];
        power_points(
            F::modulus(),
            round.ood_points + round.stir_challenges_points,
            self.vars_after(i + 1),
        )
    }

    /// The weights that the claims put on the polynomial after `i` foldings, at `x`. The first
    /// claims are about `points`.
    pub open spec fn weight_after(
        &self,
        points: Seq<Seq<nat>>,
        m: Messages,
        i: nat,
        x: Seq<nat>,
    ) -> nat
        decreases i,
    {
        let p = F::modulus();
        if i == 0 {
            claims_fn(p, points, m.initial_combination_randomness, points.len())(x)
        } else {
            let j = (i - 1) as nat;
            let added = self.round_points(m, j);
            fadd(
                p,
                self.weight_after(points, m, j, x + self.folding(m, j)),
                claims_fn(p, added, m.rounds[j as int].combination_randomness, added.len())(x),
            )
        }
    }

    /// The same as a function of the point.
    pub open spec fn weight_fn(&self, points: Seq<Seq<nat>>, m: Messages, i: nat) -> PointFn {
        |x: Seq<nat>| self.weight_after(points, m, i, x)
    }

    /// What the sumcheck after folding `i` sums: the polynomial times the weights.
    pub open spec fn summand(
        &self,
        c: Seq<nat>,
        points: Seq<Seq<nat>>,
        m: Messages,
        i: nat,
    ) -> PointFn {
        product(
            F::modulus(),
            coefficient_fn(F::modulus(), self.polynomial_after(c, m, i)),
            self.weight_fn(points, m, i),
        )
    }

    /// The generator of the domain in round `r`.
    pub open spec fn gen(&self, r: nat) -> nat {
        fpow(F::modulus(), self.starting_domain.group_gen.val(), pow2(r))
    }

    /// The values of the polynomial with the coefficients `c` on the coset `index` of the domain of
    /// round `r`.
    pub open spec fn coset(&self, c: Seq<nat>, r: nat, index: usize) -> Seq<nat> {
        let p = F::modulus();
        coset_values(
            p,
            c,
            fpow(p, self.gen(r), index as nat),
            fpow(p, self.gen(r), self.folded_size(r)),
            self.coset_size(),
        )
    }

    /// The answer to the query at `index` in round `r`, for the polynomial with the coefficients
    /// `c`: its values on the coset, or the coefficients that give these values.
    pub open spec fn honest_answer(
        &self,
        c: Seq<nat>,
        r: nat,
        index: usize,
        answer: Seq<nat>,
    ) -> bool {
        match self.fold_optimisation {
            FoldType::Naive => answer == self.coset(c, r, index),
            FoldType::ProverHelps => {
                &&& answer.len() == self.coset_size()
                &&& forall|j: int| 0 <= j < answer.len() ==> answer[j] < F::modulus()
                &&& self.coset(answer, r, index) == self.coset(c, r, index)
            },
        }
    }

    /// There is an answer to every query, and it is the right one.
    pub open spec fn honest_answers(
        &self,
        c: Seq<nat>,
        r: nat,
        indexes: Seq<usize>,
        answers: Seq<Seq<nat>>,
    ) -> bool {
        &&& answers.len() == indexes.len()
        &&& forall|i: int|
            0 <= i < answers.len() ==> self.honest_answer(c, r, indexes[i], #[trigger] answers[i])
    }

    /// The messages of round `r` are those of a prover that committed to the coefficients `c`.
    pub open spec fn honest_round(
        &self,
        c: Seq<nat>,
        points: Seq<Seq<nat>>,
        m: Messages,
        r: nat,
    ) -> bool {
        let p = F::modulus();
        let round = m.rounds[r as int];
        &&& round.ood_answers == univariate_values(
            p,
            self.polynomial_after(c, m, r + 1),
            round.ood_points,
        )
        &&& self.honest_answers(
            self.polynomial_after(c, m, r),
            r,
            round.stir_challenges_indexes,
            round.stir_challenges_answers,
        )
        &&& honest_sumcheck(
            p,
            self.summand(c, points, m, r + 1),
            self.vars_after(r + 1),
            Seq::empty(),
            round.sumcheck_rounds,
        )
    }

    /// The points of the first claims: those of the commitment, and those of the statement.
    pub open spec fn first_points(&self, com: Commitment, points: Seq<Seq<nat>>) -> Seq<Seq<nat>> {
        power_points(F::modulus(), com.ood_points, self.mv_parameters.num_variables as nat) + points
    }

    /// The commitment, the statement and the messages are those of a prover that committed to the
    /// coefficients `c` and claims true values at `points`.
    pub open spec fn honest(
        &self,
        c: Seq<nat>,
        com: Commitment,
        points: Seq<Seq<nat>>,
        values: Seq<nat>,
        m: Messages,
    ) -> bool {
        let p = F::modulus();
        let all = self.first_points(com, points);
        let n = self.rounds();
        &&& c.len() == pow2(self.mv_parameters.num_variables as nat)
        &&& forall|i: int| 0 <= i < c.len() ==> c[i] < p
        &&& com.ood_answers == univariate_values(p, c, com.ood_points)
        &&& values == points.map_values(|x: Seq<nat>| multilinear(p, c, x))
        &&& honest_sumcheck(
            p,
            self.summand(c, all, m, 0),
            self.mv_parameters.num_variables as nat,
            Seq::empty(),
            m.initial_sumcheck_rounds,
        )
        &&& forall|r: nat| r < n ==> #[trigger] self.honest_round(c, all, m, r)
        &&& m.final_coefficients == self.polynomial_after(c, m, n + 1)
        &&& self.honest_answers(
            self.polynomial_after(c, m, n),
            n,
            m.final_randomness_indexes,
            m.final_randomness_answers,
        )
        &&& honest_sumcheck(
            p,
            self.summand(c, all, m, n),
            self.final_sumcheck_rounds as nat,
            m.final_folding_randomness,
            m.final_sumcheck_rounds,
        )
    }

    /// The generator of the starting domain has the size of the domain as its order, and the
    /// domain can be halved and cut into cosets as often as the rounds ask for.
    pub open spec fn smooth_domain(&self) -> bool {
        let p = F::modulus();
        let d = self.starting_domain;
        &&& d.size as nat % pow2(self.rounds() + self.folding_factor as nat) == 0
        &&& d.size > 0
        &&& fpow(p, d.group_gen.val(), (d.size / 2) as nat) == p - 1
        &&& fmul(p, d.group_gen.val(), d.group_gen_inv.val()) == 1
    }

    /// The foldings leave as many variables as the final polynomial has.
    proof fn lemma_vars(&self, i: nat)
        requires
            self.wf(),
            i <= self.rounds() + 1,
        ensures
            self.folding_factor * i + self.vars_after(i) == self.mv_parameters.num_variables,
            self.vars_after(i) >= self.final_sumcheck_rounds,
            i <= self.rounds() ==> self.vars_after(i) == self.vars_after(i + 1)
                + self.folding_factor,
            self.vars_after(self.rounds() + 1) == self.final_sumcheck_rounds,
            self.vars_after(0) == self.mv_parameters.num_variables,
    {
        let k = self.folding_factor as int;
        let n = self.rounds() + 1;
        assert(k * i <= k * n) by (nonlinear_arith)
            requires
                i <= n,
                k >= 0,
        ;
        assert(k * (i + 1) == k * i + k) by (nonlinear_arith);
        assert(k * 0 == 0) by (nonlinear_arith);
        if i <= self.rounds() {
            assert(k * (i + 1) <= k * n) by (nonlinear_arith)
                requires
                    i + 1 <= n,
                    k >= 0,
            ;
        }
    }

    /// The folding randomness has a coordinate for each folded variable.
    proof fn lemma_folding_len(&self, m: Messages, i: nat)
        requires
            self.shaped(m),
            i <= self.rounds(),
        ensures
            self.folding(m, i).len() == self.folding_factor,
    {
        if i < m.rounds.len() {
            assert(self.round_shaped(m.rounds[i as int], i));
        }
    }

    /// The polynomials have a coefficient for each vertex of the hypercube, all of them reduced.
    pub proof fn lemma_polynomial_after(&self, c: Seq<nat>, m: Messages, i: nat)
        requires
            self.wf(),
            self.shaped(m),
            i <= self.rounds() + 1,
            c.len() == pow2(self.mv_parameters.num_variables as nat),
            forall|j: int| 0 <= j < c.len() ==> c[j] < F::modulus(),
        ensures
            self.polynomial_after(c, m, i).len() == pow2(self.vars_after(i)),
            forall|j: int|
                0 <= j < self.polynomial_after(c, m, i).len() ==> self.polynomial_after(c, m, i)[j]
                    < F::modulus(),
        decreases i,
    {
        F::lemma_modulus();
        self.lemma_vars(i);
        if i > 0 {
            let j = (i - 1) as nat;
            self.lemma_vars(j);
            self.lemma_polynomial_after(c, m, j);
            self.lemma_folding_len(m, j);
            lemma_fold_all(
                F::modulus(),
                self.polynomial_after(c, m, j),
                self.vars_after(i),
                self.folding(m, j),
            );
        }
    }

    /// Fixing the last coordinates of a polynomial at the folding randomness folds it.
    proof fn lemma_polynomial_step(&self, c: Seq<nat>, m: Messages, i: nat, x: Seq<nat>)
        requires
            self.wf(),
            self.shaped(m),
            i <= self.rounds(),
            c.len() == pow2(self.mv_parameters.num_variables as nat),
            forall|j: int| 0 <= j < c.len() ==> c[j] < F::modulus(),
            x.len() == self.vars_after(i + 1),
        ensures
            multilinear(F::modulus(), self.polynomial_after(c, m, i + 1), x) == multilinear(
                F::modulus(),
                self.polynomial_after(c, m, i),
                x + self.folding(m, i),
            ),
    {
        F::lemma_modulus();
        self.lemma_vars(i);
        self.lemma_polynomial_after(c, m, i);
        self.lemma_folding_len(m, i);
        lemma_fold_all(
            F::modulus(),
            self.polynomial_after(c, m, i),
            self.vars_after(i + 1),
            self.folding(m, i),
        );
    }

    /// The weights are multilinear.
    proof fn lemma_weights_multi_linear(&self, points: Seq<Seq<nat>>, m: Messages, i: nat)
        requires
            self.wf(),
            self.shaped(m),
            i <= self.rounds(),
            forall|j: int|
                0 <= j < points.len() ==> (#[trigger] points[j]).len()
                    == self.mv_parameters.num_variables,
        ensures
            multi_linear(F::modulus(), self.weight_fn(points, m, i), self.vars_after(i)),
        decreases i,
    {
        let p = F::modulus();
        F::lemma_modulus();
        self.lemma_vars(i);
        let g = self.weight_fn(points, m, i);
        let n = self.vars_after(i);
        if i == 0 {
            let h = claims_fn(p, points, m.initial_combination_randomness, points.len());
            lemma_claims_multi_linear(
                p,
                points,
                m.initial_combination_randomness,
                points.len(),
                n,
            );
            assert forall|before: Seq<nat>, x: nat, after: Seq<nat>|
                before.len() + 1 + after.len() == n implies #[trigger] line_at(
                p,
                g,
                before,
                x,
                after,
            ) by {
                assert(line_at(p, h, before, x, after));
            }
        } else {
            let j = (i - 1) as nat;
            self.lemma_vars(j);
            self.lemma_folding_len(m, j);
            self.lemma_weights_multi_linear(points, m, j);
            let added = self.round_points(m, j);
            let weights = m.rounds[j as int].combination_randomness;
            let (h1, h2) = (
                fixed(self.weight_fn(points, m, j), self.folding(m, j)),
                claims_fn(p, added, weights, added.len()),
            );
            lemma_fixed_multi_linear(p, self.weight_fn(points, m, j), self.folding(m, j), n);
            lemma_claims_multi_linear(p, added, weights, added.len(), n);
            assert forall|before: Seq<nat>, x: nat, after: Seq<nat>|
                before.len() + 1 + after.len() == n implies #[trigger] line_at(
                p,
                g,
                before,
                x,
                after,
            ) by {
                assert(line_at(p, h1, before, x, after));
                assert(line_at(p, h2, before, x, after));
                let (x0, x1, xx) = (
                    before + seq![0nat] + after,
                    before + seq![1nat] + after,
                    before + seq![x] + after,
                );
                lemma_line_add(p, h1(x0), h1(x1), h1(xx), h2(x0), h2(x1), h2(xx), x);
            }
        }
    }

    /// The cosets of round `r` cover its domain.
    proof fn lemma_folded_size(&self, r: nat)
        requires
            self.smooth_domain(),
            r <= self.rounds(),
        ensures
            self.starting_domain.size == self.folded_size(r) * pow2(r + self.folding_factor as nat),
    {
        let k = self.folding_factor as nat;
        let size = self.starting_domain.size as nat;
        let (whole, part, rest) = (
            pow2(self.rounds() + k),
            pow2(r + k),
            pow2((self.rounds() - r) as nat),
        );
        lemma_pow2_adds(r + k, (self.rounds() - r) as nat);
        lemma_pow2_adds(r, k);
        lemma_pow2_pos(r);
        lemma_pow2_pos(k);
        lemma_pow2_pos(r + k);
        lemma_pow2_pos(self.rounds() + k);
        let q = size / whole;
        vstd::arithmetic::div_mod::lemma_fundamental_div_mod(size as int, whole as int);
        assert(size == (q * rest) * part) by (nonlinear_arith)
            requires
                size == whole * q,
                whole == part * rest,
        ;
        vstd::arithmetic::div_mod::lemma_div_by_multiple((q * rest) as int, part as int);
        vstd::arithmetic::div_mod::lemma_div_denominator(
            size as int,
            pow2(r) as int,
            pow2(k) as int,
        );
        assert(self.folded_size(r) == q * rest);
    }

    /// The points of a coset are inverse to the points with which its values are folded, and the
    /// middle power of the coset's generator is minus one.
    pub proof fn lemma_coset_inverses(&self, r: nat, index: usize)
        requires
            self.wf(),
            self.smooth_domain(),
            r <= self.rounds(),
        ensures
            ({
                let p = F::modulus();
                let gen = fpow(p, self.gen(r), self.folded_size(r));
                &&& fmul(
                    p,
                    fpow(p, self.gen(r), index as nat),
                    fpow(p, self.gen_inv(r), index as nat),
                ) == 1
                &&& fmul(p, gen, fpow(p, self.gen_inv(r), self.folded_size(r))) == 1
                &&& fpow(p, gen, pow2((self.folding_factor - 1) as nat)) == p - 1
                &&& fpow(p, fpow(p, self.gen(r), index as nat), self.coset_size()) == fpow(
                    p,
                    self.folded_gen(r),
                    index as nat,
                )
            }),
    {
        let p = F::modulus();
        F::lemma_modulus();
        let d = self.starting_domain;
        let (g, g_inv) = (d.group_gen.val(), d.group_gen_inv.val());
        let k = self.folding_factor as nat;
        let s = self.folded_size(r);
        let i = index as nat;
        lemma_inverse_power(p, g, g_inv, pow2(r));
        lemma_inverse_power(p, self.gen(r), self.gen_inv(r), i);
        lemma_inverse_power(p, self.gen(r), self.gen_inv(r), s);
        self.lemma_folded_size(r);
        let half_coset = pow2((k - 1) as nat);
        lemma_pow2_unfold(k);
        lemma_pow2_adds(r, k);
        lemma_fpow_mul(p, g, pow2(r), s);
        lemma_fpow_mul(p, g, pow2(r) * s, half_coset);
        let half_size = (pow2(r) * s) * half_coset;
        assert(d.size == 2 * half_size) by (nonlinear_arith)
            requires
                d.size == s * (pow2(r) * pow2(k)),
                pow2(k) == 2 * half_coset,
                half_size == (pow2(r) * s) * half_coset,
        ;
        lemma_fpow_mul(p, g, pow2(r), i);
        lemma_fpow_mul(p, g, pow2(r) * i, pow2(k));
        lemma_fpow_mul(p, g, pow2(k + r), i);
        assert((pow2(r) * i) * pow2(k) == (pow2(r) * pow2(k)) * i) by (nonlinear_arith);
    }

    /// The points of a coset are as many as a folding takes together: the power of the coset's
    /// generator with that exponent is one.
    pub proof fn law_coset_generator(&self, r: nat)
        requires
            self.wf(),
            self.smooth_domain(),
            r <= self.rounds(),
        ensures
            fpow(
                F::modulus(),
                fpow(F::modulus(), self.gen(r), self.folded_size(r)),
                self.coset_size(),
            ) == 1,
    {
        let p = F::modulus();
        F::lemma_modulus();
        let gen = fpow(p, self.gen(r), self.folded_size(r));
        let half_coset = pow2((self.folding_factor - 1) as nat);
        self.lemma_coset_inverses(r, 0);
        lemma_pow2_unfold(self.folding_factor as nat);
        lemma_fpow_add(p, gen, half_coset, half_coset);
        let minus = (p - 1) as nat;
        assert(minus * minus == p * (p - 2) + 1) by (nonlinear_arith)
            requires
                minus == p - 1,
        ;
        vstd::arithmetic::div_mod::lemma_mod_multiples_vanish(p - 2, 1, p as int);
        vstd::arithmetic::div_mod::lemma_small_mod(1, p);
    }

    /// Folding the right answers gives the values of the folded polynomial at the queried points.
    proof fn lemma_honest_folds(
        &self,
        c: Seq<nat>,
        n: nat,
        r: nat,
        indexes: Seq<usize>,
        answers: Seq<Seq<nat>>,
        randomness: Seq<nat>,
    )
        requires
            self.wf(),
            self.smooth_domain(),
            r <= self.rounds(),
            randomness.len() == self.folding_factor,
            c.len() == pow2(n + randomness.len()),
            self.honest_answers(c, r, indexes, answers),
        ensures
            self.foldable(indexes, answers),
            self.folds(indexes, answers, randomness, self.gen_inv(r), self.folded_size(r))
                == univariate_values(
                F::modulus(),
                fold_all(F::modulus(), c, randomness),
                points_at(F::modulus(), self.folded_gen(r), indexes),
            ),
    {
        let p = F::modulus();
        F::lemma_modulus();
        let (gen, gen_inv, s) = (self.gen(r), self.gen_inv(r), self.folded_size(r));
        let folds = self.folds(indexes, answers, randomness, gen_inv, s);
        let want = univariate_values(
            p,
            fold_all(p, c, randomness),
            points_at(p, self.folded_gen(r), indexes),
        );
        assert forall|i: int| 0 <= i < folds.len() implies folds[i] == want[i] by {
            let x = indexes[i] as nat;
            assert(self.honest_answer(c, r, indexes[i], answers[i]));
            self.lemma_coset_inverses(r, indexes[i]);
            law_fold_of_values(
                p,
                c,
                randomness,
                fpow(p, gen, x),
                fpow(p, gen_inv, x),
                fpow(p, gen, s),
                fpow(p, gen_inv, s),
                n,
            );
            match self.fold_optimisation {
                FoldType::Naive => {},
                FoldType::ProverHelps => {
                    law_fold_is_evaluation(
                        p,
                        answers[i],
                        randomness,
                        fpow(p, gen, x),
                        fpow(p, gen_inv, x),
                        fpow(p, gen, s),
                        fpow(p, gen_inv, s),
                    );
                },
            }
        }
        assert(folds =~= want);
        assert forall|i: int| 0 <= i < answers.len() implies (#[trigger] answers[i]).len()
            == self.coset_size() by {
            assert(self.honest_answer(c, r, indexes[i], answers[i]));
        }
    }

    /// The values of a polynomial at points of one variable are its values at the points over
    /// several variables that stand for them.
    proof fn lemma_values_at_powers(&self, c: Seq<nat>, n: nat, xs: Seq<nat>)
        requires
            c.len() == pow2(n),
            forall|i: int| 0 <= i < c.len() ==> c[i] < F::modulus(),
        ensures
            univariate_values(F::modulus(), c, xs) == power_points(F::modulus(), xs, n).map_values(
                |z: Seq<nat>| coefficient_fn(F::modulus(), c)(z),
            ),
    {
        let p = F::modulus();
        F::lemma_modulus();
        let want = power_points(p, xs, n).map_values(|z: Seq<nat>| coefficient_fn(p, c)(z));
        assert forall|i: int| 0 <= i < xs.len() implies univariate_values(p, c, xs)[i]
            == want[i] by {
            law_power_point(p, c, xs[i], n);
        }
        assert(univariate_values(p, c, xs) =~= want);
    }

    /// The claims that a round adds, with what the last sumcheck left, make the sum that the next
    /// sumcheck is about.
    proof fn lemma_round_claim(
        &self,
        c: Seq<nat>,
        points: Seq<Seq<nat>>,
        m: Messages,
        i: nat,
        folds: Seq<nat>,
    )
        requires
            self.wf(),
            self.shaped(m),
            i < self.rounds(),
            c.len() == pow2(self.mv_parameters.num_variables as nat),
            forall|j: int| 0 <= j < c.len() ==> c[j] < F::modulus(),
            self.honest_round(c, points, m, i),
            folds == univariate_values(
                F::modulus(),
                self.polynomial_after(c, m, i + 1),
                m.rounds[i as int].stir_challenges_points,
            ),
        ensures
            round_claim(
                F::modulus(),
                cube_sum(
                    F::modulus(),
                    self.summand(c, points, m, i),
                    self.vars_after(i + 1),
                    self.folding(m, i),
                ),
                m.rounds[i as int],
                folds,
            ) == cube_sum(
                F::modulus(),
                self.summand(c, points, m, i + 1),
                self.vars_after(i + 1),
                Seq::empty(),
            ),
    {
        let p = F::modulus();
        F::lemma_modulus();
        let none = Seq::<nat>::empty();
        let v = self.vars_after(i + 1);
        let round = m.rounds[i as int];
        let fr = self.folding(m, i);
        let g = self.summand(c, points, m, i);
        let next = self.summand(c, points, m, i + 1);
        let poly = self.polynomial_after(c, m, i + 1);
        let f = coefficient_fn(p, poly);
        let added = self.round_points(m, i);
        let weights = round.combination_randomness;
        let claims = claims_fn(p, added, weights, added.len());
        let (old_part, new_part) = (fixed(g, fr), product(p, f, claims));
        assert(self.round_shaped(round, i));
        self.lemma_polynomial_after(c, m, i + 1);
        lemma_coefficient_fn(p, poly, v);
        assert forall|x: Seq<nat>| x.len() == v implies #[trigger] f(x) < p by {
            lemma_multilinear_bound(p, poly, x);
        }
        lemma_cube_claims(p, f, added, weights, added.len(), v);
        lemma_cube_fixed(p, g, fr, v, none);
        assert(none + fr =~= fr);
        assert forall|x: Seq<nat>| x.len() == v + none.len() implies #[trigger] next(x) == fadd(
            p,
            old_part(x),
            new_part(x),
        ) by {
            self.lemma_polynomial_step(c, m, i, x);
            lemma_distribute(
                p,
                f(x),
                self.weight_after(points, m, i, x + fr),
                claims(x),
            );
        }
        lemma_cube_add(p, old_part, new_part, next, v, none);
        // The values of the claims are those of the polynomial.
        let xs = round.ood_points + round.stir_challenges_points;
        self.lemma_values_at_powers(poly, v, xs);
        assert(round.ood_answers + folds =~= univariate_values(p, poly, xs));
        lemma_dot_comm(p, round.ood_answers + folds, weights, added.len());
        assert(dot(p, round.ood_answers + folds, weights) == dot_upto(
            p,
            round.ood_answers + folds,
            weights,
            added.len(),
        ));
    }

    /// The first claims make the sum that the first sumcheck is about.
    proof fn lemma_first_claim(
        &self,
        c: Seq<nat>,
        com: Commitment,
        points: Seq<Seq<nat>>,
        values: Seq<nat>,
        m: Messages,
    )
        requires
            self.wf(),
            self.shaped(m),
            self.honest(c, com, points, values, m),
            forall|j: int|
                0 <= j < points.len() ==> (#[trigger] points[j]).len()
                    == self.mv_parameters.num_variables,
            m.initial_combination_randomness.len() == com.ood_points.len() + points.len(),
        ensures
            self.first_claim(com, values, m) == cube_sum(
                F::modulus(),
                self.summand(c, self.first_points(com, points), m, 0),
                self.mv_parameters.num_variables as nat,
                Seq::empty(),
            ),
    {
        let p = F::modulus();
        F::lemma_modulus();
        let none = Seq::<nat>::empty();
        let n = self.mv_parameters.num_variables as nat;
        let all = self.first_points(com, points);
        let weights = m.initial_combination_randomness;
        let f = coefficient_fn(p, c);
        let claims = claims_fn(p, all, weights, all.len());
        lemma_coefficient_fn(p, c, n);
        assert forall|x: Seq<nat>| x.len() == n implies #[trigger] f(x) < p by {
            lemma_multilinear_bound(p, c, x);
        }
        lemma_cube_claims(p, f, all, weights, all.len(), n);
        lemma_cube_equal(p, self.summand(c, all, m, 0), product(p, f, claims), n, none);
        self.lemma_values_at_powers(c, n, com.ood_points);
        assert(com.ood_answers + values =~= all.map_values(|z: Seq<nat>| f(z)));
        lemma_dot_comm(p, com.ood_answers + values, weights, all.len());
    }

    /// Folding `i` is with the challenges of the sumcheck before it.
    proof fn lemma_folding_is_reversed(
        &self,
        initial: Seq<(Quadratic, nat)>,
        rounds: Seq<Round>,
        last: Seq<nat>,
    )
        requires
            chained_randomness(initial, rounds, last),
        ensures
            rounds.len() == 0 ==> last == reversed_challenges(initial),
            rounds.len() > 0 ==> rounds[0].folding_randomness == reversed_challenges(initial),
            rounds.len() > 0 ==> last == reversed_challenges(rounds.last().sumcheck_rounds),
            forall|i: int|
                0 <= i < rounds.len() - 1 ==> (#[trigger] rounds[i + 1]).folding_randomness
                    == reversed_challenges(rounds[i].sumcheck_rounds),
        decreases rounds.len(),
    {
        if rounds.len() > 0 {
            let rest = rounds.drop_last();
            self.lemma_folding_is_reversed(initial, rest, rounds.last().folding_randomness);
            assert forall|i: int| 0 <= i < rounds.len() - 1 implies (#[trigger] rounds[i
                + 1]).folding_randomness == reversed_challenges(rounds[i].sumcheck_rounds) by {
                if i + 1 < rest.len() {
                    assert(rest[i + 1] == rounds[i + 1]);
                    assert(rest[i] == rounds[i]);
                } else {
                    assert(rest.last() == rounds[i]);
                }
            }
        }
    }

    /// The folded answers of round `r` are the values of the next polynomial at the queried points.
    proof fn lemma_round_folds(&self, c: Seq<nat>, points: Seq<Seq<nat>>, m: Messages, r: nat)
        requires
            self.wf(),
            self.smooth_domain(),
            self.shaped(m),
            r < self.rounds(),
            c.len() == pow2(self.mv_parameters.num_variables as nat),
            forall|j: int| 0 <= j < c.len() ==> c[j] < F::modulus(),
            self.honest_round(c, points, m, r),
        ensures
            self.foldable(
                m.rounds[r as int].stir_challenges_indexes,
                m.rounds[r as int].stir_challenges_answers,
            ),
            self.round_folds(m.rounds[r as int], r) == univariate_values(
                F::modulus(),
                self.polynomial_after(c, m, r + 1),
                m.rounds[r as int].stir_challenges_points,
            ),
    {
        let round = m.rounds[r as int];
        assert(self.round_shaped(round, r));
        self.lemma_vars(r);
        self.lemma_polynomial_after(c, m, r);
        self.lemma_honest_folds(
            self.polynomial_after(c, m, r),
            self.vars_after(r + 1),
            r,
            round.stir_challenges_indexes,
            round.stir_challenges_answers,
            round.folding_randomness,
        );
    }

    /// The rounds hold, and after `n` of them the sum over the variables that the next folding
    /// leaves is left to be checked.
    proof fn lemma_rounds(
        &self,
        c: Seq<nat>,
        points: Seq<Seq<nat>>,
        m: Messages,
        start: nat,
        n: nat,
    )
        requires
            self.wf(),
            self.smooth_domain(),
            self.shaped(m),
            n <= self.rounds(),
            c.len() == pow2(self.mv_parameters.num_variables as nat),
            forall|j: int| 0 <= j < c.len() ==> c[j] < F::modulus(),
            forall|r: nat| r < self.rounds() ==> #[trigger] self.honest_round(c, points, m, r),
            forall|j: int|
                0 <= j < points.len() ==> (#[trigger] points[j]).len()
                    == self.mv_parameters.num_variables,
            start == cube_sum(
                F::modulus(),
                self.summand(c, points, m, 0),
                self.vars_after(1),
                self.folding(m, 0),
            ),
        ensures
            claim_after_rounds(F::modulus(), start, m.rounds, self.all_folds(m.rounds), n)
                == cube_sum(
                F::modulus(),
                self.summand(c, points, m, n),
                self.vars_after(n + 1),
                self.folding(m, n),
            ),
            forall|i: int|
                0 <= i < n ==> #[trigger] round_holds(
                    F::modulus(),
                    start,
                    m.rounds,
                    self.all_folds(m.rounds),
                    i,
                ),
        decreases n,
    {
        let p = F::modulus();
        F::lemma_modulus();
        let folds = self.all_folds(m.rounds);
        if n > 0 {
            let i = (n - 1) as nat;
            let none = Seq::<nat>::empty();
            let round = m.rounds[i as int];
            self.lemma_rounds(c, points, m, start, i);
            assert(self.honest_round(c, points, m, i));
            assert(self.round_shaped(round, i));
            self.lemma_round_folds(c, points, m, i);
            assert(folds[i as int] == self.round_folds(round, i));
            self.lemma_round_claim(c, points, m, i, folds[i as int]);
            let left = claim_after_rounds(p, start, m.rounds, folds, i);
            let v = self.vars_after(n);
            self.lemma_vars(n);
            self.lemma_vars(i);
            self.lemma_polynomial_after(c, m, n);
            lemma_coefficient_fn(p, self.polynomial_after(c, m, n), v);
            self.lemma_weights_multi_linear(points, m, n);
            law_sumcheck_complete(
                p,
                coefficient_fn(p, self.polynomial_after(c, m, n)),
                self.weight_fn(points, m, n),
                v,
                none,
                round.sumcheck_rounds,
            );
            self.lemma_folding_is_reversed(
                m.initial_sumcheck_rounds,
                m.rounds,
                m.final_folding_randomness,
            );
            if n < m.rounds.len() {
                assert(m.rounds[i as int + 1].folding_randomness == reversed_challenges(
                    round.sumcheck_rounds,
                ));
            }
            assert(self.folding(m, n) == reversed_challenges(round.sumcheck_rounds));
            assert(reversed_challenges(round.sumcheck_rounds) + none =~= self.folding(m, n));
            assert(round_claim(p, left, round, folds[i as int]) == cube_sum(
                p,
                self.summand(c, points, m, n),
                v,
                none,
            ));
            assert(round_holds(p, start, m.rounds, folds, i as int));
        }
    }

    /// Where the randomness of round `i` stands among that of all the rounds.
    proof fn lemma_rounds_randomness_at(&self, rounds: Seq<Round>, i: int)
        requires
            rounds.len() <= self.rounds(),
            0 <= i < rounds.len(),
            forall|r: int|
                0 <= r < rounds.len() ==> self.round_shaped(#[trigger] rounds[r], r as nat),
        ensures
            ({
                let k = self.folding_factor as int;
                let at = k * (rounds.len() - 1 - i);
                let all = rounds_randomness(rounds);
                &&& 0 <= at
                &&& at + k <= all.len()
                &&& all.subrange(at, at + k) == rounds[i].folding_randomness
            }),
        decreases rounds.len(),
    {
        let k = self.folding_factor as int;
        let rest = rounds.drop_last();
        let all = rounds_randomness(rounds);
        let last = rounds.last().folding_randomness;
        assert(self.round_shaped(rounds[rounds.len() - 1], (rounds.len() - 1) as nat));
        if i == rounds.len() - 1 {
            assert(k * 0 == 0) by (nonlinear_arith);
            assert(all.subrange(0, k) =~= last);
        } else {
            assert forall|r: int| 0 <= r < rest.len() implies self.round_shaped(
                #[trigger] rest[r],
                r as nat,
            ) by {
                assert(self.round_shaped(rounds[r], r as nat));
            }
            self.lemma_rounds_randomness_at(rest, i);
            let before = k * (rest.len() - 1 - i);
            let at = k * (rounds.len() - 1 - i);
            assert(at == before + k) by (nonlinear_arith)
                requires
                    at == k * (rounds.len() - 1 - i),
                    before == k * (rest.len() - 1 - i),
                    rest.len() == rounds.len() - 1,
            ;
            assert(all.subrange(at, at + k) =~= rounds_randomness(rest).subrange(
                before,
                before + k,
            ));
        }
    }

    /// The full point, cut off where a folding ends, is cut off before it and continued with its
    /// randomness.
    proof fn lemma_full_point_step(&self, m: Messages, i: nat)
        requires
            self.wf(),
            self.shaped(m),
            i < self.rounds(),
        ensures
            m.full_point().take(self.vars_after(i + 1) as int) + self.folding(m, i)
                == m.full_point().take(self.vars_after(i) as int),
    {
        let k = self.folding_factor as int;
        let n = self.rounds() as int;
        let full = m.full_point();
        let head = m.final_sumcheck_randomness + m.final_folding_randomness;
        let tail = rounds_randomness(m.rounds);
        self.lemma_full_point_len(m);
        self.lemma_rounds_randomness_at(m.rounds, i as int);
        self.lemma_vars(i);
        self.lemma_vars(i + 1);
        self.lemma_vars(self.rounds());
        let at = k * (n - 1 - i);
        assert(at + k * (i + 1) == k * n) by (nonlinear_arith)
            requires
                at == k * (n - 1 - i),
        ;
        assert(self.vars_after(i + 1) == head.len() + at);
        let part = tail.subrange(at, at + k);
        assert(full =~= head + tail);
        assert(full.take(self.vars_after(i + 1) as int) + part =~= full.take(
            self.vars_after(i) as int,
        ));
    }

    /// The weight that the verifier computes round by round is the weight after the foldings.
    proof fn lemma_weight(&self, points: Seq<Seq<nat>>, m: Messages, i: nat)
        requires
            self.wf(),
            self.shaped(m),
            i <= self.rounds(),
            m.initial_combination_randomness.len() == points.len(),
        ensures
            rounds_weight(
                F::modulus(),
                m.rounds,
                m.full_point(),
                self.mv_parameters.num_variables as nat,
                self.folding_factor as nat,
                dot(
                    F::modulus(),
                    m.initial_combination_randomness,
                    equalities(F::modulus(), points, m.full_point()),
                ),
                i,
            ) == self.weight_after(
                points,
                m,
                i,
                m.full_point().take(self.vars_after(i) as int),
            ),
        decreases i,
    {
        let p = F::modulus();
        let full = m.full_point();
        self.lemma_vars(i);
        self.lemma_full_point_len(m);
        if i == 0 {
            assert(full.take(self.vars_after(0) as int) =~= full);
        } else {
            let j = (i - 1) as nat;
            let round = m.rounds[j as int];
            let added = self.round_points(m, j);
            let y = full.take(self.vars_after(i) as int);
            self.lemma_weight(points, m, j);
            self.lemma_full_point_step(m, j);
            assert(self.round_shaped(round, j));
            lemma_dot_comm(
                p,
                equalities(p, added, y),
                round.combination_randomness,
                added.len(),
            );
            assert(dot(p, equalities(p, added, y), round.combination_randomness) == dot_upto(
                p,
                equalities(p, added, y),
                round.combination_randomness,
                added.len(),
            ));
        }
    }

    /// Completeness: what a prover sends that committed to a polynomial, claims true values of it
    /// and follows the protocol is accepted, whatever the challenges are.
    pub proof fn law_honest_is_consistent(
        &self,
        c: Seq<nat>,
        com: Commitment,
        points: Seq<Seq<nat>>,
        values: Seq<nat>,
        m: Messages,
    )
        requires
            self.wf(),
            self.smooth_domain(),
            self.shaped(m),
            m.initial_combination_randomness.len() == com.ood_points.len() + points.len(),
            forall|j: int|
                0 <= j < points.len() ==> (#[trigger] points[j]).len()
                    == self.mv_parameters.num_variables,
            self.honest(c, com, points, values, m),
        ensures
            self.consistent(com, points, values, m),
    {
        let p = F::modulus();
        F::lemma_modulus();
        let none = Seq::<nat>::empty();
        let all = self.first_points(com, points);
        let n = self.rounds();
        let vars = self.mv_parameters.num_variables as nat;
        let f0 = coefficient_fn(p, self.polynomial_after(c, m, 0));
        self.lemma_vars(0);
        self.lemma_vars(n);
        // The first sumcheck
        self.lemma_first_claim(c, com, points, values, m);
        lemma_coefficient_fn(p, c, vars);
        self.lemma_weights_multi_linear(all, m, 0);
        law_sumcheck_complete(
            p,
            f0,
            self.weight_fn(all, m, 0),
            vars,
            none,
            m.initial_sumcheck_rounds,
        );
        self.lemma_folding_is_reversed(
            m.initial_sumcheck_rounds,
            m.rounds,
            m.final_folding_randomness,
        );
        assert(reversed_challenges(m.initial_sumcheck_rounds) + none =~= self.folding(m, 0));
        let start = claim_after(
            p,
            self.first_claim(com, values, m),
            m.initial_sumcheck_rounds,
            m.initial_sumcheck_rounds.len() as int,
        );
        // The rounds
        self.lemma_rounds(c, all, m, start, n);
        assert(rounds_hold(p, start, m.rounds, self.all_folds(m.rounds)));
        // The answers
        assert forall|r: int| 0 <= r < m.rounds.len() implies self.foldable(
            (#[trigger] m.rounds[r]).stir_challenges_indexes,
            m.rounds[r].stir_challenges_answers,
        ) by {
            assert(self.honest_round(c, all, m, r as nat));
            self.lemma_round_folds(c, all, m, r as nat);
        }
        self.lemma_polynomial_after(c, m, n);
        self.lemma_honest_folds(
            self.polynomial_after(c, m, n),
            self.vars_after(n + 1),
            n,
            m.final_randomness_indexes,
            m.final_randomness_answers,
            m.final_folding_randomness,
        );
        assert(agrees(
            self.final_folds(m),
            univariate_values(p, m.final_coefficients, m.final_randomness_points),
        ));
        // The final sumcheck
        let fr = m.final_folding_randomness;
        lemma_coefficient_fn(p, self.polynomial_after(c, m, n), self.vars_after(n));
        self.lemma_weights_multi_linear(all, m, n);
        law_sumcheck_complete(
            p,
            coefficient_fn(p, self.polynomial_after(c, m, n)),
            self.weight_fn(all, m, n),
            self.final_sumcheck_rounds as nat,
            fr,
            m.final_sumcheck_rounds,
        );
        let fs = m.final_sumcheck_randomness;
        self.lemma_polynomial_step(c, m, n, fs);
        self.lemma_weight(all, m, n);
        self.lemma_full_point_len(m);
        assert(m.full_point().take(self.vars_after(n) as int) =~= fs + fr);
        lemma_fmul_comm(
            p,
            multilinear(p, m.final_coefficients, fs),
            self.weight_after(all, m, n, fs + fr),
        );
    }

    /// Where every message and every opening passes, a verifier accepts a prover that committed to
    /// a polynomial, claims true values of it and follows the protocol.
    pub proof fn law_honest_is_accepted<T: Grinding<F, S>, P: MerkleOpening<C, F>>(
        &self,
        s: T::State,
        openings: Seq<(P, Vec<Vec<F>>)>,
        points: Seq<Seq<nat>>,
        values: Seq<nat>,
        c: Seq<nat>,
    )
        requires
            self.wf(),
            self.smooth_domain(),
            forall|j: int|
                0 <= j < points.len() ==> (#[trigger] points[j]).len()
                    == self.mv_parameters.num_variables,
            self.parses_commitment::<T>(s) matches Ok((com, s1)) && self.parses_messages::<T, P>(
                s1,
                openings,
                com.root,
                com.ood_points.len() + points.len(),
            ) matches Ok((m, after)) && self.honest(c, com, points, values, m),
        ensures
            self.verdict::<T, P>(s, openings, points, values) is Ok,
    {
        let (com, s1) = self.parses_commitment::<T>(s)->Ok_0;
        let claims = com.ood_points.len() + points.len();
        let (m, after) = self.parses_messages::<T, P>(s1, openings, com.root, claims)->Ok_0;
        self.law_messages_shaped::<T, P>(s1, openings, com.root, claims);
        self.law_honest_is_consistent(c, com, points, values, m);
    }
}

} // verus!
