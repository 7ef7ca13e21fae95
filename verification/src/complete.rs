//! Completeness: a proof whose prover follows the protocol is accepted.
use crate::cube::{coefficient_fn, cube_sum, lemma_cong_ops, product, PointFn};
use crate::evm_merkle::MerkleOpening;
use crate::field::PrimeField;
use crate::honest::{honest_polynomial, honest_sumcheck};
use crate::parameters::WhirConfig;
use crate::poly::lemma_univariate_bound;
use crate::protocol::{Commitment, Messages};
use crate::spoken::{reduced, sumcheck_reduced, Solver, Spoken};
use crate::sumcheck::Quadratic;
use crate::transcript::{PowStrategy, Refusal};
use vstd::prelude::*;

verus! {

/// The sums in a sumcheck over a product are reduced.
proof fn lemma_honest_sumcheck_reduced(
    p: nat,
    f: PointFn,
    weights: PointFn,
    v: nat,
    tail: Seq<nat>,
    rounds: Seq<(Quadratic, nat)>,
)
    requires
        p > 0,
        honest_sumcheck(p, product(p, f, weights), v, tail, rounds),
    ensures
        sumcheck_reduced(p, rounds),
{
    let g = product(p, f, weights);
    assert forall|u: nat, t: Seq<nat>| #[trigger] cube_sum(p, g, u, t) < p by {
        if u == 0 {
            lemma_cong_ops(p, f(t), weights(t));
        } else {
            lemma_cong_ops(
                p,
                cube_sum(p, g, (u - 1) as nat, seq![0nat] + t),
                cube_sum(p, g, (u - 1) as nat, seq![1nat] + t),
            );
        }
    }
    assert forall|i: int| 0 <= i < rounds.len() implies {
        let q = (#[trigger] rounds[i]).0;
        q.at_zero < p && q.at_one < p && q.at_two < p
    } by {
        assert(honest_polynomial(p, g, v, tail, rounds, i));
    }
}

impl<F: PrimeField, C, S: PowStrategy> WhirConfig<F, C, S> {
    /// What an honest prover sends is reduced.
    proof fn lemma_honest_reduced(
        &self,
        c: Seq<nat>,
        com: Commitment,
        points: Seq<Seq<nat>>,
        values: Seq<nat>,
        m: Messages,
    )
        requires
            self.wf(),
            self.shaped(m),
            self.honest(c, com, points, values, m),
        ensures
            self.messages_reduced(com, m),
    {
        let p = F::modulus();
        F::lemma_modulus();
        let n = self.rounds();
        let all = self.first_points(com, points);
        assert forall|i: int| 0 <= i < com.ood_answers.len() implies #[trigger] com.ood_answers[i]
            < p by {
            lemma_univariate_bound(p, c, com.ood_points[i]);
        }
        self.lemma_summand_reduced(
            c,
            all,
            m,
            0,
            self.mv_parameters.num_variables as nat,
            Seq::empty(),
            m.initial_sumcheck_rounds,
        );
        assert forall|r: int| 0 <= r < m.rounds.len() implies reduced(
            p,
            (#[trigger] m.rounds[r]).ood_answers,
        ) && sumcheck_reduced(p, m.rounds[r].sumcheck_rounds) by {
            let round = m.rounds[r];
            let j = (r + 1) as nat;
            assert(self.honest_round(c, all, m, r as nat));
            assert forall|i: int|
                0 <= i < round.ood_answers.len() implies #[trigger] round.ood_answers[i] < p by {
                lemma_univariate_bound(p, self.polynomial_after(c, m, j), round.ood_points[i]);
            }
            self.lemma_summand_reduced(
                c,
                all,
                m,
                j,
                self.vars_after(j),
                Seq::empty(),
                round.sumcheck_rounds,
            );
        }
        self.lemma_polynomial_after(c, m, n + 1);
        self.lemma_summand_reduced(
            c,
            all,
            m,
            n,
            self.final_sumcheck_rounds as nat,
            m.final_folding_randomness,
            m.final_sumcheck_rounds,
        );
    }

    /// The sums that an honest prover sends are reduced.
    proof fn lemma_summand_reduced(
        &self,
        c: Seq<nat>,
        points: Seq<Seq<nat>>,
        m: Messages,
        i: nat,
        v: nat,
        tail: Seq<nat>,
        rounds: Seq<(Quadratic, nat)>,
    )
        requires
            honest_sumcheck(F::modulus(), self.summand(c, points, m, i), v, tail, rounds),
        ensures
            sumcheck_reduced(F::modulus(), rounds),
    {
        F::lemma_modulus();
        lemma_honest_sumcheck_reduced(
            F::modulus(),
            coefficient_fn(F::modulus(), self.polynomial_after(c, m, i)),
            self.weight_fn(points, m, i),
            v,
            tail,
            rounds,
        );
    }

    /// What an honest prover wrote is accepted: one that sends the messages that the protocol asks
    /// for, for a polynomial with the coefficients `c`, draws its challenges as the verifier does,
    /// finds the work, and answers the queries with what its roots authenticate. The verifier reads
    /// all that was written, whatever stands behind it.
    pub proof fn law_honest_writing_is_accepted<T: Spoken<F, S>, P: MerkleOpening<C, F>>(
        &self,
        c: Seq<nat>,
        given: T::Given,
        w: T::Writing,
        com: Commitment,
        roots: Seq<Seq<u8>>,
        m: Messages,
        solver: Solver,
        openings: Seq<(P, Vec<Vec<F>>)>,
        points: Seq<Seq<nat>>,
        values: Seq<nat>,
    )
        requires
            self.wf(),
            self.smooth_domain(),
            forall|j: int|
                0 <= j < points.len() ==> (#[trigger] points[j]).len()
                    == self.mv_parameters.num_variables,
            self.honest(c, com, points, values, m),
            self.hears::<T>(w, com, roots, m, com.ood_points.len() + points.len(), solver),
            self.answers_opened(openings, com, roots, m),
            T::holds(given, self.says::<T>(w, com, roots, m, solver)),
        ensures
            self.verdict::<T, P>(T::reader(given, w), openings, points, values) == Ok::<
                ((), T::State),
                Refusal<T::State>,
            >(((), T::reader(given, self.says::<T>(w, com, roots, m, solver)))),
    {
        let claims = com.ood_points.len() + points.len();
        self.lemma_hears_shaped::<T>(w, com, roots, m, claims, solver);
        self.lemma_honest_reduced(c, com, points, values, m);
        self.law_written_is_read::<T, P>(
            given,
            w,
            com,
            roots,
            m,
            solver,
            openings,
            points.len(),
        );
        self.law_honest_is_accepted::<T, P>(T::reader(given, w), openings, points, values, c);
    }
}

} // verus!
