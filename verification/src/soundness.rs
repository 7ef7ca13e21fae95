//! What acceptance means: the equations between the messages, one by one.
use crate::algebra::law_operations;
use crate::cube::{cong, lemma_cong_ops, lemma_cong_sub};
use crate::evm_merkle::MerkleOpening;
use crate::field::{fmul, fpow, half, PrimeField};
use crate::fold::fold;
use crate::parameters::{FoldType, WhirConfig};
use crate::poly::{dot, dot_upto, eq_poly, eq_upto, multilinear, power_point, univariate};
use crate::protocol::{
    claim_after, claim_after_rounds, equalities, points_at, power_points, reversed_challenges,
    round_holds, rounds_randomness, rounds_weight, Commitment, Messages, Round,
};
use crate::statements::{invertible, lemma_dot_moves, lemma_invertible_apart};
use crate::sumcheck::Quadratic;
use crate::transcript::{end_state, Fault, Grinding, PowStrategy, Refusal};
use vstd::arithmetic::power::pow;
use vstd::arithmetic::power2::pow2;
use vstd::prelude::*;

verus! {

/// Polynomial `i` of a sumcheck adds up, over 0 and 1, to `value`.
pub open spec fn adds_up(p: nat, sumcheck: Seq<(Quadratic, nat)>, i: int, value: nat) -> bool {
    (sumcheck[i].0.at_zero + sumcheck[i].0.at_one) % p == value
}

/// The value of polynomial `i` of a sumcheck at its challenge.
pub open spec fn value_left(p: nat, sumcheck: Seq<(Quadratic, nat)>, i: int) -> nat {
    sumcheck[i].0.at(p, sumcheck[i].1)
}

/// Every polynomial of a sumcheck but the first adds up to the value that the one before it takes
/// at its challenge.
pub open spec fn links_up(p: nat, sumcheck: Seq<(Quadratic, nat)>) -> bool {
    forall|i: int|
        1 <= i < sumcheck.len() ==> #[trigger] adds_up(
            p,
            sumcheck,
            i,
            value_left(p, sumcheck, i - 1),
        )
}

impl Messages {
    /// The sumcheck before that of round `r`; the one before the final sumcheck for the number of
    /// rounds.
    pub open spec fn sumcheck_before(&self, r: nat) -> Seq<(Quadratic, nat)> {
        if r == 0 {
            self.initial_sumcheck_rounds
        } else {
            self.rounds[r - 1].sumcheck_rounds
        }
    }

    /// What the sumchecks leave at the end: the value of the last polynomial at its challenge.
    pub open spec fn left_at_end(&self, p: nat) -> nat {
        let last = if self.final_sumcheck_rounds.len() > 0 {
            self.final_sumcheck_rounds
        } else {
            self.sumcheck_before(self.rounds.len())
        };
        value_left(p, last, last.len() - 1)
    }
}

impl<F: PrimeField, C, S: PowStrategy> WhirConfig<F, C, S> {
    /// The sumcheck of round `r` links up, and starts with what the sumcheck before it left, plus
    /// the combination of the values that the round adds.
    pub open spec fn round_equations(&self, m: Messages, r: nat) -> bool {
        let p = F::modulus();
        let round = m.rounds[r as int];
        let before = m.sumcheck_before(r);
        &&& links_up(p, round.sumcheck_rounds)
        &&& adds_up(
            p,
            round.sumcheck_rounds,
            0,
            (value_left(p, before, before.len() - 1) + dot(
                p,
                round.ood_answers + self.round_folds(round, r),
                round.combination_randomness,
            )) % p,
        )
    }

    /// The answer to final query `i` folds to the value of the final polynomial at its point.
    pub open spec fn final_query_holds(&self, m: Messages, i: int) -> bool {
        self.final_folds(m)[i] == univariate(
            F::modulus(),
            m.final_coefficients,
            m.final_randomness_points[i],
        )
    }

    /// All the equations that a proof has to meet.
    pub open spec fn equations(
        &self,
        com: Commitment,
        points: Seq<Seq<nat>>,
        values: Seq<nat>,
        m: Messages,
    ) -> bool {
        let p = F::modulus();
        let before = m.sumcheck_before(m.rounds.len());
        &&& self.all_foldable(m)
        &&& links_up(p, m.initial_sumcheck_rounds)
        &&& adds_up(
            p,
            m.initial_sumcheck_rounds,
            0,
            dot(p, com.ood_answers + values, m.initial_combination_randomness),
        )
        &&& forall|r: nat| r < m.rounds.len() ==> #[trigger] self.round_equations(m, r)
        &&& forall|i: int|
            0 <= i < self.final_folds(m).len() && i < m.final_randomness_points.len()
                ==> #[trigger] self.final_query_holds(m, i)
        &&& links_up(p, m.final_sumcheck_rounds)
        &&& m.final_sumcheck_rounds.len() > 0 ==> adds_up(
            p,
            m.final_sumcheck_rounds,
            0,
            value_left(p, before, before.len() - 1),
        )
        &&& m.left_at_end(p) == (self.weight(com, points, m) * multilinear(
            p,
            m.final_coefficients,
            m.final_sumcheck_randomness,
        )) % p
    }

    /// After `n` rounds the last polynomial's value at its challenge is left.
    proof fn lemma_left(&self, claim: nat, m: Messages, folds: Seq<Seq<nat>>, n: nat)
        requires
            self.wf(),
            self.shaped(m),
            n <= m.rounds.len(),
            claim == value_left(
                F::modulus(),
                m.initial_sumcheck_rounds,
                m.initial_sumcheck_rounds.len() - 1,
            ),
        ensures
            claim_after_rounds(F::modulus(), claim, m.rounds, folds, n) == value_left(
                F::modulus(),
                m.sumcheck_before(n),
                m.sumcheck_before(n).len() - 1,
            ),
            m.sumcheck_before(n).len() > 0,
    {
        if n > 0 {
            assert(self.round_shaped(m.rounds[n - 1], (n - 1) as nat));
        }
    }

    /// The claim-wise form of a sumcheck says the same as the link-wise one.
    proof fn lemma_links(&self, claim: nat, sumcheck: Seq<(Quadratic, nat)>)
        ensures
            crate::protocol::sumcheck_holds(F::modulus(), claim, sumcheck) <==> links_up(
                F::modulus(),
                sumcheck,
            ) && (sumcheck.len() > 0 ==> adds_up(F::modulus(), sumcheck, 0, claim)),
            sumcheck.len() > 0 ==> claim_after(
                F::modulus(),
                claim,
                sumcheck,
                sumcheck.len() as int,
            ) == value_left(F::modulus(), sumcheck, sumcheck.len() - 1),
            sumcheck.len() == 0 ==> claim_after(F::modulus(), claim, sumcheck, 0) == claim,
    {
        let p = F::modulus();
        if crate::protocol::sumcheck_holds(p, claim, sumcheck) {
            assert forall|i: int| 1 <= i < sumcheck.len() implies #[trigger] adds_up(
                p,
                sumcheck,
                i,
                value_left(p, sumcheck, i - 1),
            ) by {
                assert(sumcheck[i].0.sum(p) == claim_after(p, claim, sumcheck, i));
            }
            if sumcheck.len() > 0 {
                assert(sumcheck[0].0.sum(p) == claim_after(p, claim, sumcheck, 0));
            }
        }
        if links_up(p, sumcheck) && (sumcheck.len() > 0 ==> adds_up(p, sumcheck, 0, claim)) {
            assert forall|i: int| 0 <= i < sumcheck.len() implies (#[trigger] sumcheck[i]).0.sum(p)
                == claim_after(p, claim, sumcheck, i) by {
                if i > 0 {
                    assert(adds_up(p, sumcheck, i, value_left(p, sumcheck, i - 1)));
                }
            }
        }
    }

    /// Messages are consistent with a statement if and only if every single equation holds: each
    /// polynomial of each sumcheck adds up to what the one before it leaves, the first one to the
    /// combination of the claims, that of a round also to the values which the round adds; each
    /// final query's answer folds to the final polynomial's value; and what is left at the end,
    /// with or without a final sumcheck, is the weight of all claimed points times the final
    /// polynomial's value.
    pub proof fn law_consistent_is_equations(
        &self,
        com: Commitment,
        points: Seq<Seq<nat>>,
        values: Seq<nat>,
        m: Messages,
    )
        requires
            self.wf(),
            self.shaped(m),
        ensures
            self.consistent(com, points, values, m) <==> self.equations(com, points, values, m),
    {
        let p = F::modulus();
        F::lemma_modulus();
        let n = m.rounds.len();
        let first = self.first_claim(com, values, m);
        let initial = m.initial_sumcheck_rounds;
        let folds = self.all_folds(m.rounds);
        let start = claim_after(p, first, initial, initial.len() as int);
        let last = self.last_claim(com, values, m);
        self.lemma_links(first, initial);
        assert(start == value_left(p, initial, initial.len() - 1));
        self.lemma_left(start, m, folds, n);
        self.lemma_links(last, m.final_sumcheck_rounds);
        assert forall|r: nat| r < n implies (round_holds(p, start, m.rounds, folds, r as int)
            <==> #[trigger] self.round_equations(m, r)) by {
            let round = m.rounds[r as int];
            assert(self.round_shaped(round, r));
            self.lemma_left(start, m, folds, r);
            assert(folds[r as int] == self.round_folds(round, r));
            let left = claim_after_rounds(p, start, m.rounds, folds, r);
            let claim = crate::protocol::round_claim(p, left, round, folds[r as int]);
            self.lemma_links(claim, round.sumcheck_rounds);
        }
        assert(crate::protocol::rounds_hold(p, start, m.rounds, folds) <==> (forall|r: nat|
            r < n ==> #[trigger] self.round_equations(m, r))) by {
            if crate::protocol::rounds_hold(p, start, m.rounds, folds) {
                assert forall|r: nat| r < n implies #[trigger] self.round_equations(m, r) by {
                    assert(round_holds(p, start, m.rounds, folds, r as int));
                }
            }
            if forall|r: nat| r < n ==> #[trigger] self.round_equations(m, r) {
                assert forall|i: int| 0 <= i < n implies #[trigger] round_holds(
                    p,
                    start,
                    m.rounds,
                    folds,
                    i,
                ) by {
                    assert(self.round_equations(m, i as nat));
                }
            }
        }
        let xs = self.final_folds(m);
        let ys = m.final_randomness_points.map_values(
            |x: nat| univariate(p, m.final_coefficients, x),
        );
        assert(crate::protocol::agrees(xs, ys) <==> (forall|i: int|
            0 <= i < xs.len() && i < m.final_randomness_points.len()
                ==> #[trigger] self.final_query_holds(m, i))) by {
            if crate::protocol::agrees(xs, ys) {
                assert forall|i: int|
                    0 <= i < xs.len() && i
                        < m.final_randomness_points.len() implies #[trigger] self.final_query_holds(
                    m,
                    i,
                ) by {
                    assert(xs[i] == ys[i]);
                }
            }
            if forall|i: int|
                0 <= i < xs.len() && i < m.final_randomness_points.len()
                    ==> #[trigger] self.final_query_holds(m, i) {
                assert forall|i: int| 0 <= i < xs.len() && i < ys.len() implies #[trigger] xs[i]
                    == ys[i] by {
                    assert(self.final_query_holds(m, i));
                }
            }
        }
    }

    /// A proof is accepted if and only if its transcript and openings pass and every equation
    /// between what was read holds.
    pub proof fn law_accepted_equations<T: Grinding<F, S>, P: MerkleOpening<C, F>>(
        &self,
        s: T::State,
        openings: Seq<(P, Vec<Vec<F>>)>,
        points: Seq<Seq<nat>>,
        values: Seq<nat>,
    )
        requires
            self.wf(),
        ensures
            self.verdict::<T, P>(s, openings, points, values) is Ok <==> (self.first_pass::<T, P>(
                s,
                openings,
                points.len(),
            ) matches Ok(((com, m), _)) && self.equations(com, points, values, m)),
            self.first_pass::<T, P>(s, openings, points.len()) matches Ok(((com, m), after)) ==> (
            !self.equations(com, points, values, m) ==> self.verdict::<T, P>(
                s,
                openings,
                points,
                values,
            ) == Err::<((), T::State), Refusal<T::State>>(
                Refusal { error: Fault::InvalidProof, state: Some(after) },
            )),
    {
        if let Ok(((com, m), after)) = self.first_pass::<T, P>(s, openings, points.len()) {
            let (c, s2) = self.parses_commitment::<T>(s)->Ok_0;
            self.law_messages_shaped::<T, P>(
                s2,
                openings,
                c.root,
                c.ood_points.len() + points.len(),
            );
            self.law_consistent_is_equations(com, points, values, m);
        }
    }

    /// What an accepted proof shows. The first polynomial adds up, over 0 and 1, to the combination
    /// of the out-of-domain answers and the claimed values. The first one of round `r` adds up to
    /// what the polynomial before it takes at its challenge, plus the combination of the values
    /// that the round adds. The answer to final query `i` folds to the final polynomial's value at
    /// its point. The first one of the final sumcheck, if there is one, adds up to what the
    /// polynomial before it takes at its challenge. What the last polynomial of all takes at its
    /// challenge is the weight of the points times the final polynomial's value.
    pub proof fn law_accepted_shows<T: Grinding<F, S>, P: MerkleOpening<C, F>>(
        &self,
        s: T::State,
        openings: Seq<(P, Vec<Vec<F>>)>,
        points: Seq<Seq<nat>>,
        values: Seq<nat>,
        r: int,
        i: int,
    )
        requires
            self.wf(),
            self.verdict::<T, P>(s, openings, points, values) is Ok,
        ensures
            self.first_pass::<T, P>(s, openings, points.len()) matches Ok(((com, m), after)) && {
                let p = F::modulus();
                let n = m.rounds.len() as int;
                let first = m.initial_sumcheck_rounds;
                let final_polynomials = m.final_sumcheck_rounds;
                let end = multilinear(p, m.final_coefficients, m.final_sumcheck_randomness);
                &&& end_state(self.verdict::<T, P>(s, openings, points, values)) == Some(after)
                &&& (first[0].0.at_zero + first[0].0.at_one) % p == dot(
                    p,
                    com.ood_answers + values,
                    m.initial_combination_randomness,
                )
                &&& 0 <= r < n ==> {
                    let round = m.rounds[r];
                    let q = round.sumcheck_rounds[0].0;
                    let before = if r == 0 {
                        first.last()
                    } else {
                        m.rounds[r - 1].sumcheck_rounds.last()
                    };
                    (q.at_zero + q.at_one) % p == (before.0.at(p, before.1) + dot(
                        p,
                        round.ood_answers + self.all_folds(m.rounds)[r],
                        round.combination_randomness,
                    )) % p
                }
                &&& 0 <= i < self.final_folds(m).len() && i < m.final_randomness_indexes.len()
                    ==> self.final_folds(m)[i] == univariate(
                    p,
                    m.final_coefficients,
                    (pow(
                        self.folded_gen(self.rounds()) as int,
                        m.final_randomness_indexes[i] as nat,
                    ) % p as int) as nat,
                )
                &&& {
                    let before = if n == 0 {
                        first.last()
                    } else {
                        m.rounds[n - 1].sumcheck_rounds.last()
                    };
                    let last = if final_polynomials.len() > 0 {
                        final_polynomials.last()
                    } else {
                        before
                    };
                    &&& final_polynomials.len() > 0 ==> (final_polynomials[0].0.at_zero
                        + final_polynomials[0].0.at_one) % p == before.0.at(p, before.1)
                    &&& last.0.at(p, last.1) == (self.weight(com, points, m) * end) % p
                }
            },
    {
        let p = F::modulus();
        F::lemma_modulus();
        self.law_accepted_equations::<T, P>(s, openings, points, values);
        let ((com, m), after) = self.first_pass::<T, P>(s, openings, points.len())->Ok_0;
        let (c, s2) = self.parses_commitment::<T>(s)->Ok_0;
        self.law_messages_shaped::<T, P>(s2, openings, c.root, c.ood_points.len() + points.len());
        let n = m.rounds.len();
        if 0 <= r < n {
            assert(self.round_equations(m, r as nat));
            assert(self.round_shaped(m.rounds[r], r as nat));
            if r > 0 {
                assert(self.round_shaped(m.rounds[r - 1], (r - 1) as nat));
            }
        }
        if n > 0 {
            assert(self.round_shaped(m.rounds[n - 1], (n - 1) as nat));
        }
        if 0 <= i < self.final_folds(m).len() && i < m.final_randomness_indexes.len() {
            assert(self.final_query_holds(m, i));
            law_challenges_and_points(
                Seq::empty(),
                p,
                self.folded_gen(self.rounds()),
                m.final_randomness_indexes,
                i,
            );
        }
    }

    /// A proof is refused whose messages hold a polynomial, at any place but the first of any
    /// sumcheck, that does not add up to the value of the polynomial before it at its challenge.
    pub proof fn law_broken_link_refused<T: Grinding<F, S>, P: MerkleOpening<C, F>>(
        &self,
        s: T::State,
        openings: Seq<(P, Vec<Vec<F>>)>,
        points: Seq<Seq<nat>>,
        values: Seq<nat>,
        r: int,
        i: int,
    )
        requires
            self.wf(),
            self.first_pass::<T, P>(s, openings, points.len()) matches Ok(((com, m), _)) && {
                let sumcheck = if r < 0 {
                    m.initial_sumcheck_rounds
                } else if r < m.rounds.len() {
                    m.rounds[r].sumcheck_rounds
                } else {
                    m.final_sumcheck_rounds
                };
                &&& 1 <= i < sumcheck.len()
                &&& (sumcheck[i].0.at_zero + sumcheck[i].0.at_one) % F::modulus() != sumcheck[i
                    - 1].0.at(F::modulus(), sumcheck[i - 1].1)
            },
        ensures
            self.verdict::<T, P>(s, openings, points, values) == Err::<
                ((), T::State),
                Refusal<T::State>,
            >(
                Refusal {
                    error: Fault::InvalidProof,
                    state: end_state(self.first_pass::<T, P>(s, openings, points.len())),
                },
            ),
    {
        let p = F::modulus();
        let ((com, m), after) = self.first_pass::<T, P>(s, openings, points.len())->Ok_0;
        self.law_accepted_equations::<T, P>(s, openings, points, values);
        if self.equations(com, points, values, m) {
            if r < 0 {
                let sumcheck = m.initial_sumcheck_rounds;
                assert(adds_up(p, sumcheck, i, value_left(p, sumcheck, i - 1)));
            } else if r < m.rounds.len() {
                let sumcheck = m.rounds[r].sumcheck_rounds;
                assert(self.round_equations(m, r as nat));
                assert(adds_up(p, sumcheck, i, value_left(p, sumcheck, i - 1)));
            } else {
                let sumcheck = m.final_sumcheck_rounds;
                assert(adds_up(p, sumcheck, i, value_left(p, sumcheck, i - 1)));
            }
        }
    }

    /// How answers in values fold: as many as there are answers with an index, each on the coset of
    /// its index; and they can be folded exactly if each of them has a value for every point of a
    /// coset.
    pub proof fn law_full_folds(
        &self,
        indexes: Seq<usize>,
        answers: Seq<Seq<nat>>,
        randomness: Seq<nat>,
        gen_inv: nat,
        cosets: nat,
    )
        ensures
            self.fold_optimisation == FoldType::Naive ==> self.folds(
                indexes,
                answers,
                randomness,
                gen_inv,
                cosets,
            ) == self.full_folds(indexes, answers, randomness, gen_inv, cosets),
            self.fold_optimisation == FoldType::Naive ==> self.foldable(indexes, answers)
                == self.full_foldable(indexes, answers),
            ({
                let p = F::modulus();
                let folds = self.full_folds(indexes, answers, randomness, gen_inv, cosets);
                &&& folds.len() <= indexes.len() && folds.len() <= answers.len()
                &&& folds.len() == indexes.len() || folds.len() == answers.len()
                &&& forall|i: int|
                    0 <= i < folds.len() ==> #[trigger] folds[i] == fold(
                        p,
                        answers[i],
                        randomness,
                        fpow(p, gen_inv, indexes[i] as nat),
                        fpow(p, gen_inv, cosets),
                        half(p),
                        self.folding_factor as nat,
                    )
                &&& self.full_foldable(indexes, answers) <==> (forall|i: int|
                    0 <= i < folds.len() ==> (#[trigger] answers[i]).len() >= pow2(
                        self.folding_factor as nat,
                    ))
            }),
    {
    }

    /// How answers in coefficients fold: each to the value of its polynomial; and they can be
    /// folded exactly if each of them has as many coefficients as a coset has points.
    pub proof fn law_helped_folds(
        &self,
        indexes: Seq<usize>,
        answers: Seq<Seq<nat>>,
        randomness: Seq<nat>,
        gen_inv: nat,
        cosets: nat,
    )
        ensures
            self.fold_optimisation == FoldType::ProverHelps ==> self.folds(
                indexes,
                answers,
                randomness,
                gen_inv,
                cosets,
            ) == self.helped_folds(answers, randomness),
            self.fold_optimisation == FoldType::ProverHelps ==> self.foldable(indexes, answers)
                == self.helped_foldable(answers),
            ({
                let folds = self.helped_folds(answers, randomness);
                &&& folds.len() == answers.len()
                &&& forall|i: int|
                    0 <= i < folds.len() ==> #[trigger] folds[i] == multilinear(
                        F::modulus(),
                        answers[i],
                        randomness,
                    )
                &&& self.helped_foldable(answers) <==> (forall|i: int|
                    0 <= i < answers.len() ==> (#[trigger] answers[i]).len() == pow2(
                        self.folding_factor as nat,
                    ))
            }),
    {
    }

    /// Each round folds its own answers with its own randomness and domain, and so do the final
    /// queries.
    pub proof fn law_folds_of_rounds(&self, m: Messages, r: int)
        requires
            0 <= r < m.rounds.len(),
        ensures
            self.all_folds(m.rounds).len() == m.rounds.len(),
            self.all_folds(m.rounds)[r] == self.folds(
                m.rounds[r].stir_challenges_indexes,
                m.rounds[r].stir_challenges_answers,
                m.rounds[r].folding_randomness,
                m.rounds[r].domain_gen_inv,
                self.folded_size(r as nat),
            ),
            self.round_folds(m.rounds[r], r as nat) == self.all_folds(m.rounds)[r],
            self.final_folds(m) == self.folds(
                m.final_randomness_indexes,
                m.final_randomness_answers,
                m.final_folding_randomness,
                m.final_domain_gen_inv,
                self.folded_size(m.rounds.len()),
            ),
            self.all_foldable(m) ==> self.foldable(
                m.rounds[r].stir_challenges_indexes,
                m.rounds[r].stir_challenges_answers,
            ),
            self.all_foldable(m) ==> self.foldable(
                m.final_randomness_indexes,
                m.final_randomness_answers,
            ),
            !self.all_foldable(m) ==> !self.foldable(
                m.final_randomness_indexes,
                m.final_randomness_answers,
            ) || exists|i: int|
                0 <= i < m.rounds.len() && !self.foldable(
                    (#[trigger] m.rounds[i]).stir_challenges_indexes,
                    m.rounds[i].stir_challenges_answers,
                ),
    {
    }

    /// Both ways to fold a whole proof go round by round, and end with the final queries.
    pub proof fn law_every_fold(&self, m: Messages, r: int)
        requires
            0 <= r < m.rounds.len(),
        ensures
            self.every_full_fold(m).len() == m.rounds.len() + 1,
            self.every_helped_fold(m).len() == m.rounds.len() + 1,
            self.every_full_fold(m)[r] == self.full_folds(
                m.rounds[r].stir_challenges_indexes,
                m.rounds[r].stir_challenges_answers,
                m.rounds[r].folding_randomness,
                m.rounds[r].domain_gen_inv,
                self.folded_size(r as nat),
            ),
            self.every_full_fold(m).last() == self.full_folds(
                m.final_randomness_indexes,
                m.final_randomness_answers,
                m.final_folding_randomness,
                m.final_domain_gen_inv,
                self.folded_size(m.rounds.len()),
            ),
            self.every_helped_fold(m)[r] == self.helped_folds(
                m.rounds[r].stir_challenges_answers,
                m.rounds[r].folding_randomness,
            ),
            self.every_helped_fold(m).last() == self.helped_folds(
                m.final_randomness_answers,
                m.final_folding_randomness,
            ),
            self.all_full_foldable(m) ==> self.full_foldable(
                m.rounds[r].stir_challenges_indexes,
                m.rounds[r].stir_challenges_answers,
            ) && self.full_foldable(m.final_randomness_indexes, m.final_randomness_answers),
            self.all_helped_foldable(m) ==> self.helped_foldable(
                m.rounds[r].stir_challenges_answers,
            ) && self.helped_foldable(m.final_randomness_answers),
            !self.all_full_foldable(m) ==> !self.full_foldable(
                m.final_randomness_indexes,
                m.final_randomness_answers,
            ) || exists|i: int|
                0 <= i < m.rounds.len() && !self.full_foldable(
                    (#[trigger] m.rounds[i]).stir_challenges_indexes,
                    m.rounds[i].stir_challenges_answers,
                ),
            !self.all_helped_foldable(m) ==> !self.helped_foldable(m.final_randomness_answers)
                || exists|i: int|
                0 <= i < m.rounds.len() && !self.helped_foldable(
                    (#[trigger] m.rounds[i]).stir_challenges_answers,
                ),
    {
    }

    /// The domains: in each round half as large as before, with the square of the generator, and
    /// cut into cosets of `2^folding_factor` points.
    pub proof fn law_domains(&self, r: nat)
        ensures
            self.domain_size(0) == self.starting_domain.size,
            self.domain_size(r + 1) == self.domain_size(r) / 2,
            self.folded_size(r) * pow2(self.folding_factor as nat) <= self.domain_size(r),
            self.domain_size(r) < (self.folded_size(r) + 1) * pow2(self.folding_factor as nat),
            self.rounds() == self.round_parameters@.len(),
            self.gen_inv(0) == self.starting_domain.group_gen_inv.val(),
            self.gen_inv(r + 1) == (self.gen_inv(r) * self.gen_inv(r)) % F::modulus(),
            self.folded_gen(0) == pow(
                self.starting_domain.group_gen.val() as int,
                pow2(self.folding_factor as nat),
            ) % F::modulus() as int,
            self.folded_gen(r + 1) == (self.folded_gen(r) * self.folded_gen(r)) % F::modulus(),
    {
        let p = F::modulus();
        F::lemma_modulus();
        let k = self.folding_factor as nat;
        let (g, g_inv) = (
            self.starting_domain.group_gen.val(),
            self.starting_domain.group_gen_inv.val(),
        );
        vstd::arithmetic::power2::lemma2_to64();
        vstd::arithmetic::power2::lemma_pow2_pos(r);
        vstd::arithmetic::power2::lemma_pow2_pos(k);
        vstd::arithmetic::power2::lemma_pow2_unfold(r + 1);
        vstd::arithmetic::power2::lemma_pow2_unfold(k + (r + 1));
        vstd::arithmetic::div_mod::lemma_div_denominator(
            self.starting_domain.size as int,
            pow2(r) as int,
            2,
        );
        assert(pow2(0) == 1);
        vstd::arithmetic::div_mod::lemma_div_basics(self.starting_domain.size as int);
        let (d, c) = (self.domain_size(r) as int, pow2(k) as int);
        vstd::arithmetic::div_mod::lemma_fundamental_div_mod(d, c);
        vstd::arithmetic::div_mod::lemma_mod_bound(d, c);
        assert(self.folded_size(r) * c == c * (d / c)) by (nonlinear_arith)
            requires
                self.folded_size(r) == d / c,
        ;
        assert((self.folded_size(r) + 1) * c == c * (d / c) + c) by (nonlinear_arith)
            requires
                self.folded_size(r) == d / c,
        ;
        self.starting_domain.group_gen_inv.lemma_val();
        crate::field::lemma_fpow_one(p, g_inv);
        crate::field::lemma_fpow_add(p, g_inv, pow2(r), pow2(r));
        crate::field::lemma_fpow_add(p, g, pow2(k + r), pow2(k + r));
        law_operations(p, g, 0, pow2(k));
        assert(k + 0 == k);
    }

    /// The first claims weigh the powers of the out-of-domain points and the points of the
    /// statement, each by its coefficient; and every round adds the weights of its points.
    pub proof fn law_weight(&self, com: Commitment, points: Seq<Seq<nat>>, m: Messages)
        ensures
            ({
                let p = F::modulus();
                let vars = self.mv_parameters.num_variables as nat;
                let full = m.full_point();
                let n = com.ood_points.len();
                let start = dot(
                    p,
                    m.initial_combination_randomness,
                    Seq::new(
                        n + points.len(),
                        |i: int|
                            if i < n {
                                eq_poly(p, power_point(p, com.ood_points[i], vars), full)
                            } else {
                                eq_poly(p, points[i - n], full)
                            },
                    ),
                );
                self.weight(com, points, m) == rounds_weight(
                    p,
                    m.rounds,
                    full,
                    vars,
                    self.folding_factor as nat,
                    start,
                    m.rounds.len(),
                )
            }),
    {
        let p = F::modulus();
        let vars = self.mv_parameters.num_variables as nat;
        let full = m.full_point();
        let n = com.ood_points.len();
        assert(equalities(p, power_points(p, com.ood_points, vars) + points, full) =~= Seq::new(
            n + points.len(),
            |i: int|
                if i < n {
                    eq_poly(p, power_point(p, com.ood_points[i], vars), full)
                } else {
                    eq_poly(p, points[i - n], full)
                },
        ));
    }

    /// The weight is reduced.
    proof fn lemma_weight_bound(&self, com: Commitment, points: Seq<Seq<nat>>, m: Messages)
        ensures
            self.weight(com, points, m) < F::modulus(),
    {
        let p = F::modulus();
        F::lemma_modulus();
        let start = dot(
            p,
            m.initial_combination_randomness,
            equalities(
                p,
                power_points(p, com.ood_points, self.mv_parameters.num_variables as nat) + points,
                m.full_point(),
            ),
        );
        if m.rounds.len() == 0 {
            lemma_dot_bound(
                p,
                m.initial_combination_randomness,
                equalities(
                    p,
                    power_points(p, com.ood_points, self.mv_parameters.num_variables as nat)
                        + points,
                    m.full_point(),
                ),
            );
        }
    }

    /// With another point `z` in place of point `j` of the statement, the weight moves by the
    /// coefficient of the claim times the difference of the two points' equalities with the full
    /// point.
    pub proof fn law_weight_moves(
        &self,
        com: Commitment,
        points: Seq<Seq<nat>>,
        m: Messages,
        j: int,
        z: Seq<nat>,
    )
        requires
            0 <= j < points.len(),
            com.ood_points.len() + points.len() <= m.initial_combination_randomness.len(),
        ensures
            cong(
                F::modulus(),
                self.weight(com, points.update(j, z), m) - self.weight(com, points, m),
                m.initial_combination_randomness[com.ood_points.len() + j] * (eq_poly(
                    F::modulus(),
                    z,
                    m.full_point(),
                ) - eq_poly(F::modulus(), points[j], m.full_point())),
            ),
    {
        let p = F::modulus();
        F::lemma_modulus();
        let vars = self.mv_parameters.num_variables as nat;
        let full = m.full_point();
        let comb = m.initial_combination_randomness;
        let powers = power_points(p, com.ood_points, vars);
        let i = com.ood_points.len() + j;
        let xs = equalities(p, powers + points, full);
        let e = eq_poly(p, z, full);
        let ys = equalities(p, powers + points.update(j, z), full);
        assert(ys =~= xs.update(i, e));
        lemma_dot_swap(p, comb, xs, xs.len());
        lemma_dot_swap(p, comb, ys, xs.len());
        lemma_dot_moves(p, xs, comb, i, e, xs.len());
        assert(xs[i] == eq_poly(p, points[j], full));
        let (a, b) = (dot(p, comb, xs), dot(p, comb, ys));
        assert((e - xs[i]) * comb[i] == comb[i] * (e - xs[i])) by (nonlinear_arith);
        lemma_rounds_weight_moves(
            p,
            m.rounds,
            full,
            vars,
            self.folding_factor as nat,
            a,
            b,
            m.rounds.len(),
        );
    }

    /// Messages that are consistent with values at some points are not consistent with the same
    /// values at other points, as long as the two lists of points have different weights and the
    /// final polynomial's value is invertible: with or without a final sumcheck.
    pub proof fn law_altered_points_inconsistent(
        &self,
        com: Commitment,
        points: Seq<Seq<nat>>,
        others: Seq<Seq<nat>>,
        values: Seq<nat>,
        m: Messages,
    )
        requires
            self.consistent(com, points, values, m),
            self.weight(com, points, m) != self.weight(com, others, m),
            invertible(
                F::modulus(),
                multilinear(F::modulus(), m.final_coefficients, m.final_sumcheck_randomness),
            ),
        ensures
            !self.consistent(com, others, values, m),
    {
        let p = F::modulus();
        F::lemma_modulus();
        let v = multilinear(p, m.final_coefficients, m.final_sumcheck_randomness);
        let (a, b) = (self.weight(com, points, m), self.weight(com, others, m));
        self.lemma_weight_bound(com, points, m);
        self.lemma_weight_bound(com, others, m);
        if self.consistent(com, others, values, m) {
            assert(fmul(p, a, v) == fmul(p, b, v));
            lemma_cong_ops(p, a, v);
            lemma_cong_ops(p, b, v);
            lemma_cong_sub(p, (a * v) as int, (b * v) as int, (b * v) as int, (b * v) as int);
            assert(a * v - b * v == (a - b) * v) by (nonlinear_arith);
            lemma_invertible_apart(p, a, b, v);
        }
    }

    /// A proof that is accepted for a statement is refused for one with another point `z` in place
    /// of point `j` and the same values, as long as the coefficient of the claim and the final
    /// polynomial's value are invertible and the two points differ in their equality with the full
    /// point. The transcript ends in the same place.
    pub proof fn law_altered_point_refused<T: Grinding<F, S>, P: MerkleOpening<C, F>>(
        &self,
        s: T::State,
        openings: Seq<(P, Vec<Vec<F>>)>,
        points: Seq<Seq<nat>>,
        values: Seq<nat>,
        j: int,
        z: Seq<nat>,
    )
        requires
            self.wf(),
            0 <= j < points.len(),
            self.verdict::<T, P>(s, openings, points, values) is Ok,
            self.first_pass::<T, P>(s, openings, points.len()) matches Ok(((com, m), _)) && {
                let p = F::modulus();
                &&& invertible(p, m.initial_combination_randomness[com.ood_points.len() + j])
                &&& invertible(
                    p,
                    multilinear(p, m.final_coefficients, m.final_sumcheck_randomness),
                )
                &&& eq_poly(p, z, m.full_point()) != eq_poly(p, points[j], m.full_point())
            },
        ensures
            self.verdict::<T, P>(s, openings, points.update(j, z), values) == Err::<
                ((), T::State),
                Refusal<T::State>,
            >(
                Refusal {
                    error: Fault::InvalidProof,
                    state: end_state(self.verdict::<T, P>(s, openings, points, values)),
                },
            ),
    {
        let p = F::modulus();
        F::lemma_modulus();
        let ((com, m), after) = self.first_pass::<T, P>(s, openings, points.len())->Ok_0;
        let (c, s2) = self.parses_commitment::<T>(s)->Ok_0;
        self.law_messages_shaped::<T, P>(s2, openings, c.root, c.ood_points.len() + points.len());
        let others = points.update(j, z);
        let coefficient = m.initial_combination_randomness[com.ood_points.len() + j];
        let (e, d) = (eq_poly(p, z, m.full_point()), eq_poly(p, points[j], m.full_point()));
        self.law_weight_moves(com, points, m, j, z);
        if self.weight(com, others, m) == self.weight(com, points, m) {
            assert(coefficient * (e - d) == (e - d) * coefficient) by (nonlinear_arith);
            lemma_eq_bound(p, z, m.full_point());
            lemma_eq_bound(p, points[j], m.full_point());
            lemma_invertible_apart(p, e, d, coefficient);
        }
        self.law_altered_points_inconsistent(com, points, others, values, m);
    }
}

/// Equalities are reduced.
proof fn lemma_eq_bound(p: nat, a: Seq<nat>, b: Seq<nat>)
    requires
        p > 1,
    ensures
        eq_poly(p, a, b) < p,
{
    if a.len() > 0 {
        let k = a.len();
        lemma_cong_ops(
            p,
            eq_upto(p, a, b, (k - 1) as nat),
            crate::poly::eq_bit(p, a[k - 1], b[k - 1]),
        );
    }
}

/// Sums of products are reduced.
proof fn lemma_dot_bound(p: nat, xs: Seq<nat>, ys: Seq<nat>)
    requires
        p > 0,
    ensures
        dot(p, xs, ys) < p,
{
    let k = if xs.len() <= ys.len() {
        xs.len()
    } else {
        ys.len()
    };
    if k > 0 {
        lemma_cong_ops(
            p,
            dot_upto(p, xs, ys, (k - 1) as nat),
            fmul(p, xs[k - 1], ys[k - 1]),
        );
    }
}

/// The order of the factors does not matter.
proof fn lemma_dot_swap(p: nat, xs: Seq<nat>, ys: Seq<nat>, k: nat)
    ensures
        dot_upto(p, xs, ys, k) == dot_upto(p, ys, xs, k),
    decreases k,
{
    if k > 0 {
        lemma_dot_swap(p, xs, ys, (k - 1) as nat);
        assert(xs[k - 1] * ys[k - 1] == ys[k - 1] * xs[k - 1]) by (nonlinear_arith);
    }
}

/// What the rounds add does not depend on what was there before.
proof fn lemma_rounds_weight_moves(
    p: nat,
    rounds: Seq<Round>,
    point: Seq<nat>,
    vars: nat,
    k: nat,
    a: nat,
    b: nat,
    n: nat,
)
    requires
        p > 0,
    ensures
        cong(
            p,
            rounds_weight(p, rounds, point, vars, k, b, n) - rounds_weight(
                p,
                rounds,
                point,
                vars,
                k,
                a,
                n,
            ),
            b - a,
        ),
    decreases n,
{
    if n > 0 {
        let i = (n - 1) as nat;
        lemma_rounds_weight_moves(p, rounds, point, vars, k, a, b, i);
        let left = (vars - k * n) as nat;
        let round = rounds[n - 1];
        let add = dot(
            p,
            equalities(
                p,
                power_points(p, round.ood_points + round.stir_challenges_points, left),
                point.take(left as int),
            ),
            round.combination_randomness,
        );
        let (u, v) = (
            rounds_weight(p, rounds, point, vars, k, a, i),
            rounds_weight(p, rounds, point, vars, k, b, i),
        );
        lemma_cong_ops(p, u, add);
        lemma_cong_ops(p, v, add);
        lemma_cong_sub(
            p,
            rounds_weight(p, rounds, point, vars, k, b, n) as int,
            (v + add) as int,
            rounds_weight(p, rounds, point, vars, k, a, n) as int,
            (u + add) as int,
        );
    }
}

/// What the points of one more round add to the weight: for each of its points, out of the domain
/// and queried, the equality of the powers of the point with the variables that are left, by the
/// coefficient of the claim.
pub proof fn law_round_weight(
    p: nat,
    rounds: Seq<Round>,
    point: Seq<nat>,
    vars: nat,
    k: nat,
    start: nat,
    n: nat,
)
    requires
        p > 0,
    ensures
        rounds_weight(p, rounds, point, vars, k, start, 0) == start,
        ({
            let round = rounds[n as int];
            let left = (vars - k * (n + 1)) as nat;
            let xs = round.ood_points + round.stir_challenges_points;
            rounds_weight(p, rounds, point, vars, k, start, n + 1) == (rounds_weight(
                p,
                rounds,
                point,
                vars,
                k,
                start,
                n,
            ) + dot(
                p,
                Seq::new(
                    xs.len(),
                    |i: int| eq_poly(p, power_point(p, xs[i], left), point.take(left as int)),
                ),
                round.combination_randomness,
            )) % p
        }),
{
    let round = rounds[n as int];
    let left = (vars - k * (n + 1)) as nat;
    let xs = round.ood_points + round.stir_challenges_points;
    assert(equalities(p, power_points(p, xs, left), point.take(left as int)) =~= Seq::new(
        xs.len(),
        |i: int| eq_poly(p, power_point(p, xs[i], left), point.take(left as int)),
    ));
}

/// The full point is put together from behind: at its end stands the folding randomness of the
/// first round, before it that of the second, and so on; at its start the randomness of the final
/// sumcheck, and then that of the last folding.
pub proof fn law_full_point(m: Messages, k: nat, r: int)
    requires
        forall|i: int|
            0 <= i < m.rounds.len() ==> (#[trigger] m.rounds[i]).folding_randomness.len() == k,
        m.final_folding_randomness.len() == k,
    ensures
        ({
            let f = m.final_sumcheck_randomness.len();
            let n = m.rounds.len();
            let full = m.full_point();
            &&& full.len() == f + k * (n + 1)
            &&& full.take(f as int) == m.final_sumcheck_randomness
            &&& full.subrange(f as int, (f + k) as int) == m.final_folding_randomness
            &&& 0 <= r < n ==> 0 <= full.len() - k * (r + 1) <= full.len() - k * r <= full.len()
            &&& 0 <= r < n ==> full.subrange(full.len() - k * (r + 1), full.len() - k * r)
                == m.rounds[r].folding_randomness
        }),
{
    let f = m.final_sumcheck_randomness.len();
    let n = m.rounds.len();
    let full = m.full_point();
    let tail = rounds_randomness(m.rounds);
    lemma_rounds_randomness(m.rounds, k, r);
    assert(full =~= m.final_sumcheck_randomness + m.final_folding_randomness + tail);
    assert(k * (n + 1) == k * n + k) by (nonlinear_arith);
    assert(full.take(f as int) =~= m.final_sumcheck_randomness);
    assert(full.subrange(f as int, (f + k) as int) =~= m.final_folding_randomness);
    if 0 <= r < n {
        assert(full.subrange(full.len() - k * (r + 1), full.len() - k * r) =~= tail.subrange(
            tail.len() - k * (r + 1),
            tail.len() - k * r,
        ));
    }
}

/// The same of the rounds alone.
proof fn lemma_rounds_randomness(rounds: Seq<Round>, k: nat, r: int)
    requires
        forall|i: int|
            0 <= i < rounds.len() ==> (#[trigger] rounds[i]).folding_randomness.len() == k,
    ensures
        ({
            let tail = rounds_randomness(rounds);
            &&& tail.len() == k * rounds.len()
            &&& 0 <= r < rounds.len() ==> 0 <= tail.len() - k * (r + 1) <= tail.len() - k * r
                <= tail.len()
            &&& 0 <= r < rounds.len() ==> tail.subrange(
                tail.len() - k * (r + 1),
                tail.len() - k * r,
            ) == rounds[r].folding_randomness
        }),
    decreases rounds.len(),
{
    let n = rounds.len();
    let tail = rounds_randomness(rounds);
    if n > 0 {
        let rest = rounds.drop_last();
        assert forall|i: int|
            0 <= i < rest.len() implies (#[trigger] rest[i]).folding_randomness.len() == k by {
            assert(rest[i] == rounds[i]);
        }
        lemma_rounds_randomness(rest, k, r);
        let inner = rounds_randomness(rest);
        assert(rounds[n - 1].folding_randomness.len() == k);
        assert(k * n == k * (n - 1) + k) by (nonlinear_arith);
        if 0 <= r < n {
            assert(0 <= k * r && k * (r + 1) == k * r + k) by (nonlinear_arith)
                requires
                    0 <= r,
            ;
            assert(k * (r + 1) <= k * n) by (nonlinear_arith)
                requires
                    r + 1 <= n,
            ;
            if r == n - 1 {
                assert(tail.subrange(0, k as int) =~= rounds[r].folding_randomness);
            } else {
                assert(rest[r] == rounds[r]);
                assert(tail.subrange(tail.len() - k * (r + 1), tail.len() - k * r)
                    =~= inner.subrange(inner.len() - k * (r + 1), inner.len() - k * r));
            }
        }
    } else {
        assert(k * 0 == 0) by (nonlinear_arith);
    }
}

/// The randomness of a folding is the challenges of the sumcheck, the last one first; and the
/// queried points are the generator raised to the queried positions.
pub proof fn law_challenges_and_points(
    sumcheck: Seq<(Quadratic, nat)>,
    p: nat,
    g: nat,
    indexes: Seq<usize>,
    i: int,
)
    requires
        p > 1,
    ensures
        reversed_challenges(sumcheck).len() == sumcheck.len(),
        0 <= i < sumcheck.len() ==> reversed_challenges(sumcheck)[i] == sumcheck[sumcheck.len() - 1
            - i].1,
        points_at(p, g, indexes).len() == indexes.len(),
        0 <= i < indexes.len() ==> points_at(p, g, indexes)[i] == pow(g as int, indexes[i] as nat)
            % p as int,
{
    if 0 <= i < indexes.len() {
        law_operations(p, g, 0, indexes[i] as nat);
    }
}

} // verus!
