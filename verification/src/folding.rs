//! How the answers of all rounds are folded, and that the two ways to answer come to the same.
use crate::field::{fpow, PrimeField};
use crate::fold::law_fold_is_evaluation;
use crate::parameters::{FoldType, WhirConfig};
use crate::protocol::{Messages, Round};
use crate::transcript::PowStrategy;
use vstd::prelude::*;

verus! {

impl<F: PrimeField, C, S: PowStrategy> WhirConfig<F, C, S> {
    /// `answers` holds in round `r` the values, on the cosets of `indexes`, of the polynomials
    /// whose coefficients `coefficients` holds.
    pub open spec fn evaluated(
        &self,
        r: nat,
        indexes: Seq<usize>,
        answers: Seq<Seq<nat>>,
        coefficients: Seq<Seq<nat>>,
    ) -> bool {
        &&& answers.len() == indexes.len()
        &&& coefficients.len() == indexes.len()
        &&& forall|i: int|
            0 <= i < coefficients.len() ==> self.evaluated_at(
                r,
                indexes[i],
                answers[i],
                #[trigger] coefficients[i],
            )
    }

    /// `answer` holds the values, on the coset of `index`, of the polynomial with these
    /// coefficients.
    pub open spec fn evaluated_at(
        &self,
        r: nat,
        index: usize,
        answer: Seq<nat>,
        coefficients: Seq<nat>,
    ) -> bool {
        &&& coefficients.len() == self.coset_size()
        &&& forall|j: int| 0 <= j < coefficients.len() ==> coefficients[j] < F::modulus()
        &&& answer == self.coset(coefficients, r, index)
    }

    /// The messages are the same, but that `m` answers queries with values where `helped` answers
    /// them with coefficients.
    pub open spec fn answers_evaluated(&self, m: Messages, helped: Messages) -> bool {
        &&& helped.rounds.len() == m.rounds.len()
        &&& helped == (Messages {
            rounds: helped.rounds,
            final_randomness_answers: helped.final_randomness_answers,
            ..m
        })
        &&& forall|r: int|
            0 <= r < m.rounds.len() ==> self.round_evaluated(
                r as nat,
                #[trigger] m.rounds[r],
                helped.rounds[r],
            )
        &&& self.evaluated(
            m.rounds.len(),
            m.final_randomness_indexes,
            m.final_randomness_answers,
            helped.final_randomness_answers,
        )
    }

    /// The same of one round.
    pub open spec fn round_evaluated(&self, r: nat, round: Round, helped: Round) -> bool {
        &&& helped == (Round { stir_challenges_answers: helped.stir_challenges_answers, ..round })
        &&& self.evaluated(
            r,
            round.stir_challenges_indexes,
            round.stir_challenges_answers,
            helped.stir_challenges_answers,
        )
    }

    /// The values of round `r`, folded.
    pub open spec fn round_full_folds(&self, round: Round, r: nat) -> Seq<nat> {
        self.full_folds(
            round.stir_challenges_indexes,
            round.stir_challenges_answers,
            round.folding_randomness,
            round.domain_gen_inv,
            self.folded_size(r),
        )
    }

    /// The polynomials of a round, evaluated.
    pub open spec fn round_helped_folds(&self, round: Round) -> Seq<nat> {
        self.helped_folds(round.stir_challenges_answers, round.folding_randomness)
    }

    /// The answers of each round, and after them those to the final queries, folded as values.
    pub open spec fn every_full_fold(&self, m: Messages) -> Seq<Seq<nat>> {
        Seq::new(m.rounds.len(), |r: int| self.round_full_folds(m.rounds[r], r as nat)).push(
            self.full_folds(
                m.final_randomness_indexes,
                m.final_randomness_answers,
                m.final_folding_randomness,
                m.final_domain_gen_inv,
                self.folded_size(m.rounds.len()),
            ),
        )
    }

    /// The answers of each round, and after them those to the final queries, evaluated as
    /// polynomials.
    pub open spec fn every_helped_fold(&self, m: Messages) -> Seq<Seq<nat>> {
        Seq::new(m.rounds.len(), |r: int| self.round_helped_folds(m.rounds[r])).push(
            self.helped_folds(m.final_randomness_answers, m.final_folding_randomness),
        )
    }

    /// All answers can be folded as values.
    pub open spec fn all_full_foldable(&self, m: Messages) -> bool {
        &&& forall|r: int|
            0 <= r < m.rounds.len() ==> self.full_foldable(
                (#[trigger] m.rounds[r]).stir_challenges_indexes,
                m.rounds[r].stir_challenges_answers,
            )
        &&& self.full_foldable(m.final_randomness_indexes, m.final_randomness_answers)
    }

    /// All answers can be evaluated as polynomials.
    pub open spec fn all_helped_foldable(&self, m: Messages) -> bool {
        &&& forall|r: int|
            0 <= r < m.rounds.len() ==> self.helped_foldable(
                (#[trigger] m.rounds[r]).stir_challenges_answers,
            )
        &&& self.helped_foldable(m.final_randomness_answers)
    }

    /// The folding randomness of every round has a coordinate for each variable that is folded.
    pub open spec fn foldings_sized(&self, m: Messages) -> bool {
        &&& forall|r: int|
            0 <= r < m.rounds.len() ==> (#[trigger] m.rounds[r]).folding_randomness.len()
                == self.folding_factor
        &&& m.final_folding_randomness.len() == self.folding_factor
    }

    /// What is read has folding randomness of the right length.
    pub proof fn lemma_shaped_foldings(&self, m: Messages)
        requires
            self.shaped(m),
        ensures
            self.foldings_sized(m),
    {
        assert forall|r: int| 0 <= r < m.rounds.len() implies (
        #[trigger] m.rounds[r]).folding_randomness.len() == self.folding_factor by {
            assert(self.round_shaped(m.rounds[r], r as nat));
        }
    }

    /// All answers are folded in the way that the parameters name: as values on their cosets, or as
    /// polynomials. There is a list for each round, and one more, the last, for the final queries.
    pub proof fn law_fold_dispatch(&self, m: Messages)
        ensures
            self.every_fold(m) == match self.fold_optimisation {
                FoldType::Naive => self.every_full_fold(m),
                FoldType::ProverHelps => self.every_helped_fold(m),
            },
            self.all_foldable(m) == match self.fold_optimisation {
                FoldType::Naive => self.all_full_foldable(m),
                FoldType::ProverHelps => self.all_helped_foldable(m),
            },
            self.every_fold(m).len() == m.rounds.len() + 1,
            self.every_fold(m).last() == self.final_folds(m),
    {
        match self.fold_optimisation {
            FoldType::Naive => {
                assert(self.every_fold(m) =~= self.every_full_fold(m));
            },
            FoldType::ProverHelps => {
                assert(self.every_fold(m) =~= self.every_helped_fold(m));
            },
        }
    }

    /// The two forms of one round's answers fold to the same.
    proof fn lemma_forms_agree(
        &self,
        r: nat,
        indexes: Seq<usize>,
        answers: Seq<Seq<nat>>,
        coefficients: Seq<Seq<nat>>,
        randomness: Seq<nat>,
    )
        requires
            self.wf(),
            self.smooth_domain(),
            r <= self.rounds(),
            randomness.len() == self.folding_factor,
            self.evaluated(r, indexes, answers, coefficients),
        ensures
            self.full_folds(indexes, answers, randomness, self.gen_inv(r), self.folded_size(r))
                == self.helped_folds(coefficients, randomness),
            self.full_foldable(indexes, answers),
            self.helped_foldable(coefficients),
    {
        let p = F::modulus();
        F::lemma_modulus();
        let s = self.folded_size(r);
        let full = self.full_folds(indexes, answers, randomness, self.gen_inv(r), s);
        let helped = self.helped_folds(coefficients, randomness);
        assert forall|i: int| 0 <= i < full.len() implies full[i] == helped[i] by {
            assert(self.evaluated_at(r, indexes[i], answers[i], coefficients[i]));
            self.lemma_coset_inverses(r, indexes[i]);
            law_fold_is_evaluation(
                p,
                coefficients[i],
                randomness,
                fpow(p, self.gen(r), indexes[i] as nat),
                fpow(p, self.gen_inv(r), indexes[i] as nat),
                fpow(p, self.gen(r), s),
                fpow(p, self.gen_inv(r), s),
            );
        }
        assert(full =~= helped);
        assert forall|i: int| 0 <= i < answers.len() implies (#[trigger] answers[i]).len()
            >= self.coset_size() by {
            assert(self.evaluated_at(r, indexes[i], answers[i], coefficients[i]));
        }
    }

    /// Answers in values and answers in coefficients fold to the same, over all the rounds of a
    /// proof, where the values are those of the polynomials on the queried cosets, and the domain's
    /// generator has the right order.
    pub proof fn law_fold_forms_agree(&self, m: Messages, helped: Messages)
        requires
            self.wf(),
            self.smooth_domain(),
            m.rounds.len() <= self.rounds(),
            self.foldings_sized(m),
            forall|r: int|
                0 <= r < m.rounds.len() ==> (#[trigger] m.rounds[r]).domain_gen_inv == self.gen_inv(
                    r as nat,
                ),
            m.final_domain_gen_inv == self.gen_inv(m.rounds.len()),
            self.answers_evaluated(m, helped),
        ensures
            self.all_full_foldable(m),
            self.all_helped_foldable(helped),
            self.every_full_fold(m) == self.every_helped_fold(helped),
    {
        let n = m.rounds.len();
        let one = self.every_full_fold(m);
        let other = self.every_helped_fold(helped);
        assert forall|r: int| 0 <= r < n implies one[r] == other[r] && self.full_foldable(
            (#[trigger] m.rounds[r]).stir_challenges_indexes,
            m.rounds[r].stir_challenges_answers,
        ) && self.helped_foldable(helped.rounds[r].stir_challenges_answers) by {
            let round = m.rounds[r];
            assert(self.round_evaluated(r as nat, round, helped.rounds[r]));
            self.lemma_forms_agree(
                r as nat,
                round.stir_challenges_indexes,
                round.stir_challenges_answers,
                helped.rounds[r].stir_challenges_answers,
                round.folding_randomness,
            );
        }
        assert forall|r: int| 0 <= r < n implies self.helped_foldable(
            (#[trigger] helped.rounds[r]).stir_challenges_answers,
        ) by {
            assert(one[r] == other[r] && self.round_evaluated(
                r as nat,
                m.rounds[r],
                helped.rounds[r],
            ));
        }
        self.lemma_forms_agree(
            n,
            m.final_randomness_indexes,
            m.final_randomness_answers,
            helped.final_randomness_answers,
            m.final_folding_randomness,
        );
        assert forall|r: int| 0 <= r < one.len() implies one[r] == other[r] by {
            if r < n {
                assert(self.full_foldable(
                    m.rounds[r].stir_challenges_indexes,
                    m.rounds[r].stir_challenges_answers,
                ));
            }
        }
        assert(one =~= other);
    }
}

} // verus!
