//! The protocol: which messages and challenges follow each other, and which equations between
//! them make a verifier accept.
use crate::evm_merkle::{shown, MerkleOpening};
use crate::field::{fadd, fmul, fpow, half, rows, PrimeField};
use crate::fold::fold;
use crate::parameters::{FoldType, WhirConfig};
use crate::poly::{dot, eq_poly, multilinear, power_point, powers, univariate};
use crate::queries::{increasing_below, law_positions, query_positions};
use crate::sumcheck::Quadratic;
use crate::transcript::{
    draws_scalars, lemma_scalars_len, reads_scalars, Difficulty, Fault, Grinding, Outcome,
    PowStrategy, Refusal, Transcript,
};
use vstd::arithmetic::power2::{lemma_pow2_pos, pow2};
use vstd::prelude::*;

verus! {

/// A commitment: a Merkle root, and values of the committed polynomial at points that were drawn
/// after it.
#[verifier::ext_equal]
pub struct Commitment {
    pub root: Seq<u8>,
    pub ood_points: Seq<nat>,
    pub ood_answers: Seq<nat>,
}

/// The messages and challenges of a round.
#[verifier::ext_equal]
pub struct Round {
    pub folding_randomness: Seq<nat>,
    pub ood_points: Seq<nat>,
    pub ood_answers: Seq<nat>,
    pub stir_challenges_indexes: Seq<usize>,
    pub stir_challenges_points: Seq<nat>,
    pub stir_challenges_answers: Seq<Seq<nat>>,
    pub combination_randomness: Seq<nat>,
    pub sumcheck_rounds: Seq<(Quadratic, nat)>,
    pub domain_gen_inv: nat,
}

/// The messages and challenges after the commitment.
#[verifier::ext_equal]
pub struct Messages {
    pub initial_combination_randomness: Seq<nat>,
    pub initial_sumcheck_rounds: Seq<(Quadratic, nat)>,
    pub rounds: Seq<Round>,
    pub final_domain_gen_inv: nat,
    pub final_randomness_indexes: Seq<usize>,
    pub final_randomness_points: Seq<nat>,
    pub final_randomness_answers: Seq<Seq<nat>>,
    pub final_folding_randomness: Seq<nat>,
    pub final_sumcheck_rounds: Seq<(Quadratic, nat)>,
    pub final_sumcheck_randomness: Seq<nat>,
    pub final_coefficients: Seq<nat>,
}

/// What one round hands on to the next: the folding randomness, the root under which the next
/// queries are answered, and the rounds so far.
#[verifier::ext_equal]
pub struct Progress {
    pub folding_randomness: Seq<nat>,
    pub root: Seq<u8>,
    pub rounds: Seq<Round>,
}

/// The challenges of a sumcheck, the last one first.
pub open spec fn reversed_challenges(sumcheck: Seq<(Quadratic, nat)>) -> Seq<nat> {
    Seq::new(sumcheck.len(), |i: int| sumcheck[sumcheck.len() - 1 - i].1)
}

/// The generator's powers at `indexes`.
pub open spec fn points_at(p: nat, generator: nat, indexes: Seq<usize>) -> Seq<nat> {
    indexes.map_values(|i: usize| fpow(p, generator, i as nat))
}

/// Each round folds with the challenges of the sumcheck before it, the last one first; the final
/// folding is with those of the last round.
pub open spec fn chained_randomness(
    initial: Seq<(Quadratic, nat)>,
    rounds: Seq<Round>,
    last: Seq<nat>,
) -> bool
    decreases rounds.len(),
{
    if rounds.len() == 0 {
        last == reversed_challenges(initial)
    } else {
        &&& last == reversed_challenges(rounds.last().sumcheck_rounds)
        &&& chained_randomness(initial, rounds.drop_last(), rounds.last().folding_randomness)
    }
}

/// Out-of-domain samples: `n` points are drawn and the prover answers with as many values.
pub open spec fn parses_ood<F: PrimeField, T: Transcript<F>>(
    s: T::State,
    n: nat,
) -> Outcome<(Seq<nat>, Seq<nat>), T::State> {
    match draws_scalars::<F, T>(s, Seq::empty(), n) {
        Ok((points, drawn)) => match reads_scalars::<F, T>(drawn, Seq::empty(), n) {
            Ok((answers, after)) => Ok(((points, answers), after)),
            Err(e) => Err(e),
        },
        Err(e) => Err(e),
    }
}

/// A sumcheck of `n` rounds, after those in `seen`: each is a polynomial, a challenge and a proof
/// of work.
pub open spec fn parses_sumcheck<F: PrimeField, S: PowStrategy, T: Grinding<F, S>>(
    s: T::State,
    seen: Seq<(Quadratic, nat)>,
    n: nat,
    difficulty: Difficulty,
) -> Outcome<Seq<(Quadratic, nat)>, T::State>
    decreases n,
{
    if n == 0 {
        Ok((seen, s))
    } else {
        match reads_scalars::<F, T>(s, Seq::empty(), 3) {
            Ok((values, read)) => match T::draws_scalar(read) {
                Ok((challenge, drawn)) => match T::passes_work(drawn, difficulty) {
                    Ok((_, after)) => {
                        let polynomial = Quadratic {
                            at_zero: values[0],
                            at_one: values[1],
                            at_two: values[2],
                        };
                        parses_sumcheck::<F, S, T>(
                            after,
                            seen.push((polynomial, challenge)),
                            (n - 1) as nat,
                            difficulty,
                        )
                    },
                    Err(e) => Err(e),
                },
                Err(e) => Err(e),
            },
            Err(e) => Err(e),
        }
    }
}

impl<F: PrimeField, C, S: PowStrategy> WhirConfig<F, C, S> {
    /// The generator of the cosets in round `r`.
    pub open spec fn folded_gen(&self, r: nat) -> nat {
        fpow(
            F::modulus(),
            self.starting_domain.group_gen.val(),
            pow2(self.folding_factor as nat + r),
        )
    }

    /// The inverse of the generator of the domain in round `r`.
    pub open spec fn gen_inv(&self, r: nat) -> nat {
        fpow(F::modulus(), self.starting_domain.group_gen_inv.val(), pow2(r))
    }

    /// The commitment at the start of a transcript.
    pub open spec fn parses_commitment<T: Grinding<F, S>>(&self, s: T::State) -> Outcome<
        Commitment,
        T::State,
    > {
        match T::reads_bytes(s) {
            Ok((root, read)) => match parses_ood::<F, T>(
                read,
                self.committment_ood_samples as nat,
            ) {
                Ok(((ood_points, ood_answers), after)) => Ok(
                    (Commitment { root, ood_points, ood_answers }, after),
                ),
                Err(e) => Err(e),
            },
            Err(e) => Err(e),
        }
    }

    /// Round `r`: a new root, out-of-domain samples, queries under the last root, a proof of work,
    /// the randomness that combines the claims, and a sumcheck.
    pub open spec fn parses_round<T: Grinding<F, S>, P: MerkleOpening<C, F>>(
        &self,
        s: T::State,
        openings: Seq<(P, Vec<Vec<F>>)>,
        r: nat,
        progress: Progress,
    ) -> Outcome<Progress, T::State> {
        let round = self.round_parameters@[r as int];
        if r >= openings.len() {
            Err(Refusal { error: Fault::InvalidProof, state: Some(s) })
        } else {
            match T::reads_bytes(s) {
                Ok((root, s1)) => match parses_ood::<F, T>(s1, round.ood_samples as nat) {
                    Ok(((ood_points, ood_answers), s2)) => match T::draws_bytes(s2) {
                        Ok((seed, s3)) => {
                            let indexes = query_positions(
                                seed,
                                self.folded_size(r) as usize,
                                round.num_queries as nat,
                            );
                            let answers = rows(openings[r as int].1@);
                            if !shown::<C, F, P>(
                                openings[r as int].0,
                                progress.root,
                                indexes,
                                answers,
                            ) {
                                Err(Refusal { error: Fault::InvalidProof, state: Some(s3) })
                            } else {
                                match T::passes_work(s3, round.pow_bits) {
                                    Ok((_, s4)) => match T::draws_scalar(s4) {
                                        Ok((gen, s5)) => match parses_sumcheck::<F, S, T>(
                                            s5,
                                            Seq::empty(),
                                            self.folding_factor as nat,
                                            round.folding_pow_bits,
                                        ) {
                                            Ok((sumcheck, after)) => Ok(
                                                (
                                                    Progress {
                                                        folding_randomness: reversed_challenges(
                                                            sumcheck,
                                                        ),
                                                        root,
                                                        rounds: progress.rounds.push(
                                                            Round {
                                                                folding_randomness:
                                                                    progress.folding_randomness,
                                                                ood_points,
                                                                ood_answers,
                                                                stir_challenges_indexes: indexes,
                                                                stir_challenges_points: points_at(
                                                                    F::modulus(),
                                                                    self.folded_gen(r),
                                                                    indexes,
                                                                ),
                                                                stir_challenges_answers: answers,
                                                                combination_randomness: powers(
                                                                    F::modulus(),
                                                                    gen,
                                                                    indexes.len()
                                                                        + round.ood_samples as nat,
                                                                ),
                                                                sumcheck_rounds: sumcheck,
                                                                domain_gen_inv: self.gen_inv(r),
                                                            },
                                                        ),
                                                    },
                                                    after,
                                                ),
                                            ),
                                            Err(e) => Err(e),
                                        },
                                        Err(e) => Err(e),
                                    },
                                    Err(e) => Err(e),
                                }
                            }
                        },
                        Err(e) => Err(e),
                    },
                    Err(e) => Err(e),
                },
                Err(e) => Err(e),
            }
        }
    }

    /// The rounds from `r` on.
    pub open spec fn parses_rounds<T: Grinding<F, S>, P: MerkleOpening<C, F>>(
        &self,
        s: T::State,
        openings: Seq<(P, Vec<Vec<F>>)>,
        r: nat,
        progress: Progress,
    ) -> Outcome<Progress, T::State>
        decreases self.rounds() - r,
    {
        if r >= self.rounds() {
            Ok((progress, s))
        } else {
            match self.parses_round::<T, P>(s, openings, r, progress) {
                Ok((next, after)) => self.parses_rounds::<T, P>(after, openings, r + 1, next),
                Err(e) => Err(e),
            }
        }
    }

    /// The end: the final polynomial, queries under the last root with the last of the openings, a
    /// proof of work, and a sumcheck.
    pub open spec fn parses_final<T: Grinding<F, S>, P: MerkleOpening<C, F>>(
        &self,
        s: T::State,
        openings: Seq<(P, Vec<Vec<F>>)>,
        initial_combination_randomness: Seq<nat>,
        initial_sumcheck_rounds: Seq<(Quadratic, nat)>,
        progress: Progress,
    ) -> Outcome<Messages, T::State> {
        match reads_scalars::<F, T>(
            s,
            Seq::empty(),
            pow2(self.final_sumcheck_rounds as nat),
        ) {
            Ok((coefficients, s1)) => match T::draws_bytes(s1) {
                Ok((seed, s2)) => {
                    let indexes = query_positions(
                        seed,
                        self.folded_size(self.rounds()) as usize,
                        self.final_queries as nat,
                    );
                    let answers = rows(openings.last().1@);
                    if openings.len() == 0 || !shown::<C, F, P>(
                        openings.last().0,
                        progress.root,
                        indexes,
                        answers,
                    ) {
                        Err(Refusal { error: Fault::InvalidProof, state: Some(s2) })
                    } else {
                        match T::passes_work(s2, self.final_pow_bits) {
                            Ok((_, s3)) => match parses_sumcheck::<F, S, T>(
                                s3,
                                Seq::empty(),
                                self.final_sumcheck_rounds as nat,
                                self.final_folding_pow_bits,
                            ) {
                                Ok((sumcheck, after)) => Ok(
                                    (
                                        Messages {
                                            initial_combination_randomness,
                                            initial_sumcheck_rounds,
                                            rounds: progress.rounds,
                                            final_domain_gen_inv: self.gen_inv(self.rounds()),
                                            final_randomness_indexes: indexes,
                                            final_randomness_points: points_at(
                                                F::modulus(),
                                                self.folded_gen(self.rounds()),
                                                indexes,
                                            ),
                                            final_randomness_answers: answers,
                                            final_folding_randomness: progress.folding_randomness,
                                            final_sumcheck_rounds: sumcheck,
                                            final_sumcheck_randomness: reversed_challenges(
                                                sumcheck,
                                            ),
                                            final_coefficients: coefficients,
                                        },
                                        after,
                                    ),
                                ),
                                Err(e) => Err(e),
                            },
                            Err(e) => Err(e),
                        }
                    }
                },
                Err(e) => Err(e),
            },
            Err(e) => Err(e),
        }
    }

    /// Everything after the commitment, for `claims` claims about the committed polynomial.
    pub open spec fn parses_messages<T: Grinding<F, S>, P: MerkleOpening<C, F>>(
        &self,
        s: T::State,
        openings: Seq<(P, Vec<Vec<F>>)>,
        root: Seq<u8>,
        claims: nat,
    ) -> Outcome<Messages, T::State> {
        match T::draws_scalar(s) {
            Ok((gen, s1)) => match parses_sumcheck::<F, S, T>(
                s1,
                Seq::empty(),
                self.folding_factor as nat,
                self.starting_folding_pow_bits,
            ) {
                Ok((sumcheck, s2)) => match self.parses_rounds::<T, P>(
                    s2,
                    openings,
                    0,
                    Progress {
                        folding_randomness: reversed_challenges(sumcheck),
                        root,
                        rounds: Seq::empty(),
                    },
                ) {
                    Ok((progress, s3)) => self.parses_final::<T, P>(
                        s3,
                        openings,
                        powers(F::modulus(), gen, claims),
                        sumcheck,
                        progress,
                    ),
                    Err(e) => Err(e),
                },
                Err(e) => Err(e),
            },
            Err(e) => Err(e),
        }
    }
}

/// Out-of-domain samples are as many as were asked for.
pub proof fn lemma_ood_shape<F: PrimeField, T: Transcript<F>>(s: T::State, n: nat)
    ensures
        parses_ood::<F, T>(s, n) matches Ok(((points, answers), after)) ==> points.len() == n
            && answers.len() == n,
{
    lemma_scalars_len::<F, T>(s, Seq::empty(), n);
    if let Ok((points, drawn)) = draws_scalars::<F, T>(s, Seq::empty(), n) {
        lemma_scalars_len::<F, T>(drawn, Seq::empty(), n);
    }
}

/// A sumcheck has as many rounds as were asked for.
proof fn lemma_sumcheck_shape<F: PrimeField, S: PowStrategy, T: Grinding<F, S>>(
    s: T::State,
    seen: Seq<(Quadratic, nat)>,
    n: nat,
    difficulty: Difficulty,
)
    ensures
        parses_sumcheck::<F, S, T>(s, seen, n, difficulty) matches Ok((rounds, after))
            ==> rounds.len() == seen.len() + n,
    decreases n,
{
    if n > 0 {
        if let Ok((values, read)) = reads_scalars::<F, T>(s, Seq::empty(), 3) {
            if let Ok((challenge, drawn)) = T::draws_scalar(read) {
                if let Ok((_, after)) = T::passes_work(drawn, difficulty) {
                    let polynomial = Quadratic {
                        at_zero: values[0],
                        at_one: values[1],
                        at_two: values[2],
                    };
                    lemma_sumcheck_shape::<F, S, T>(
                        after,
                        seen.push((polynomial, challenge)),
                        (n - 1) as nat,
                        difficulty,
                    );
                }
            }
        }
    }
}

impl<F: PrimeField, C, S: PowStrategy> WhirConfig<F, C, S> {
    /// The messages of round `r` are as many as the parameters ask for.
    pub open spec fn round_shaped(&self, round: Round, r: nat) -> bool {
        let params = self.round_parameters@[r as int];
        &&& round.folding_randomness.len() == self.folding_factor
        &&& round.sumcheck_rounds.len() == self.folding_factor
        &&& round.ood_points.len() == params.ood_samples
        &&& round.ood_answers.len() == params.ood_samples
        &&& round.stir_challenges_points == points_at(
            F::modulus(),
            self.folded_gen(r),
            round.stir_challenges_indexes,
        )
        &&& round.combination_randomness.len() == round.stir_challenges_indexes.len()
            + params.ood_samples
        &&& round.domain_gen_inv == self.gen_inv(r)
    }

    /// The messages are as many as the parameters ask for.
    pub open spec fn shaped(&self, m: Messages) -> bool {
        &&& m.initial_sumcheck_rounds.len() == self.folding_factor
        &&& m.rounds.len() == self.rounds()
        &&& forall|r: int|
            0 <= r < m.rounds.len() ==> self.round_shaped(#[trigger] m.rounds[r], r as nat)
        &&& chained_randomness(
            m.initial_sumcheck_rounds,
            m.rounds,
            m.final_folding_randomness,
        )
        &&& m.final_folding_randomness.len() == self.folding_factor
        &&& m.final_domain_gen_inv == self.gen_inv(self.rounds())
        &&& m.final_randomness_points == points_at(
            F::modulus(),
            self.folded_gen(self.rounds()),
            m.final_randomness_indexes,
        )
        &&& m.final_sumcheck_rounds.len() == self.final_sumcheck_rounds
        &&& m.final_sumcheck_randomness == reversed_challenges(m.final_sumcheck_rounds)
        &&& m.final_coefficients.len() == pow2(self.final_sumcheck_rounds as nat)
    }

    /// A round keeps the shape.
    proof fn lemma_round_shape<T: Grinding<F, S>, P: MerkleOpening<C, F>>(
        &self,
        s: T::State,
        openings: Seq<(P, Vec<Vec<F>>)>,
        r: nat,
        progress: Progress,
        initial: Seq<(Quadratic, nat)>,
    )
        requires
            progress.rounds.len() == r,
            r < self.rounds(),
            progress.folding_randomness.len() == self.folding_factor,
            forall|i: int|
                0 <= i < progress.rounds.len() ==> self.round_shaped(
                    #[trigger] progress.rounds[i],
                    i as nat,
                ),
            chained_randomness(initial, progress.rounds, progress.folding_randomness),
        ensures
            self.parses_round::<T, P>(s, openings, r, progress) matches Ok((next, after)) ==> {
                &&& next.rounds.len() == r + 1
                &&& next.folding_randomness.len() == self.folding_factor
                &&& forall|i: int|
                    0 <= i < next.rounds.len() ==> self.round_shaped(
                        #[trigger] next.rounds[i],
                        i as nat,
                    )
                &&& chained_randomness(initial, next.rounds, next.folding_randomness)
            },
    {
        let round = self.round_parameters@[r as int];
        if let Ok((next, after)) = self.parses_round::<T, P>(s, openings, r, progress) {
            let (root, s1) = T::reads_bytes(s)->Ok_0;
            lemma_ood_shape::<F, T>(s1, round.ood_samples as nat);
            let (samples, s2) = parses_ood::<F, T>(s1, round.ood_samples as nat)->Ok_0;
            let (seed, s3) = T::draws_bytes(s2)->Ok_0;
            let s4 = T::passes_work(s3, round.pow_bits)->Ok_0.1;
            let (gen, s5) = T::draws_scalar(s4)->Ok_0;
            lemma_sumcheck_shape::<F, S, T>(
                s5,
                Seq::empty(),
                self.folding_factor as nat,
                round.folding_pow_bits,
            );
            assert(next.rounds.drop_last() =~= progress.rounds);
            assert forall|i: int| 0 <= i < next.rounds.len() implies self.round_shaped(
                #[trigger] next.rounds[i],
                i as nat,
            ) by {
                if i < r {
                    assert(next.rounds[i] == progress.rounds[i]);
                }
            }
        }
    }

    /// The rounds keep the shape.
    proof fn lemma_rounds_shape<T: Grinding<F, S>, P: MerkleOpening<C, F>>(
        &self,
        s: T::State,
        openings: Seq<(P, Vec<Vec<F>>)>,
        r: nat,
        progress: Progress,
        initial: Seq<(Quadratic, nat)>,
    )
        requires
            progress.rounds.len() == r,
            r <= self.rounds(),
            progress.folding_randomness.len() == self.folding_factor,
            forall|i: int|
                0 <= i < progress.rounds.len() ==> self.round_shaped(
                    #[trigger] progress.rounds[i],
                    i as nat,
                ),
            chained_randomness(initial, progress.rounds, progress.folding_randomness),
        ensures
            self.parses_rounds::<T, P>(s, openings, r, progress) matches Ok((next, after)) ==> {
                &&& next.rounds.len() == self.rounds()
                &&& next.folding_randomness.len() == self.folding_factor
                &&& forall|i: int|
                    0 <= i < next.rounds.len() ==> self.round_shaped(
                        #[trigger] next.rounds[i],
                        i as nat,
                    )
                &&& chained_randomness(initial, next.rounds, next.folding_randomness)
            },
        decreases self.rounds() - r,
    {
        if r < self.rounds() {
            self.lemma_round_shape::<T, P>(s, openings, r, progress, initial);
            if let Ok((next, after)) = self.parses_round::<T, P>(s, openings, r, progress) {
                self.lemma_rounds_shape::<T, P>(after, openings, r + 1, next, initial);
            }
        }
    }

    /// A transcript that is read to its end has as many messages as the parameters ask for.
    pub proof fn law_messages_shaped<T: Grinding<F, S>, P: MerkleOpening<C, F>>(
        &self,
        s: T::State,
        openings: Seq<(P, Vec<Vec<F>>)>,
        root: Seq<u8>,
        claims: nat,
    )
        ensures
            self.parses_messages::<T, P>(s, openings, root, claims) matches Ok((m, after))
                ==> self.shaped(m) && m.initial_combination_randomness.len() == claims,
    {
        if let Ok((m, after)) = self.parses_messages::<T, P>(s, openings, root, claims) {
            let (gen, s1) = T::draws_scalar(s)->Ok_0;
            lemma_sumcheck_shape::<F, S, T>(
                s1,
                Seq::empty(),
                self.folding_factor as nat,
                self.starting_folding_pow_bits,
            );
            let (sumcheck, s2) = parses_sumcheck::<F, S, T>(
                s1,
                Seq::empty(),
                self.folding_factor as nat,
                self.starting_folding_pow_bits,
            )->Ok_0;
            let start = Progress {
                folding_randomness: reversed_challenges(sumcheck),
                root,
                rounds: Seq::empty(),
            };
            self.lemma_rounds_shape::<T, P>(s2, openings, 0, start, sumcheck);
            let (progress, s3) = self.parses_rounds::<T, P>(s2, openings, 0, start)->Ok_0;
            let n = pow2(self.final_sumcheck_rounds as nat);
            lemma_scalars_len::<F, T>(s3, Seq::empty(), n);
            let (coefficients, s4) = reads_scalars::<F, T>(s3, Seq::empty(), n)->Ok_0;
            let (seed, s5) = T::draws_bytes(s4)->Ok_0;
            let s6 = T::passes_work(s5, self.final_pow_bits)->Ok_0.1;
            lemma_sumcheck_shape::<F, S, T>(
                s6,
                Seq::empty(),
                self.final_sumcheck_rounds as nat,
                self.final_folding_pow_bits,
            );
        }
    }
}

impl<F: PrimeField, C, S: PowStrategy> WhirConfig<F, C, S> {
    /// The positions that round `r` queries increase, and each is that of a coset.
    pub open spec fn round_within(&self, round: Round, r: nat) -> bool {
        increasing_below(round.stir_challenges_indexes, self.folded_size(r))
    }

    /// The queried positions increase, and each is that of a coset.
    pub open spec fn queries_within(&self, m: Messages) -> bool {
        &&& forall|r: int|
            0 <= r < m.rounds.len() ==> self.round_within(#[trigger] m.rounds[r], r as nat)
        &&& increasing_below(m.final_randomness_indexes, self.folded_size(self.rounds()))
    }

    /// The size of a folded domain fits into a word.
    pub proof fn lemma_folded_size_fits(&self, r: nat)
        ensures
            self.folded_size(r) <= usize::MAX,
    {
        lemma_pow2_pos(r);
        lemma_pow2_pos(self.folding_factor as nat);
        vstd::arithmetic::div_mod::lemma_div_is_ordered_by_denominator(
            self.starting_domain.size as int,
            1,
            pow2(r) as int,
        );
        vstd::arithmetic::div_mod::lemma_div_is_ordered_by_denominator(
            self.domain_size(r) as int,
            1,
            self.coset_size() as int,
        );
    }

    /// The rounds query positions of cosets.
    proof fn lemma_rounds_within<T: Grinding<F, S>, P: MerkleOpening<C, F>>(
        &self,
        s: T::State,
        openings: Seq<(P, Vec<Vec<F>>)>,
        r: nat,
        progress: Progress,
    )
        requires
            self.wf(),
            progress.rounds.len() == r,
            r <= self.rounds(),
            forall|i: int|
                0 <= i < progress.rounds.len() ==> self.round_within(
                    #[trigger] progress.rounds[i],
                    i as nat,
                ),
        ensures
            self.parses_rounds::<T, P>(s, openings, r, progress) matches Ok((next, after)) ==> {
                forall|i: int|
                    0 <= i < next.rounds.len() ==> self.round_within(
                        #[trigger] next.rounds[i],
                        i as nat,
                    )
            },
        decreases self.rounds() - r,
    {
        if r < self.rounds() {
            if let Ok((next, after)) = self.parses_round::<T, P>(s, openings, r, progress) {
                let round = self.round_parameters@[r as int];
                let (root, s1) = T::reads_bytes(s)->Ok_0;
                let (samples, s2) = parses_ood::<F, T>(s1, round.ood_samples as nat)->Ok_0;
                let (seed, s3) = T::draws_bytes(s2)->Ok_0;
                self.lemma_folded_size_fits(r);
                law_positions(seed, self.folded_size(r) as usize, round.num_queries as nat);
                assert forall|i: int| 0 <= i < next.rounds.len() implies self.round_within(
                    #[trigger] next.rounds[i],
                    i as nat,
                ) by {
                    if i < r {
                        assert(next.rounds[i] == progress.rounds[i]);
                    }
                }
                self.lemma_rounds_within::<T, P>(after, openings, r + 1, next);
            }
        }
    }

    /// Whatever the transcript says, the positions that are queried in a round increase, and each
    /// is that of a coset of the round's domain.
    pub proof fn law_queries_within<T: Grinding<F, S>, P: MerkleOpening<C, F>>(
        &self,
        s: T::State,
        openings: Seq<(P, Vec<Vec<F>>)>,
        root: Seq<u8>,
        claims: nat,
    )
        requires
            self.wf(),
        ensures
            self.parses_messages::<T, P>(s, openings, root, claims) matches Ok((m, after))
                ==> self.queries_within(m),
    {
        if let Ok((m, after)) = self.parses_messages::<T, P>(s, openings, root, claims) {
            let (gen, s1) = T::draws_scalar(s)->Ok_0;
            let (sumcheck, s2) = parses_sumcheck::<F, S, T>(
                s1,
                Seq::empty(),
                self.folding_factor as nat,
                self.starting_folding_pow_bits,
            )->Ok_0;
            let start = Progress {
                folding_randomness: reversed_challenges(sumcheck),
                root,
                rounds: Seq::empty(),
            };
            self.lemma_rounds_within::<T, P>(s2, openings, 0, start);
            let (progress, s3) = self.parses_rounds::<T, P>(s2, openings, 0, start)->Ok_0;
            let n = pow2(self.final_sumcheck_rounds as nat);
            let (coefficients, s4) = reads_scalars::<F, T>(s3, Seq::empty(), n)->Ok_0;
            let (seed, s5) = T::draws_bytes(s4)->Ok_0;
            self.lemma_folded_size_fits(self.rounds());
            law_positions(
                seed,
                self.folded_size(self.rounds()) as usize,
                self.final_queries as nat,
            );
        }
    }
}

/// The value that the last polynomial of a sumcheck leaves to be checked, where the first one has
/// to sum to `claim`.
pub open spec fn claim_after(p: nat, claim: nat, sumcheck: Seq<(Quadratic, nat)>, n: int) -> nat {
    if n == 0 {
        claim
    } else {
        sumcheck[n - 1].0.at(p, sumcheck[n - 1].1)
    }
}

/// Each polynomial of the sumcheck sums to what the one before it left to be checked.
pub open spec fn sumcheck_holds(p: nat, claim: nat, sumcheck: Seq<(Quadratic, nat)>) -> bool {
    forall|i: int|
        0 <= i < sumcheck.len() ==> (#[trigger] sumcheck[i]).0.sum(p) == claim_after(
            p,
            claim,
            sumcheck,
            i,
        )
}

/// The claim with which the sumcheck of a round starts: what is left of the last one, and the
/// values that the round adds.
pub open spec fn round_claim(p: nat, left: nat, round: Round, folds: Seq<nat>) -> nat {
    fadd(p, left, dot(p, round.ood_answers + folds, round.combination_randomness))
}

/// What is left to be checked after the first `n` rounds.
pub open spec fn claim_after_rounds(
    p: nat,
    claim: nat,
    rounds: Seq<Round>,
    folds: Seq<Seq<nat>>,
    n: nat,
) -> nat
    decreases n,
{
    if n == 0 {
        claim
    } else {
        let left = claim_after_rounds(p, claim, rounds, folds, (n - 1) as nat);
        let round = rounds[n - 1];
        claim_after(
            p,
            round_claim(p, left, round, folds[n - 1]),
            round.sumcheck_rounds,
            round.sumcheck_rounds.len() as int,
        )
    }
}

/// The sumcheck of round `i` starts at its claim and holds.
pub open spec fn round_holds(
    p: nat,
    claim: nat,
    rounds: Seq<Round>,
    folds: Seq<Seq<nat>>,
    i: int,
) -> bool {
    let left = claim_after_rounds(p, claim, rounds, folds, i as nat);
    sumcheck_holds(p, round_claim(p, left, rounds[i], folds[i]), rounds[i].sumcheck_rounds)
}

/// The sumcheck of every round starts at its claim and holds.
pub open spec fn rounds_hold(
    p: nat,
    claim: nat,
    rounds: Seq<Round>,
    folds: Seq<Seq<nat>>,
) -> bool {
    forall|i: int| 0 <= i < rounds.len() ==> #[trigger] round_holds(p, claim, rounds, folds, i)
}

/// The folding randomness of the rounds, the last round first.
pub open spec fn rounds_randomness(rounds: Seq<Round>) -> Seq<nat>
    decreases rounds.len(),
{
    if rounds.len() == 0 {
        Seq::empty()
    } else {
        rounds.last().folding_randomness + rounds_randomness(rounds.drop_last())
    }
}

impl Messages {
    /// The point at which all the foldings together evaluate the committed polynomial.
    pub open spec fn full_point(&self) -> Seq<nat> {
        self.final_sumcheck_randomness + self.final_folding_randomness + rounds_randomness(
            self.rounds,
        )
    }
}

/// The elements agree, as far as both lists reach.
pub open spec fn agrees(xs: Seq<nat>, ys: Seq<nat>) -> bool {
    forall|i: int| 0 <= i < xs.len() && i < ys.len() ==> #[trigger] xs[i] == ys[i]
}

/// The values at `point` of the equality polynomials of `points`.
pub open spec fn equalities(p: nat, points: Seq<Seq<nat>>, point: Seq<nat>) -> Seq<nat> {
    points.map_values(|x: Seq<nat>| eq_poly(p, x, point))
}

/// The points over `n` variables that stand for points of one variable.
pub open spec fn power_points(p: nat, points: Seq<nat>, n: nat) -> Seq<Seq<nat>> {
    points.map_values(|x: nat| power_point(p, x, n))
}

/// What the claims of the first `n` rounds add to the weight with which the final value is
/// multiplied, for polynomials in `vars` variables of which each round folds `k`.
pub open spec fn rounds_weight(
    p: nat,
    rounds: Seq<Round>,
    point: Seq<nat>,
    vars: nat,
    k: nat,
    start: nat,
    n: nat,
) -> nat
    decreases n,
{
    if n == 0 {
        start
    } else {
        let left = (vars - k * n) as nat;
        let round = rounds[n - 1];
        fadd(
            p,
            rounds_weight(p, rounds, point, vars, k, start, (n - 1) as nat),
            dot(
                p,
                equalities(
                    p,
                    power_points(p, round.ood_points + round.stir_challenges_points, left),
                    point.take(left as int),
                ),
                round.combination_randomness,
            ),
        )
    }
}

impl<F: PrimeField, C, S> WhirConfig<F, C, S> {
    /// The values that the answers hold, folded each on the coset of its index. The domain falls
    /// into `cosets` cosets, and `gen_inv` is the inverse of its generator.
    pub open spec fn full_folds(
        &self,
        indexes: Seq<usize>,
        answers: Seq<Seq<nat>>,
        randomness: Seq<nat>,
        gen_inv: nat,
        cosets: nat,
    ) -> Seq<nat> {
        let p = F::modulus();
        Seq::new(
            if indexes.len() <= answers.len() {
                indexes.len()
            } else {
                answers.len()
            },
            |i: int|
                fold(
                    p,
                    answers[i],
                    randomness,
                    fpow(p, gen_inv, indexes[i] as nat),
                    fpow(p, gen_inv, cosets),
                    half(p),
                    self.folding_factor as nat,
                ),
        )
    }

    /// The values of the polynomials whose coefficients the answers hold.
    pub open spec fn helped_folds(&self, answers: Seq<Seq<nat>>, randomness: Seq<nat>) -> Seq<nat> {
        answers.map_values(|answer: Seq<nat>| multilinear(F::modulus(), answer, randomness))
    }

    /// The folded values of the answers to one round of queries.
    pub open spec fn folds(
        &self,
        indexes: Seq<usize>,
        answers: Seq<Seq<nat>>,
        randomness: Seq<nat>,
        gen_inv: nat,
        cosets: nat,
    ) -> Seq<nat> {
        match self.fold_optimisation {
            FoldType::Naive => self.full_folds(indexes, answers, randomness, gen_inv, cosets),
            FoldType::ProverHelps => self.helped_folds(answers, randomness),
        }
    }

    /// The answers hold at least as many values as a coset has points.
    pub open spec fn full_foldable(&self, indexes: Seq<usize>, answers: Seq<Seq<nat>>) -> bool {
        forall|i: int|
            0 <= i < indexes.len() && i < answers.len() ==> (#[trigger] answers[i]).len()
                >= self.coset_size()
    }

    /// The answers hold as many coefficients as a coset has points.
    pub open spec fn helped_foldable(&self, answers: Seq<Seq<nat>>) -> bool {
        forall|i: int| 0 <= i < answers.len() ==> (#[trigger] answers[i]).len() == self.coset_size()
    }

    /// The answers have the length that their folding asks for.
    pub open spec fn foldable(&self, indexes: Seq<usize>, answers: Seq<Seq<nat>>) -> bool {
        match self.fold_optimisation {
            FoldType::Naive => self.full_foldable(indexes, answers),
            FoldType::ProverHelps => self.helped_foldable(answers),
        }
    }

    /// The folded answers of round `r`.
    pub open spec fn round_folds(&self, round: Round, r: nat) -> Seq<nat> {
        self.folds(
            round.stir_challenges_indexes,
            round.stir_challenges_answers,
            round.folding_randomness,
            round.domain_gen_inv,
            self.folded_size(r),
        )
    }

    /// The folded answers of each round.
    pub open spec fn all_folds(&self, rounds: Seq<Round>) -> Seq<Seq<nat>> {
        Seq::new(rounds.len(), |r: int| self.round_folds(rounds[r], r as nat))
    }

    /// The folded answers to the final queries.
    pub open spec fn final_folds(&self, m: Messages) -> Seq<nat> {
        self.folds(
            m.final_randomness_indexes,
            m.final_randomness_answers,
            m.final_folding_randomness,
            m.final_domain_gen_inv,
            self.folded_size(m.rounds.len()),
        )
    }

    /// The folded answers of each round, and after them those to the final queries.
    pub open spec fn every_fold(&self, m: Messages) -> Seq<Seq<nat>> {
        self.all_folds(m.rounds).push(self.final_folds(m))
    }

    /// All answers can be folded.
    pub open spec fn all_foldable(&self, m: Messages) -> bool {
        &&& forall|r: int|
            0 <= r < m.rounds.len() ==> self.foldable(
                (#[trigger] m.rounds[r]).stir_challenges_indexes,
                m.rounds[r].stir_challenges_answers,
            )
        &&& self.foldable(m.final_randomness_indexes, m.final_randomness_answers)
    }

    /// The value at the full point of the weights that all the claims put on the polynomial.
    pub open spec fn weight(&self, c: Commitment, points: Seq<Seq<nat>>, m: Messages) -> nat {
        let p = F::modulus();
        let vars = self.mv_parameters.num_variables as nat;
        let start = dot(
            p,
            m.initial_combination_randomness,
            equalities(p, power_points(p, c.ood_points, vars) + points, m.full_point()),
        );
        rounds_weight(
            p,
            m.rounds,
            m.full_point(),
            vars,
            self.folding_factor as nat,
            start,
            m.rounds.len(),
        )
    }

    /// The claim with which the first sumcheck starts.
    pub open spec fn first_claim(&self, c: Commitment, values: Seq<nat>, m: Messages) -> nat {
        dot(F::modulus(), c.ood_answers + values, m.initial_combination_randomness)
    }

    /// What the rounds leave to be checked.
    pub open spec fn last_claim(&self, c: Commitment, values: Seq<nat>, m: Messages) -> nat {
        let p = F::modulus();
        claim_after_rounds(
            p,
            claim_after(
                p,
                self.first_claim(c, values, m),
                m.initial_sumcheck_rounds,
                m.initial_sumcheck_rounds.len() as int,
            ),
            m.rounds,
            self.all_folds(m.rounds),
            m.rounds.len(),
        )
    }

    /// The messages are consistent with the claim that the committed polynomial takes `values` at
    /// `points`.
    pub open spec fn consistent(
        &self,
        c: Commitment,
        points: Seq<Seq<nat>>,
        values: Seq<nat>,
        m: Messages,
    ) -> bool {
        let p = F::modulus();
        let first = self.first_claim(c, values, m);
        let last = self.last_claim(c, values, m);
        &&& self.all_foldable(m)
        &&& sumcheck_holds(p, first, m.initial_sumcheck_rounds)
        &&& rounds_hold(
            p,
            claim_after(
                p,
                first,
                m.initial_sumcheck_rounds,
                m.initial_sumcheck_rounds.len() as int,
            ),
            m.rounds,
            self.all_folds(m.rounds),
        )
        &&& agrees(
            self.final_folds(m),
            m.final_randomness_points.map_values(
                |x: nat| univariate(p, m.final_coefficients, x),
            ),
        )
        &&& sumcheck_holds(p, last, m.final_sumcheck_rounds)
        &&& claim_after(
            p,
            last,
            m.final_sumcheck_rounds,
            m.final_sumcheck_rounds.len() as int,
        ) == fmul(
            p,
            self.weight(c, points, m),
            multilinear(p, m.final_coefficients, m.final_sumcheck_randomness),
        )
    }
}

impl<F: PrimeField, C, S: PowStrategy> WhirConfig<F, C, S> {
    /// Each round accounts for as many coordinates as it folds.
    proof fn lemma_rounds_randomness_len(&self, rounds: Seq<Round>)
        requires
            rounds.len() <= self.rounds(),
            forall|r: int|
                0 <= r < rounds.len() ==> self.round_shaped(#[trigger] rounds[r], r as nat),
        ensures
            rounds_randomness(rounds).len() == self.folding_factor * rounds.len(),
        decreases rounds.len(),
    {
        if rounds.len() > 0 {
            let n = (rounds.len() - 1) as nat;
            assert(self.round_shaped(rounds[n as int], n));
            assert forall|r: int| 0 <= r < n implies self.round_shaped(
                #[trigger] rounds.drop_last()[r],
                r as nat,
            ) by {
                assert(self.round_shaped(rounds[r], r as nat));
            }
            self.lemma_rounds_randomness_len(rounds.drop_last());
            assert(self.folding_factor * (n + 1) == self.folding_factor * n + self.folding_factor)
                by (nonlinear_arith);
        } else {
            assert(self.folding_factor * 0 == 0);
        }
    }

    /// The full point has a coordinate for every variable.
    pub proof fn lemma_full_point_len(&self, m: Messages)
        requires
            self.wf(),
            self.shaped(m),
        ensures
            m.full_point().len() == self.mv_parameters.num_variables,
    {
        self.lemma_rounds_randomness_len(m.rounds);
        assert(self.folding_factor * (self.rounds() + 1) == self.folding_factor * self.rounds()
            + self.folding_factor) by (nonlinear_arith);
    }

    /// The pass over a transcript and openings that reads the messages and draws the challenges,
    /// for a statement about `points` points.
    pub open spec fn first_pass<T: Grinding<F, S>, P: MerkleOpening<C, F>>(
        &self,
        s: T::State,
        openings: Seq<(P, Vec<Vec<F>>)>,
        points: nat,
    ) -> Outcome<(Commitment, Messages), T::State> {
        match self.parses_commitment::<T>(s) {
            Ok((c, s1)) => match self.parses_messages::<T, P>(
                s1,
                openings,
                c.root,
                c.ood_points.len() + points,
            ) {
                Ok((m, after)) => Ok(((c, m), after)),
                Err(e) => Err(e),
            },
            Err(e) => Err(e),
        }
    }

    /// What a verifier decides about a transcript and openings: whether they show that the
    /// committed polynomial takes `values` at `points`.
    pub open spec fn verdict<T: Grinding<F, S>, P: MerkleOpening<C, F>>(
        &self,
        s: T::State,
        openings: Seq<(P, Vec<Vec<F>>)>,
        points: Seq<Seq<nat>>,
        values: Seq<nat>,
    ) -> Outcome<(), T::State> {
        match self.first_pass::<T, P>(s, openings, points.len()) {
            Ok(((c, m), after)) => if self.consistent(c, points, values, m) {
                Ok(((), after))
            } else {
                Err(Refusal { error: Fault::InvalidProof, state: Some(after) })
            },
            Err(e) => Err(e),
        }
    }
}

} // verus!
