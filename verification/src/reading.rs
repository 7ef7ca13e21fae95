//! What the first pass reads and draws, step by step: each law takes the steps that a transcript
//! allows, and says what comes of them.
use crate::evm_merkle::MerkleOpening;
use crate::field::{rows, PrimeField};
use crate::parameters::WhirConfig;
use crate::poly::powers;
use crate::protocol::{
    parses_ood, parses_sumcheck, points_at, Commitment, Messages, Progress, Round,
};
use crate::queries::query_positions;
use crate::sumcheck::Quadratic;
use crate::transcript::{
    draws_scalars, reads_scalars, Difficulty, Fault, Grinding, Outcome, PowStrategy, Refusal,
    Transcript,
};
use vstd::arithmetic::power2::pow2;
use vstd::prelude::*;

verus! {

/// The outcome of steps that all went well.
pub open spec fn done<V, S>(value: V, state: S) -> Outcome<V, S> {
    Ok((value, state))
}

/// The outcome of steps of which one was refused.
pub open spec fn stopped<V, S>(refusal: Refusal<S>) -> Outcome<V, S> {
    Err(refusal)
}

/// The outcome of steps after which a check failed.
pub open spec fn invalid<V, S>(state: S) -> Outcome<V, S> {
    Err(Refusal { error: Fault::InvalidProof, state: Some(state) })
}

/// `n` field elements are read one after another: all of them, each in the state that the one
/// before it left; or up to the first that is refused.
pub proof fn law_scalars_read_in_turn<F: PrimeField, T: Transcript<F>>(
    states: Seq<T::State>,
    xs: Seq<nat>,
    seen: Seq<nat>,
    n: nat,
)
    requires
        states.len() == xs.len() + 1,
        forall|i: int|
            0 <= i < xs.len() ==> T::reads_scalar(#[trigger] states[i]) == done(
                xs[i],
                states[i + 1],
            ),
    ensures
        xs.len() == n ==> reads_scalars::<F, T>(states[0], seen, n) == done(
            seen + xs,
            states.last(),
        ),
        xs.len() < n ==> (T::reads_scalar(states.last()) matches Err(e) ==> reads_scalars::<F, T>(
            states[0],
            seen,
            n,
        ) == stopped::<Seq<nat>, T::State>(e)),
    decreases xs.len(),
{
    if xs.len() == 0 {
        assert(seen + xs =~= seen);
    } else if xs.len() <= n {
        let tail = states.drop_first();
        let rest = xs.drop_first();
        assert(T::reads_scalar(states[0]) == done(xs[0], states[1]));
        assert forall|i: int| 0 <= i < rest.len() implies T::reads_scalar(#[trigger] tail[i])
            == done(rest[i], tail[i + 1]) by {
            assert(T::reads_scalar(states[i + 1]) == done(xs[i + 1], states[i + 2]));
        }
        law_scalars_read_in_turn::<F, T>(tail, rest, seen.push(xs[0]), (n - 1) as nat);
        assert(seen.push(xs[0]) + rest =~= seen + xs);
    }
}

/// `n` field elements are drawn one after another, in the same way.
pub proof fn law_scalars_drawn_in_turn<F: PrimeField, T: Transcript<F>>(
    states: Seq<T::State>,
    xs: Seq<nat>,
    seen: Seq<nat>,
    n: nat,
)
    requires
        states.len() == xs.len() + 1,
        forall|i: int|
            0 <= i < xs.len() ==> T::draws_scalar(#[trigger] states[i]) == done(
                xs[i],
                states[i + 1],
            ),
    ensures
        xs.len() == n ==> draws_scalars::<F, T>(states[0], seen, n) == done(
            seen + xs,
            states.last(),
        ),
        xs.len() < n ==> (T::draws_scalar(states.last()) matches Err(e) ==> draws_scalars::<F, T>(
            states[0],
            seen,
            n,
        ) == stopped::<Seq<nat>, T::State>(e)),
    decreases xs.len(),
{
    if xs.len() == 0 {
        assert(seen + xs =~= seen);
    } else if xs.len() <= n {
        let tail = states.drop_first();
        let rest = xs.drop_first();
        assert(T::draws_scalar(states[0]) == done(xs[0], states[1]));
        assert forall|i: int| 0 <= i < rest.len() implies T::draws_scalar(#[trigger] tail[i])
            == done(rest[i], tail[i + 1]) by {
            assert(T::draws_scalar(states[i + 1]) == done(xs[i + 1], states[i + 2]));
        }
        law_scalars_drawn_in_turn::<F, T>(tail, rest, seen.push(xs[0]), (n - 1) as nat);
        assert(seen.push(xs[0]) + rest =~= seen + xs);
    }
}

/// Out-of-domain samples: `n` points are drawn, and then as many answers are read.
pub proof fn law_samples_read<F: PrimeField, T: Transcript<F>>(
    s: T::State,
    n: nat,
    points: Seq<nat>,
    s1: T::State,
    answers: Seq<nat>,
    s2: T::State,
)
    ensures
        draws_scalars::<F, T>(s, Seq::empty(), n) matches Err(e) ==> parses_ood::<F, T>(s, n)
            == stopped::<(Seq<nat>, Seq<nat>), T::State>(e),
        draws_scalars::<F, T>(s, Seq::empty(), n) == done(points, s1) ==> (reads_scalars::<F, T>(
            s1,
            Seq::empty(),
            n,
        ) matches Err(e) ==> parses_ood::<F, T>(s, n) == stopped::<
            (Seq<nat>, Seq<nat>),
            T::State,
        >(e)),
        draws_scalars::<F, T>(s, Seq::empty(), n) == done(points, s1) && reads_scalars::<F, T>(
            s1,
            Seq::empty(),
            n,
        ) == done(answers, s2) ==> parses_ood::<F, T>(s, n) == done((points, answers), s2),
{
}

/// One round of a sumcheck: three values are read, the challenge is drawn, and the work is passed.
pub open spec fn sumcheck_round_read<F: PrimeField, S: PowStrategy, T: Grinding<F, S>>(
    s: T::State,
    difficulty: Difficulty,
) -> Outcome<(Quadratic, nat), T::State> {
    match reads_scalars::<F, T>(s, Seq::empty(), 3) {
        Err(e) => Err(e),
        Ok((v, s1)) => match T::draws_scalar(s1) {
            Err(e) => Err(e),
            Ok((x, s2)) => match T::passes_work(s2, difficulty) {
                Err(e) => Err(e),
                Ok((_, s3)) => Ok(
                    ((Quadratic { at_zero: v[0], at_one: v[1], at_two: v[2] }, x), s3),
                ),
            },
        },
    }
}

/// A sumcheck of `n` rounds is read round by round: all of them, or up to the first that is
/// refused.
pub proof fn law_sumcheck_read_in_turn<F: PrimeField, S: PowStrategy, T: Grinding<F, S>>(
    states: Seq<T::State>,
    rounds: Seq<(Quadratic, nat)>,
    seen: Seq<(Quadratic, nat)>,
    n: nat,
    difficulty: Difficulty,
)
    requires
        states.len() == rounds.len() + 1,
        forall|i: int|
            0 <= i < rounds.len() ==> sumcheck_round_read::<F, S, T>(
                #[trigger] states[i],
                difficulty,
            ) == done(rounds[i], states[i + 1]),
    ensures
        rounds.len() == n ==> parses_sumcheck::<F, S, T>(states[0], seen, n, difficulty) == done(
            seen + rounds,
            states.last(),
        ),
        rounds.len() < n ==> (sumcheck_round_read::<F, S, T>(states.last(), difficulty) matches Err(
            e,
        ) ==> parses_sumcheck::<F, S, T>(states[0], seen, n, difficulty) == stopped::<
            Seq<(Quadratic, nat)>,
            T::State,
        >(e)),
    decreases rounds.len(),
{
    if rounds.len() == 0 {
        assert(seen + rounds =~= seen);
    } else if rounds.len() <= n {
        let tail = states.drop_first();
        let rest = rounds.drop_first();
        assert(sumcheck_round_read::<F, S, T>(states[0], difficulty) == done(rounds[0], states[1]));
        assert forall|i: int| 0 <= i < rest.len() implies sumcheck_round_read::<F, S, T>(
            #[trigger] tail[i],
            difficulty,
        ) == done(rest[i], tail[i + 1]) by {
            assert(sumcheck_round_read::<F, S, T>(states[i + 1], difficulty) == done(
                rounds[i + 1],
                states[i + 2],
            ));
        }
        law_sumcheck_read_in_turn::<F, S, T>(
            tail,
            rest,
            seen.push(rounds[0]),
            (n - 1) as nat,
            difficulty,
        );
        assert(seen.push(rounds[0]) + rest =~= seen + rounds);
    }
}

impl<F: PrimeField, C, S: PowStrategy> WhirConfig<F, C, S> {
    /// The commitment: the root is read, and then the samples.
    pub proof fn law_commitment_read<T: Grinding<F, S>>(
        &self,
        s: T::State,
        root: Seq<u8>,
        s1: T::State,
        points: Seq<nat>,
        answers: Seq<nat>,
        s2: T::State,
    )
        ensures
            T::reads_bytes(s) matches Err(e) ==> self.parses_commitment::<T>(s) == stopped::<
                Commitment,
                T::State,
            >(e),
            T::reads_bytes(s) == done(root, s1) ==> (parses_ood::<F, T>(
                s1,
                self.committment_ood_samples as nat,
            ) matches Err(e) ==> self.parses_commitment::<T>(s) == stopped::<
                Commitment,
                T::State,
            >(e)),
            T::reads_bytes(s) == done(root, s1) && parses_ood::<F, T>(
                s1,
                self.committment_ood_samples as nat,
            ) == done((points, answers), s2) ==> self.parses_commitment::<T>(s) == done(
                (Commitment { root, ood_points: points, ood_answers: answers }),
                s2,
            ),
    {
    }

    /// The steps of round `r` up to the seed of its queries, as they went.
    pub open spec fn round_starts<T: Grinding<F, S>>(
        &self,
        s: T::State,
        r: nat,
        root: Seq<u8>,
        points: Seq<nat>,
        answers: Seq<nat>,
        seed: Seq<u8>,
        after: T::State,
    ) -> bool {
        let n = self.round_parameters@[r as int].ood_samples as nat;
        exists|s1: T::State, s2: T::State|
            #![trigger parses_ood::<F, T>(s1, n), T::draws_bytes(s2)]
            T::reads_bytes(s) == done(root, s1) && parses_ood::<F, T>(s1, n) == done(
                (points, answers),
                s2,
            ) && T::draws_bytes(s2) == done(seed, after)
    }

    /// Round `r`, where the root and the samples were read and the seed of the queries was drawn.
    /// Without an opening for it nothing is read. What does not authenticate, or names other
    /// indexes than the drawn ones, is refused there; then come the work, the challenge that
    /// combines the claims, and the sumcheck; and the round is all of this.
    pub proof fn law_round_read<T: Grinding<F, S>, P: MerkleOpening<C, F>>(
        &self,
        s: T::State,
        openings: Seq<(P, Vec<Vec<F>>)>,
        r: nat,
        progress: Progress,
        root: Seq<u8>,
        points: Seq<nat>,
        answers: Seq<nat>,
        seed: Seq<u8>,
        s3: T::State,
        s4: T::State,
        gen: nat,
        s5: T::State,
        sumcheck: Seq<(Quadratic, nat)>,
        s6: T::State,
    )
        requires
            self.round_starts::<T>(s, r, root, points, answers, seed, s3),
        ensures
            ({
                let p = F::modulus();
                let params = self.round_parameters@[r as int];
                let (opening, leaves) = openings[r as int];
                let indexes = query_positions(
                    seed,
                    self.folded_size(r) as usize,
                    params.num_queries as nat,
                );
                let shows = opening.authenticates(progress.root, indexes, rows(leaves@)) && (
                opening.positions() is None || opening.positions() == Some(indexes));
                let parse = self.parses_round::<T, P>(s, openings, r, progress);
                let sumcheck_read = parses_sumcheck::<F, S, T>(
                    s5,
                    Seq::empty(),
                    self.folding_factor as nat,
                    params.folding_pow_bits,
                );
                let round = Round {
                    folding_randomness: progress.folding_randomness,
                    ood_points: points,
                    ood_answers: answers,
                    stir_challenges_indexes: indexes,
                    stir_challenges_points: points_at(p, self.folded_gen(r), indexes),
                    stir_challenges_answers: rows(leaves@),
                    combination_randomness: powers(
                        p,
                        gen,
                        indexes.len() + params.ood_samples as nat,
                    ),
                    sumcheck_rounds: sumcheck,
                    domain_gen_inv: self.gen_inv(r),
                };
                let worked = T::passes_work(s3, params.pow_bits) == done((), s4);
                let combined = T::draws_scalar(s4) == done(gen, s5);
                &&& r >= openings.len() ==> parse == invalid::<Progress, T::State>(s)
                &&& r < openings.len() && !shows ==> parse == invalid::<Progress, T::State>(s3)
                &&& r < openings.len() && shows && T::passes_work(s3, params.pow_bits) is Err
                    ==> parse == stopped::<Progress, T::State>(
                    T::passes_work(s3, params.pow_bits)->Err_0,
                )
                &&& r < openings.len() && shows && worked && T::draws_scalar(s4) is Err ==> parse
                    == stopped::<Progress, T::State>(T::draws_scalar(s4)->Err_0)
                &&& r < openings.len() && shows && worked && combined && sumcheck_read is Err
                    ==> parse == stopped::<Progress, T::State>(sumcheck_read->Err_0)
                &&& r < openings.len() && shows && worked && combined && sumcheck_read == done(
                    sumcheck,
                    s6,
                ) ==> parse == done(
                    (Progress {
                        folding_randomness: Seq::new(
                            sumcheck.len(),
                            |i: int| sumcheck[sumcheck.len() - 1 - i].1,
                        ),
                        root,
                        rounds: progress.rounds.push(round),
                    }),
                    s6,
                )
            }),
    {
        assert(Seq::new(sumcheck.len(), |i: int| sumcheck[sumcheck.len() - 1 - i].1)
            =~= crate::protocol::reversed_challenges(sumcheck));
    }

    /// Round `r`, where the start of it was refused.
    pub proof fn law_round_start_refused<T: Grinding<F, S>, P: MerkleOpening<C, F>>(
        &self,
        s: T::State,
        openings: Seq<(P, Vec<Vec<F>>)>,
        r: nat,
        progress: Progress,
        root: Seq<u8>,
        s1: T::State,
        samples: (Seq<nat>, Seq<nat>),
        s2: T::State,
    )
        requires
            r < openings.len(),
        ensures
            ({
                let parse = self.parses_round::<T, P>(s, openings, r, progress);
                let n = self.round_parameters@[r as int].ood_samples as nat;
                let rooted = T::reads_bytes(s) == done(root, s1);
                let sampled = parses_ood::<F, T>(s1, n) == done(samples, s2);
                &&& T::reads_bytes(s) is Err ==> parse == stopped::<Progress, T::State>(
                    T::reads_bytes(s)->Err_0,
                )
                &&& rooted && parses_ood::<F, T>(s1, n) is Err ==> parse == stopped::<
                    Progress,
                    T::State,
                >(parses_ood::<F, T>(s1, n)->Err_0)
                &&& rooted && sampled && T::draws_bytes(s2) is Err ==> parse == stopped::<
                    Progress,
                    T::State,
                >(T::draws_bytes(s2)->Err_0)
            }),
    {
    }

    /// The rounds are read one after another: all of them, or up to the first that is refused.
    pub proof fn law_rounds_read_in_turn<T: Grinding<F, S>, P: MerkleOpening<C, F>>(
        &self,
        states: Seq<T::State>,
        openings: Seq<(P, Vec<Vec<F>>)>,
        r: nat,
        steps: Seq<Progress>,
    )
        requires
            states.len() == steps.len(),
            steps.len() >= 1,
            r + steps.len() - 1 <= self.rounds(),
            forall|i: int|
                0 <= i < steps.len() - 1 ==> self.parses_round::<T, P>(
                    #[trigger] states[i],
                    openings,
                    (r + i) as nat,
                    steps[i],
                ) == done(steps[i + 1], states[i + 1]),
        ensures
            ({
                let parse = self.parses_rounds::<T, P>(states[0], openings, r, steps[0]);
                let next = (r + steps.len() - 1) as nat;
                let refused = self.parses_round::<T, P>(
                    states.last(),
                    openings,
                    next,
                    steps.last(),
                );
                &&& next == self.rounds() ==> parse == done(steps.last(), states.last())
                &&& next < self.rounds() && refused is Err ==> parse == stopped::<
                    Progress,
                    T::State,
                >(refused->Err_0)
            }),
        decreases steps.len(),
    {
        if steps.len() > 1 {
            let tail = states.drop_first();
            let rest = steps.drop_first();
            assert(self.parses_round::<T, P>(states[0], openings, (r + 0) as nat, steps[0]) == done(
                steps[1],
                states[1],
            ));
            assert forall|i: int| 0 <= i < rest.len() - 1 implies self.parses_round::<T, P>(
                #[trigger] tail[i],
                openings,
                (r + 1 + i) as nat,
                rest[i],
            ) == done(rest[i + 1], tail[i + 1]) by {
                assert(self.parses_round::<T, P>(
                    states[i + 1],
                    openings,
                    (r + (i + 1)) as nat,
                    steps[i + 1],
                ) == done(steps[i + 2], states[i + 2]));
            }
            self.law_rounds_read_in_turn::<T, P>(tail, openings, r + 1, rest);
        }
    }

    /// The end: the final polynomial is read and the seed of the final queries is drawn; the last
    /// opening has to show its leaves under the last root at the drawn positions; then come the
    /// work and the final sumcheck.
    pub proof fn law_final_read<T: Grinding<F, S>, P: MerkleOpening<C, F>>(
        &self,
        s: T::State,
        openings: Seq<(P, Vec<Vec<F>>)>,
        combination: Seq<nat>,
        initial: Seq<(Quadratic, nat)>,
        progress: Progress,
        coefficients: Seq<nat>,
        s1: T::State,
        seed: Seq<u8>,
        s2: T::State,
        s3: T::State,
        sumcheck: Seq<(Quadratic, nat)>,
        s4: T::State,
    )
        ensures
            ({
                let p = F::modulus();
                let n = self.rounds();
                let parse = self.parses_final::<T, P>(s, openings, combination, initial, progress);
                let read = reads_scalars::<F, T>(
                    s,
                    Seq::empty(),
                    pow2(self.final_sumcheck_rounds as nat),
                );
                let (opening, leaves) = openings[openings.len() - 1];
                let indexes = query_positions(
                    seed,
                    self.folded_size(n) as usize,
                    self.final_queries as nat,
                );
                let shows = openings.len() > 0 && opening.authenticates(
                    progress.root,
                    indexes,
                    rows(leaves@),
                ) && (opening.positions() is None || opening.positions() == Some(indexes));
                let drawn = read == done(coefficients, s1) && T::draws_bytes(s1) == done(seed, s2);
                let worked = T::passes_work(s2, self.final_pow_bits) == done((), s3);
                let sumcheck_read = parses_sumcheck::<F, S, T>(
                    s3,
                    Seq::empty(),
                    self.final_sumcheck_rounds as nat,
                    self.final_folding_pow_bits,
                );
                let m = Messages {
                    initial_combination_randomness: combination,
                    initial_sumcheck_rounds: initial,
                    rounds: progress.rounds,
                    final_domain_gen_inv: self.gen_inv(n),
                    final_randomness_indexes: indexes,
                    final_randomness_points: points_at(p, self.folded_gen(n), indexes),
                    final_randomness_answers: rows(leaves@),
                    final_folding_randomness: progress.folding_randomness,
                    final_sumcheck_rounds: sumcheck,
                    final_sumcheck_randomness: Seq::new(
                        sumcheck.len(),
                        |i: int| sumcheck[sumcheck.len() - 1 - i].1,
                    ),
                    final_coefficients: coefficients,
                };
                &&& read is Err ==> parse == stopped::<Messages, T::State>(read->Err_0)
                &&& read == done(coefficients, s1) && T::draws_bytes(s1) is Err ==> parse
                    == stopped::<Messages, T::State>(T::draws_bytes(s1)->Err_0)
                &&& drawn && !shows ==> parse == invalid::<Messages, T::State>(s2)
                &&& drawn && shows && T::passes_work(s2, self.final_pow_bits) is Err ==> parse
                    == stopped::<Messages, T::State>(
                    T::passes_work(s2, self.final_pow_bits)->Err_0,
                )
                &&& drawn && shows && worked && sumcheck_read is Err ==> parse == stopped::<
                    Messages,
                    T::State,
                >(sumcheck_read->Err_0)
                &&& drawn && shows && worked && sumcheck_read == done(sumcheck, s4) ==> parse
                    == done(m, s4)
            }),
    {
        assert(Seq::new(sumcheck.len(), |i: int| sumcheck[sumcheck.len() - 1 - i].1)
            =~= crate::protocol::reversed_challenges(sumcheck));
    }

    /// What follows the commitment: the challenge that combines the claims is drawn, as many powers
    /// of it are taken as there are claims, the first sumcheck and the rounds are read, and then
    /// the end.
    pub proof fn law_messages_read<T: Grinding<F, S>, P: MerkleOpening<C, F>>(
        &self,
        s: T::State,
        openings: Seq<(P, Vec<Vec<F>>)>,
        root: Seq<u8>,
        claims: nat,
        gen: nat,
        s1: T::State,
        sumcheck: Seq<(Quadratic, nat)>,
        s2: T::State,
        progress: Progress,
        s3: T::State,
    )
        ensures
            ({
                let parse = self.parses_messages::<T, P>(s, openings, root, claims);
                let combined = T::draws_scalar(s) == done(gen, s1);
                let sumcheck_read = parses_sumcheck::<F, S, T>(
                    s1,
                    Seq::empty(),
                    self.folding_factor as nat,
                    self.starting_folding_pow_bits,
                );
                let rounds_read = self.parses_rounds::<T, P>(
                    s2,
                    openings,
                    0,
                    (Progress {
                        folding_randomness: Seq::new(
                            sumcheck.len(),
                            |i: int| sumcheck[sumcheck.len() - 1 - i].1,
                        ),
                        root,
                        rounds: Seq::empty(),
                    }),
                );
                let summed = sumcheck_read == done(sumcheck, s2);
                &&& T::draws_scalar(s) is Err ==> parse == stopped::<Messages, T::State>(
                    T::draws_scalar(s)->Err_0,
                )
                &&& combined && sumcheck_read is Err ==> parse == stopped::<Messages, T::State>(
                    sumcheck_read->Err_0,
                )
                &&& combined && summed && rounds_read is Err ==> parse == stopped::<
                    Messages,
                    T::State,
                >(rounds_read->Err_0)
                &&& combined && summed && rounds_read == done(progress, s3) ==> parse
                    == self.parses_final::<T, P>(
                    s3,
                    openings,
                    powers(F::modulus(), gen, claims),
                    sumcheck,
                    progress,
                )
            }),
    {
        assert(Seq::new(sumcheck.len(), |i: int| sumcheck[sumcheck.len() - 1 - i].1)
            =~= crate::protocol::reversed_challenges(sumcheck));
    }

    /// The first pass: the commitment, and then what follows it, with a claim for each
    /// out-of-domain sample and each point.
    pub proof fn law_pass_read<T: Grinding<F, S>, P: MerkleOpening<C, F>>(
        &self,
        s: T::State,
        openings: Seq<(P, Vec<Vec<F>>)>,
        points: nat,
        com: Commitment,
        s1: T::State,
        m: Messages,
        s2: T::State,
    )
        ensures
            ({
                let pass = self.first_pass::<T, P>(s, openings, points);
                let committed = self.parses_commitment::<T>(s) == done(com, s1);
                let read = self.parses_messages::<T, P>(
                    s1,
                    openings,
                    com.root,
                    com.ood_points.len() + points,
                );
                &&& self.parses_commitment::<T>(s) is Err ==> pass == stopped::<
                    (Commitment, Messages),
                    T::State,
                >(self.parses_commitment::<T>(s)->Err_0)
                &&& committed && read is Err ==> pass == stopped::<
                    (Commitment, Messages),
                    T::State,
                >(read->Err_0)
                &&& committed && read == done(m, s2) ==> pass == done((com, m), s2)
            }),
    {
    }
}

} // verus!
