//! What a verifier takes from where: the first pass does not look at the statement, an accepted
//! proof is refused once a claimed value is altered, and every answer is shown by its opening.
use crate::cube::{
    cong, lemma_cong_add, lemma_cong_equal, lemma_cong_mul, lemma_cong_ops, lemma_cong_sub,
};
use crate::evm_merkle::{shown, MerkleOpening};
use crate::field::{fmul, rows, PrimeField};
use crate::parameters::WhirConfig;
use crate::poly::dot_upto;
use crate::protocol::{
    lemma_ood_shape, parses_ood, parses_sumcheck, reversed_challenges, Commitment, Messages,
    Progress, Round,
};
use crate::queries::query_positions;
use crate::transcript::{
    end_state, reads_scalars, Fault, Grinding, Outcome, PowStrategy, Refusal,
};
use crate::whir::Statement;
use vstd::arithmetic::power2::pow2;
use vstd::prelude::*;

verus! {

/// `x` has an inverse.
pub open spec fn invertible(p: nat, x: nat) -> bool {
    exists|y: nat| #[trigger] fmul(p, x, y) == 1
}

/// A sum of products moves with one of its terms.
pub proof fn lemma_dot_moves(p: nat, xs: Seq<nat>, ys: Seq<nat>, j: int, x: nat, k: nat)
    requires
        p > 0,
        0 <= j < xs.len(),
        k <= xs.len(),
    ensures
        cong(
            p,
            dot_upto(p, xs.update(j, x), ys, k) - dot_upto(p, xs, ys, k),
            if j < k {
                (x - xs[j]) * ys[j]
            } else {
                0
            },
        ),
    decreases k,
{
    if k > 0 {
        let i = k - 1;
        let zs = xs.update(j, x);
        lemma_dot_moves(p, xs, ys, j, x, i as nat);
        let before = dot_upto(p, xs, ys, i as nat);
        let after = dot_upto(p, zs, ys, i as nat);
        let term0: int = (xs[i] * ys[i]) as int;
        let term1: int = (zs[i] * ys[i]) as int;
        let f0 = fmul(p, xs[i], ys[i]);
        let f1 = fmul(p, zs[i], ys[i]);
        lemma_cong_ops(p, xs[i], ys[i]);
        lemma_cong_ops(p, zs[i], ys[i]);
        lemma_cong_ops(p, before, f0);
        lemma_cong_ops(p, after, f1);
        lemma_cong_add(p, before as int, before as int, f0 as int, term0);
        lemma_cong_add(p, after as int, after as int, f1 as int, term1);
        lemma_cong_sub(
            p,
            dot_upto(p, zs, ys, k) as int,
            after + term1,
            dot_upto(p, xs, ys, k) as int,
            before + term0,
        );
        if j == i {
            assert(zs[i] * ys[i] - xs[i] * ys[i] == (zs[i] - xs[i]) * ys[i]) by (nonlinear_arith);
            lemma_cong_add(p, after - before, 0, (x - xs[j]) * ys[j], (x - xs[j]) * ys[j]);
        } else {
            assert(zs[i] == xs[i]);
        }
    }
}

/// Two different numbers stay different when an invertible one multiplies them.
pub proof fn lemma_invertible_apart(p: nat, x: nat, y: nat, c: nat)
    requires
        x < p,
        y < p,
        invertible(p, c),
        cong(p, (x - y) * c, 0),
    ensures
        x == y,
{
    let i = choose|i: nat| #[trigger] fmul(p, c, i) == 1;
    lemma_cong_ops(p, c, i);
    lemma_cong_mul(p, (x - y) * c, 0, i as int, i as int);
    assert(((x - y) * c) * i == (x - y) * (c * i)) by (nonlinear_arith);
    assert(0 * i == 0) by (nonlinear_arith);
    lemma_cong_mul(p, x - y, x - y, 1, (c * i) as int);
    assert(cong(p, x - y, 0));
    lemma_cong_add(p, x - y, 0, y as int, y as int);
    lemma_cong_equal(p, x, y);
}

impl<F: PrimeField, C, S: PowStrategy> WhirConfig<F, C, S> {
    /// What is read and drawn, and where the transcript stands afterwards, depends on the statement
    /// through the number of its points alone: whatever the points and the values, the transcript
    /// ends where the first pass ends.
    pub proof fn law_pass_ignores_statement<T: Grinding<F, S>, P: MerkleOpening<C, F>>(
        &self,
        s: T::State,
        openings: Seq<(P, Vec<Vec<F>>)>,
        points: Seq<Seq<nat>>,
        values: Seq<nat>,
        other_points: Seq<Seq<nat>>,
        other_values: Seq<nat>,
    )
        requires
            points.len() == other_points.len(),
        ensures
            ({
                let verdict = self.verdict::<T, P>(s, openings, points, values);
                let other = self.verdict::<T, P>(s, openings, other_points, other_values);
                let pass = self.first_pass::<T, P>(s, openings, points.len());
                &&& end_state(verdict) == end_state(pass)
                &&& end_state(other) == end_state(pass)
                &&& pass matches Err(e) ==> verdict == Err::<((), T::State), Refusal<T::State>>(e)
                    && other == Err::<((), T::State), Refusal<T::State>>(e)
            }),
    {
    }

    /// The same of what follows the commitment: what is read and drawn, and where the transcript
    /// stands afterwards, is the same for two statements about as many points.
    pub proof fn law_messages_ignore_statement<T: Grinding<F, S>, P: MerkleOpening<C, F>>(
        &self,
        s: T::State,
        openings: Seq<(P, Vec<Vec<F>>)>,
        com: Commitment,
        statement: Statement<F>,
        other: Statement<F>,
    )
        requires
            statement.points@.len() == other.points@.len(),
        ensures
            self.parses_messages::<T, P>(
                s,
                openings,
                com.root,
                com.ood_points.len() + statement.points@.len(),
            ) == self.parses_messages::<T, P>(
                s,
                openings,
                com.root,
                com.ood_points.len() + other.points@.len(),
            ),
    {
    }

    /// Messages that are consistent with one list of values are not consistent with a list that
    /// differs in one value, as long as that value counts: its coefficient is invertible.
    pub proof fn law_altered_value_inconsistent(
        &self,
        com: Commitment,
        points: Seq<Seq<nat>>,
        values: Seq<nat>,
        m: Messages,
        j: int,
        x: nat,
    )
        requires
            m.initial_sumcheck_rounds.len() > 0,
            self.consistent(com, points, values, m),
            0 <= j < values.len(),
            com.ood_answers.len() + values.len() <= m.initial_combination_randomness.len(),
            values[j] < F::modulus(),
            x < F::modulus(),
            x != values[j],
            invertible(
                F::modulus(),
                m.initial_combination_randomness[com.ood_answers.len() + j],
            ),
        ensures
            !self.consistent(com, points, values.update(j, x), m),
    {
        let p = F::modulus();
        let comb = m.initial_combination_randomness;
        let claims = com.ood_answers + values;
        let i = com.ood_answers.len() + j;
        let altered = com.ood_answers + values.update(j, x);
        assert(altered =~= claims.update(i, x));
        lemma_dot_moves(p, claims, comb, i, x, claims.len());
        if self.consistent(com, points, values.update(j, x), m) {
            let first = self.first_claim(com, values, m);
            let other = self.first_claim(com, values.update(j, x), m);
            assert(m.initial_sumcheck_rounds[0].0.sum(p) == first);
            assert(m.initial_sumcheck_rounds[0].0.sum(p) == other);
            lemma_invertible_apart(p, x, values[j], comb[i]);
        }
    }

    /// A proof that is accepted for a statement is refused for one that differs in one claimed
    /// value, as long as that value counts: the coefficient that the transcript gives it is
    /// invertible. The transcript ends in the same place.
    pub proof fn law_altered_value_refused<T: Grinding<F, S>, P: MerkleOpening<C, F>>(
        &self,
        s: T::State,
        openings: Seq<(P, Vec<Vec<F>>)>,
        points: Seq<Seq<nat>>,
        values: Seq<nat>,
        j: int,
        x: nat,
    )
        requires
            self.wf(),
            points.len() == values.len(),
            0 <= j < values.len(),
            values[j] < F::modulus(),
            x < F::modulus(),
            x != values[j],
            self.verdict::<T, P>(s, openings, points, values) is Ok,
            self.first_pass::<T, P>(s, openings, points.len()) matches Ok(((com, m), _))
                && invertible(
                F::modulus(),
                m.initial_combination_randomness[com.ood_points.len() + j],
            ),
        ensures
            self.verdict::<T, P>(s, openings, points, values.update(j, x)) == Err::<
                ((), T::State),
                Refusal<T::State>,
            >(
                Refusal {
                    error: Fault::InvalidProof,
                    state: end_state(self.verdict::<T, P>(s, openings, points, values)),
                },
            ),
    {
        let ((com, m), after) = self.first_pass::<T, P>(s, openings, points.len())->Ok_0;
        let (root, s1) = T::reads_bytes(s)->Ok_0;
        lemma_ood_shape::<F, T>(s1, self.committment_ood_samples as nat);
        let (c, s2) = self.parses_commitment::<T>(s)->Ok_0;
        self.law_messages_shaped::<T, P>(s2, openings, c.root, c.ood_points.len() + points.len());
        self.law_altered_value_inconsistent(com, points, values, m, j, x);
    }

    /// The root under which round `r` queries: that of the commitment, and then those that the
    /// rounds bring.
    pub open spec fn root_before(&self, root: Seq<u8>, roots: Seq<Seq<u8>>, r: nat) -> Seq<u8> {
        if r == 0 {
            root
        } else {
            roots[r - 1]
        }
    }

    /// The answers of round `r` are those of its opening, which shows them at the queried
    /// positions: it authenticates them, and names no other indexes.
    pub open spec fn round_shown<P: MerkleOpening<C, F>>(
        &self,
        openings: Seq<(P, Vec<Vec<F>>)>,
        root: Seq<u8>,
        roots: Seq<Seq<u8>>,
        rounds: Seq<Round>,
        r: nat,
    ) -> bool {
        let round = rounds[r as int];
        &&& r < openings.len()
        &&& round.stir_challenges_answers == rows(openings[r as int].1@)
        &&& shown::<C, F, P>(
            openings[r as int].0,
            self.root_before(root, roots, r),
            round.stir_challenges_indexes,
            round.stir_challenges_answers,
        )
    }

    /// All answers are those of the openings, which show them; the last opening is for the final
    /// queries.
    pub open spec fn pass_shown<P: MerkleOpening<C, F>>(
        &self,
        openings: Seq<(P, Vec<Vec<F>>)>,
        root: Seq<u8>,
        roots: Seq<Seq<u8>>,
        m: Messages,
    ) -> bool {
        &&& roots.len() == self.rounds()
        &&& forall|r: nat|
            r < self.rounds() ==> #[trigger] self.round_shown(
                openings,
                root,
                roots,
                m.rounds,
                r,
            )
        &&& openings.len() > 0
        &&& m.final_randomness_answers == rows(openings.last().1@)
        &&& shown::<C, F, P>(
            openings.last().0,
            self.root_before(root, roots, self.rounds()),
            m.final_randomness_indexes,
            m.final_randomness_answers,
        )
    }

    /// The rounds from `r` on are shown, under the roots that they bring.
    proof fn lemma_rounds_shown<T: Grinding<F, S>, P: MerkleOpening<C, F>>(
        &self,
        s: T::State,
        openings: Seq<(P, Vec<Vec<F>>)>,
        r: nat,
        progress: Progress,
        root: Seq<u8>,
        roots: Seq<Seq<u8>>,
    ) -> (all: Seq<Seq<u8>>)
        requires
            r <= self.rounds(),
            roots.len() == r,
            progress.rounds.len() == r,
            progress.root == self.root_before(root, roots, r),
            forall|i: nat|
                i < r ==> #[trigger] self.round_shown(
                    openings,
                    root,
                    roots,
                    progress.rounds,
                    i,
                ),
        ensures
            self.parses_rounds::<T, P>(s, openings, r, progress) matches Ok((next, after)) ==> {
                &&& all.len() == self.rounds()
                &&& next.root == self.root_before(root, all, self.rounds())
                &&& forall|i: nat|
                    i < self.rounds() ==> #[trigger] self.round_shown(
                        openings,
                        root,
                        all,
                        next.rounds,
                        i,
                    )
            },
        decreases self.rounds() - r,
    {
        if r < self.rounds() {
            if let Ok((next, after)) = self.parses_round::<T, P>(s, openings, r, progress) {
                let more = roots.push(next.root);
                assert forall|i: nat| i < r + 1 implies #[trigger] self.round_shown(
                    openings,
                    root,
                    more,
                    next.rounds,
                    i,
                ) by {
                    if i < r {
                        assert(self.round_shown(
                            openings,
                            root,
                            roots,
                            progress.rounds,
                            i,
                        ));
                    }
                }
                self.lemma_rounds_shown::<T, P>(after, openings, r + 1, next, root, more)
            } else {
                roots
            }
        } else {
            roots
        }
    }

    /// A first pass ends well only where every answer is shown by its opening: those of a round
    /// under the root that came before the round, and those to the final queries under the last
    /// root. So each opening authenticates its answers, and if it names indexes, they are the drawn
    /// ones.
    pub proof fn law_answers_shown<T: Grinding<F, S>, P: MerkleOpening<C, F>>(
        &self,
        s: T::State,
        openings: Seq<(P, Vec<Vec<F>>)>,
        points: nat,
    )
        ensures
            self.first_pass::<T, P>(s, openings, points) matches Ok(((com, m), after))
                ==> exists|roots: Seq<Seq<u8>>| #[trigger]
                self.pass_shown(openings, com.root, roots, m),
    {
        if let Ok(((com, m), after)) = self.first_pass::<T, P>(s, openings, points) {
            let (c, s1) = self.parses_commitment::<T>(s)->Ok_0;
            let (gen, s2) = T::draws_scalar(s1)->Ok_0;
            let (sumcheck, s3) = parses_sumcheck::<F, S, T>(
                s2,
                Seq::empty(),
                self.folding_factor as nat,
                self.starting_folding_pow_bits,
            )->Ok_0;
            let start = Progress {
                folding_randomness: reversed_challenges(sumcheck),
                root: com.root,
                rounds: Seq::empty(),
            };
            let roots = self.lemma_rounds_shown::<T, P>(
                s3,
                openings,
                0,
                start,
                com.root,
                Seq::empty(),
            );
            assert(self.pass_shown(openings, com.root, roots, m));
        }
    }

    /// The first `n` rounds.
    pub open spec fn rounds_upto<T: Grinding<F, S>, P: MerkleOpening<C, F>>(
        &self,
        s: T::State,
        openings: Seq<(P, Vec<Vec<F>>)>,
        progress: Progress,
        n: nat,
    ) -> Outcome<Progress, T::State>
        decreases n,
    {
        if n == 0 {
            Ok((progress, s))
        } else {
            match self.rounds_upto::<T, P>(s, openings, progress, (n - 1) as nat) {
                Ok((next, after)) => self.parses_round::<T, P>(
                    after,
                    openings,
                    (n - 1) as nat,
                    next,
                ),
                Err(e) => Err(e),
            }
        }
    }

    /// The seed of the queries of round `r`, which come after the root and the samples of the
    /// round; or that of the final queries, which come after the final polynomial.
    pub open spec fn draws_seed<T: Grinding<F, S>>(&self, s: T::State, r: nat) -> Outcome<
        Seq<u8>,
        T::State,
    > {
        if r < self.rounds() {
            match T::reads_bytes(s) {
                Ok((root, s1)) => match parses_ood::<F, T>(
                    s1,
                    self.round_parameters@[r as int].ood_samples as nat,
                ) {
                    Ok((samples, s2)) => T::draws_bytes(s2),
                    Err(e) => Err(e),
                },
                Err(e) => Err(e),
            }
        } else {
            match reads_scalars::<F, T>(
                s,
                Seq::empty(),
                pow2(self.final_sumcheck_rounds as nat),
            ) {
                Ok((coefficients, s1)) => T::draws_bytes(s1),
                Err(e) => Err(e),
            }
        }
    }

    /// The positions that round `r` queries, or the final ones.
    pub open spec fn queried(&self, seed: Seq<u8>, r: nat) -> Seq<usize> {
        query_positions(
            seed,
            self.folded_size(r) as usize,
            if r < self.rounds() {
                self.round_parameters@[r as int].num_queries as nat
            } else {
                self.final_queries as nat
            },
        )
    }

    /// The first pass up to the seed of the queries of round `r`, or of the final ones: the root
    /// under which they are opened, and their positions.
    pub open spec fn pass_to_queries<T: Grinding<F, S>, P: MerkleOpening<C, F>>(
        &self,
        s: T::State,
        openings: Seq<(P, Vec<Vec<F>>)>,
        r: nat,
    ) -> Outcome<(Seq<u8>, Seq<usize>), T::State> {
        match self.parses_commitment::<T>(s) {
            Ok((com, s1)) => match T::draws_scalar(s1) {
                Ok((gen, s2)) => match parses_sumcheck::<F, S, T>(
                    s2,
                    Seq::empty(),
                    self.folding_factor as nat,
                    self.starting_folding_pow_bits,
                ) {
                    Ok((sumcheck, s3)) => match self.rounds_upto::<T, P>(
                        s3,
                        openings,
                        Progress {
                            folding_randomness: reversed_challenges(sumcheck),
                            root: com.root,
                            rounds: Seq::empty(),
                        },
                        r,
                    ) {
                        Ok((progress, s4)) => match self.draws_seed::<T>(s4, r) {
                            Ok((seed, after)) => Ok(
                                ((progress.root, self.queried(seed, r)), after),
                            ),
                            Err(e) => Err(e),
                        },
                        Err(e) => Err(e),
                    },
                    Err(e) => Err(e),
                },
                Err(e) => Err(e),
            },
            Err(e) => Err(e),
        }
    }

    /// The opening for the queries of round `r`; the last one is for the final queries.
    pub open spec fn opening_of<P>(
        &self,
        openings: Seq<(P, Vec<Vec<F>>)>,
        r: nat,
    ) -> (P, Vec<Vec<F>>) {
        if r < self.rounds() {
            openings[r as int]
        } else {
            openings.last()
        }
    }

    /// The rounds go on after the first `n`.
    proof fn lemma_rounds_go_on<T: Grinding<F, S>, P: MerkleOpening<C, F>>(
        &self,
        s: T::State,
        openings: Seq<(P, Vec<Vec<F>>)>,
        progress: Progress,
        n: nat,
    )
        requires
            n <= self.rounds(),
        ensures
            self.parses_rounds::<T, P>(s, openings, 0, progress) == match self.rounds_upto::<T, P>(
                s,
                openings,
                progress,
                n,
            ) {
                Ok((next, after)) => self.parses_rounds::<T, P>(after, openings, n, next),
                Err(e) => Err(e),
            },
        decreases n,
    {
        if n > 0 {
            self.lemma_rounds_go_on::<T, P>(s, openings, progress, (n - 1) as nat);
        }
    }

    /// An opening that does not show its answers at the positions that were drawn is refused: one
    /// that does not authenticate them under the last root, and one that names other indexes, even
    /// if it authenticates them. The proof is invalid then, and nothing is read or drawn after the
    /// seed of the queries.
    pub proof fn law_unshown_opening_refused<T: Grinding<F, S>, P: MerkleOpening<C, F>>(
        &self,
        s: T::State,
        openings: Seq<(P, Vec<Vec<F>>)>,
        points: Seq<Seq<nat>>,
        values: Seq<nat>,
        r: nat,
    )
        requires
            r <= self.rounds(),
            r < openings.len() || (r == self.rounds() && openings.len() > 0),
            self.pass_to_queries::<T, P>(s, openings, r) matches Ok(((root, indexes), after)) && {
                let (opening, answers) = self.opening_of(openings, r);
                ||| !opening.authenticates(root, indexes, rows(answers@))
                ||| opening.positions() matches Some(own) && own != indexes
            },
        ensures
            ({
                let refusal = Refusal {
                    error: Fault::InvalidProof,
                    state: end_state(self.pass_to_queries::<T, P>(s, openings, r)),
                };
                &&& self.first_pass::<T, P>(s, openings, points.len()) == Err::<
                    ((Commitment, Messages), T::State),
                    Refusal<T::State>,
                >(refusal)
                &&& self.verdict::<T, P>(s, openings, points, values) == Err::<
                    ((), T::State),
                    Refusal<T::State>,
                >(refusal)
            }),
    {
        let (com, s1) = self.parses_commitment::<T>(s)->Ok_0;
        let (gen, s2) = T::draws_scalar(s1)->Ok_0;
        let (sumcheck, s3) = parses_sumcheck::<F, S, T>(
            s2,
            Seq::empty(),
            self.folding_factor as nat,
            self.starting_folding_pow_bits,
        )->Ok_0;
        let start = Progress {
            folding_randomness: reversed_challenges(sumcheck),
            root: com.root,
            rounds: Seq::empty(),
        };
        self.lemma_rounds_go_on::<T, P>(s3, openings, start, r);
    }
}

} // verus!
