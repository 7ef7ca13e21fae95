//! Completeness over transcripts: what a prover that follows the protocol wrote is read back
//! message by message.
use crate::evm_merkle::{shown, MerkleOpening};
use crate::field::{rows, PrimeField};
use crate::parameters::WhirConfig;
use crate::poly::powers;
use crate::protocol::{
    chained_randomness, parses_ood, parses_sumcheck, points_at, reversed_challenges, Commitment,
    Messages, Progress, Round,
};
use crate::queries::query_positions;
use crate::sumcheck::Quadratic;
use crate::transcript::{
    draws_scalars, reads_scalars, Difficulty, Grinding, PowStrategy, Refusal,
};
use vstd::arithmetic::power2::pow2;
use vstd::prelude::*;

verus! {

/// How a prover finds the nonce for a challenge and a bound.
pub type Solver = spec_fn(Seq<u8>, u64) -> u64;

/// A transcript together with its other side, the prover who writes it.
pub trait Spoken<F: PrimeField, S: PowStrategy>: Grinding<F, S> {
    /// What a prover has written so far.
    type Writing;

    /// What a verifier is given.
    type Given;

    /// 32 bytes are written.
    spec fn message(w: Self::Writing, bytes: Seq<u8>) -> Self::Writing;

    /// A field element is written.
    spec fn scalar(w: Self::Writing, x: nat) -> Self::Writing;

    /// 32 bytes are drawn.
    spec fn challenge(w: Self::Writing) -> (Seq<u8>, Self::Writing);

    /// A field element is drawn.
    spec fn scalar_challenge(w: Self::Writing) -> (nat, Self::Writing);

    /// Work is shown.
    spec fn work(w: Self::Writing, difficulty: Difficulty, solver: Solver) -> Self::Writing;

    /// The solver finds a nonce that is accepted.
    spec fn solved(w: Self::Writing, difficulty: Difficulty, solver: Solver) -> bool;

    /// What the verifier is given starts with what was written.
    spec fn holds(given: Self::Given, w: Self::Writing) -> bool;

    /// Where a verifier stands who has read what was written.
    spec fn reader(given: Self::Given, w: Self::Writing) -> Self::State;

    proof fn lemma_message_read(given: Self::Given, w: Self::Writing, bytes: Seq<u8>)
        requires
            bytes.len() == 32,
            Self::holds(given, Self::message(w, bytes)),
        ensures
            Self::holds(given, w),
            Self::reads_bytes(Self::reader(given, w)) == Ok::<
                (Seq<u8>, Self::State),
                Refusal<Self::State>,
            >((bytes, Self::reader(given, Self::message(w, bytes)))),
    ;

    proof fn lemma_scalar_read(given: Self::Given, w: Self::Writing, x: nat)
        requires
            x < F::modulus(),
            Self::holds(given, Self::scalar(w, x)),
        ensures
            Self::holds(given, w),
            Self::reads_scalar(Self::reader(given, w)) == Ok::<
                (nat, Self::State),
                Refusal<Self::State>,
            >((x, Self::reader(given, Self::scalar(w, x)))),
    ;

    proof fn lemma_challenge_drawn(given: Self::Given, w: Self::Writing)
        requires
            Self::holds(given, Self::challenge(w).1),
        ensures
            Self::holds(given, w),
            Self::draws_bytes(Self::reader(given, w)) == Ok::<
                (Seq<u8>, Self::State),
                Refusal<Self::State>,
            >((Self::challenge(w).0, Self::reader(given, Self::challenge(w).1))),
    ;

    proof fn lemma_scalar_drawn(given: Self::Given, w: Self::Writing)
        requires
            Self::holds(given, Self::scalar_challenge(w).1),
        ensures
            Self::holds(given, w),
            Self::draws_scalar(Self::reader(given, w)) == Ok::<
                (nat, Self::State),
                Refusal<Self::State>,
            >((Self::scalar_challenge(w).0, Self::reader(given, Self::scalar_challenge(w).1))),
    ;

    proof fn lemma_work_passed(
        given: Self::Given,
        w: Self::Writing,
        difficulty: Difficulty,
        solver: Solver,
    )
        requires
            Self::solved(w, difficulty, solver),
            Self::holds(given, Self::work(w, difficulty, solver)),
        ensures
            Self::holds(given, w),
            Self::passes_work(Self::reader(given, w), difficulty) == Ok::<
                ((), Self::State),
                Refusal<Self::State>,
            >(((), Self::reader(given, Self::work(w, difficulty, solver)))),
    ;
}

/// Field elements are written.
pub open spec fn says_scalars<F: PrimeField, S: PowStrategy, T: Spoken<F, S>>(
    w: T::Writing,
    xs: Seq<nat>,
) -> T::Writing
    decreases xs.len(),
{
    if xs.len() == 0 {
        w
    } else {
        says_scalars::<F, S, T>(T::scalar(w, xs[0]), xs.drop_first())
    }
}

/// `n` field elements are drawn.
pub open spec fn hears_scalars<F: PrimeField, S: PowStrategy, T: Spoken<F, S>>(
    w: T::Writing,
    n: nat,
) -> (Seq<nat>, T::Writing)
    decreases n,
{
    if n == 0 {
        (Seq::empty(), w)
    } else {
        let (x, next) = T::scalar_challenge(w);
        let (rest, end) = hears_scalars::<F, S, T>(next, (n - 1) as nat);
        (seq![x] + rest, end)
    }
}

/// A polynomial of a sumcheck is written, and its challenge is drawn.
pub open spec fn says_quadratic<F: PrimeField, S: PowStrategy, T: Spoken<F, S>>(
    w: T::Writing,
    q: Quadratic,
) -> (nat, T::Writing) {
    T::scalar_challenge(says_scalars::<F, S, T>(w, seq![q.at_zero, q.at_one, q.at_two]))
}

/// A sumcheck is written: each polynomial before its challenge, and then the work.
pub open spec fn says_sumcheck<F: PrimeField, S: PowStrategy, T: Spoken<F, S>>(
    w: T::Writing,
    rounds: Seq<(Quadratic, nat)>,
    difficulty: Difficulty,
    solver: Solver,
) -> T::Writing
    decreases rounds.len(),
{
    if rounds.len() == 0 {
        w
    } else {
        let (x, next) = says_quadratic::<F, S, T>(w, rounds[0].0);
        says_sumcheck::<F, S, T>(
            T::work(next, difficulty, solver),
            rounds.drop_first(),
            difficulty,
            solver,
        )
    }
}

/// The challenges of the sumcheck are those that are drawn, and the work is found.
pub open spec fn hears_sumcheck<F: PrimeField, S: PowStrategy, T: Spoken<F, S>>(
    w: T::Writing,
    rounds: Seq<(Quadratic, nat)>,
    difficulty: Difficulty,
    solver: Solver,
) -> bool
    decreases rounds.len(),
{
    rounds.len() > 0 ==> {
        let (x, next) = says_quadratic::<F, S, T>(w, rounds[0].0);
        &&& rounds[0].1 == x
        &&& T::solved(next, difficulty, solver)
        &&& hears_sumcheck::<F, S, T>(
            T::work(next, difficulty, solver),
            rounds.drop_first(),
            difficulty,
            solver,
        )
    }
}

/// Numbers below `p`.
pub open spec fn reduced(p: nat, xs: Seq<nat>) -> bool {
    forall|i: int| 0 <= i < xs.len() ==> #[trigger] xs[i] < p
}

/// Polynomials whose values are below `p`.
pub open spec fn sumcheck_reduced(p: nat, rounds: Seq<(Quadratic, nat)>) -> bool {
    forall|i: int|
        0 <= i < rounds.len() ==> {
            let q = (#[trigger] rounds[i]).0;
            q.at_zero < p && q.at_one < p && q.at_two < p
        }
}

/// Field elements are read back.
proof fn lemma_scalars_read<F: PrimeField, S: PowStrategy, T: Spoken<F, S>>(
    given: T::Given,
    w: T::Writing,
    seen: Seq<nat>,
    xs: Seq<nat>,
)
    requires
        T::holds(given, says_scalars::<F, S, T>(w, xs)),
        reduced(F::modulus(), xs),
    ensures
        T::holds(given, w),
        reads_scalars::<F, T>(T::reader(given, w), seen, xs.len()) == Ok::<
            (Seq<nat>, T::State),
            Refusal<T::State>,
        >((seen + xs, T::reader(given, says_scalars::<F, S, T>(w, xs)))),
    decreases xs.len(),
{
    if xs.len() == 0 {
        assert(seen + xs =~= seen);
    } else {
        let next = T::scalar(w, xs[0]);
        let rest = xs.drop_first();
        assert forall|i: int| 0 <= i < rest.len() implies #[trigger] rest[i] < F::modulus() by {
            assert(rest[i] == xs[i + 1]);
        }
        lemma_scalars_read::<F, S, T>(given, next, seen.push(xs[0]), rest);
        assert(xs[0] < F::modulus());
        T::lemma_scalar_read(given, w, xs[0]);
        assert(seen.push(xs[0]) + rest =~= seen + xs);
    }
}

/// A verifier draws the same.
proof fn lemma_scalars_drawn<F: PrimeField, S: PowStrategy, T: Spoken<F, S>>(
    given: T::Given,
    w: T::Writing,
    seen: Seq<nat>,
    n: nat,
)
    requires
        T::holds(given, hears_scalars::<F, S, T>(w, n).1),
    ensures
        T::holds(given, w),
        draws_scalars::<F, T>(T::reader(given, w), seen, n) == Ok::<
            (Seq<nat>, T::State),
            Refusal<T::State>,
        >(
            (
                seen + hears_scalars::<F, S, T>(w, n).0,
                T::reader(given, hears_scalars::<F, S, T>(w, n).1),
            ),
        ),
    decreases n,
{
    let (xs, end) = hears_scalars::<F, S, T>(w, n);
    if n == 0 {
        assert(seen + xs =~= seen);
    } else {
        let (x, next) = T::scalar_challenge(w);
        lemma_scalars_drawn::<F, S, T>(given, next, seen.push(x), (n - 1) as nat);
        T::lemma_scalar_drawn(given, w);
        assert(seen.push(x) + hears_scalars::<F, S, T>(next, (n - 1) as nat).0 =~= seen + xs);
    }
}

/// As many are drawn as were asked for.
proof fn lemma_heard_len<F: PrimeField, S: PowStrategy, T: Spoken<F, S>>(w: T::Writing, n: nat)
    ensures
        hears_scalars::<F, S, T>(w, n).0.len() == n,
    decreases n,
{
    if n > 0 {
        lemma_heard_len::<F, S, T>(T::scalar_challenge(w).1, (n - 1) as nat);
    }
}

/// A sumcheck is read back.
proof fn lemma_sumcheck_read<F: PrimeField, S: PowStrategy, T: Spoken<F, S>>(
    given: T::Given,
    w: T::Writing,
    seen: Seq<(Quadratic, nat)>,
    rounds: Seq<(Quadratic, nat)>,
    difficulty: Difficulty,
    solver: Solver,
)
    requires
        T::holds(given, says_sumcheck::<F, S, T>(w, rounds, difficulty, solver)),
        hears_sumcheck::<F, S, T>(w, rounds, difficulty, solver),
        sumcheck_reduced(F::modulus(), rounds),
    ensures
        T::holds(given, w),
        parses_sumcheck::<F, S, T>(T::reader(given, w), seen, rounds.len(), difficulty) == Ok::<
            (Seq<(Quadratic, nat)>, T::State),
            Refusal<T::State>,
        >(
            (
                seen + rounds,
                T::reader(given, says_sumcheck::<F, S, T>(w, rounds, difficulty, solver)),
            ),
        ),
    decreases rounds.len(),
{
    if rounds.len() == 0 {
        assert(seen + rounds =~= seen);
    } else {
        let q = rounds[0].0;
        let values = seq![q.at_zero, q.at_one, q.at_two];
        let written = says_scalars::<F, S, T>(w, values);
        let (x, next) = T::scalar_challenge(written);
        let worked = T::work(next, difficulty, solver);
        let rest = rounds.drop_first();
        assert forall|i: int| 0 <= i < rest.len() implies {
            let q = (#[trigger] rest[i]).0;
            q.at_zero < F::modulus() && q.at_one < F::modulus() && q.at_two < F::modulus()
        } by {
            assert(rest[i] == rounds[i + 1]);
        }
        lemma_sumcheck_read::<F, S, T>(
            given,
            worked,
            seen.push(rounds[0]),
            rest,
            difficulty,
            solver,
        );
        T::lemma_work_passed(given, next, difficulty, solver);
        T::lemma_scalar_drawn(given, written);
        lemma_scalars_read::<F, S, T>(given, w, Seq::empty(), values);
        assert(Seq::<nat>::empty() + values =~= values);
        assert(seen.push(rounds[0]) + rest =~= seen + rounds);
    }
}

impl<F: PrimeField, C, S: PowStrategy> WhirConfig<F, C, S> {
    /// The root is written, and `n` points are drawn.
    pub open spec fn says_root<T: Spoken<F, S>>(
        &self,
        w: T::Writing,
        root: Seq<u8>,
        n: nat,
    ) -> (Seq<nat>, T::Writing) {
        hears_scalars::<F, S, T>(T::message(w, root), n)
    }

    /// The commitment is written: the root, and the answers after the points were drawn.
    pub open spec fn says_commitment<T: Spoken<F, S>>(
        &self,
        w: T::Writing,
        com: Commitment,
    ) -> T::Writing {
        says_scalars::<F, S, T>(
            self.says_root::<T>(w, com.root, self.committment_ood_samples as nat).1,
            com.ood_answers,
        )
    }

    /// After the commitment, the challenge that combines the claims is drawn.
    pub open spec fn hears_combination<T: Spoken<F, S>>(
        &self,
        w: T::Writing,
        com: Commitment,
    ) -> (nat, T::Writing) {
        T::scalar_challenge(self.says_commitment::<T>(w, com))
    }

    /// Up to the end of the first sumcheck.
    pub open spec fn says_start<T: Spoken<F, S>>(
        &self,
        w: T::Writing,
        com: Commitment,
        m: Messages,
        solver: Solver,
    ) -> T::Writing {
        says_sumcheck::<F, S, T>(
            self.hears_combination::<T>(w, com).1,
            m.initial_sumcheck_rounds,
            self.starting_folding_pow_bits,
            solver,
        )
    }

    /// Up to the challenge that gives the queries of round `r`.
    pub open spec fn hears_queries<T: Spoken<F, S>>(
        &self,
        w: T::Writing,
        root: Seq<u8>,
        round: Round,
        r: nat,
    ) -> (Seq<u8>, T::Writing) {
        let params = self.round_parameters@[r as int];
        T::challenge(
            says_scalars::<F, S, T>(
                self.says_root::<T>(w, root, params.ood_samples as nat).1,
                round.ood_answers,
            ),
        )
    }

    /// Up to the challenge that combines the claims of round `r`.
    pub open spec fn hears_round_combination<T: Spoken<F, S>>(
        &self,
        w: T::Writing,
        root: Seq<u8>,
        round: Round,
        r: nat,
        solver: Solver,
    ) -> (nat, T::Writing) {
        let params = self.round_parameters@[r as int];
        T::scalar_challenge(
            T::work(self.hears_queries::<T>(w, root, round, r).1, params.pow_bits, solver),
        )
    }

    /// Round `r` is written: the new root, the answers, the work and the sumcheck.
    pub open spec fn says_round<T: Spoken<F, S>>(
        &self,
        w: T::Writing,
        root: Seq<u8>,
        round: Round,
        r: nat,
        solver: Solver,
    ) -> T::Writing {
        says_sumcheck::<F, S, T>(
            self.hears_round_combination::<T>(w, root, round, r, solver).1,
            round.sumcheck_rounds,
            self.round_parameters@[r as int].folding_pow_bits,
            solver,
        )
    }

    /// The first `n` rounds are written.
    pub open spec fn says_rounds<T: Spoken<F, S>>(
        &self,
        w: T::Writing,
        roots: Seq<Seq<u8>>,
        rounds: Seq<Round>,
        n: nat,
        solver: Solver,
    ) -> T::Writing
        decreases n,
    {
        if n == 0 {
            w
        } else {
            let r = (n - 1) as nat;
            self.says_round::<T>(
                self.says_rounds::<T>(w, roots, rounds, r, solver),
                roots[r as int],
                rounds[r as int],
                r,
                solver,
            )
        }
    }

    /// Up to the challenge that gives the final queries.
    pub open spec fn hears_final_queries<T: Spoken<F, S>>(
        &self,
        w: T::Writing,
        com: Commitment,
        roots: Seq<Seq<u8>>,
        m: Messages,
        solver: Solver,
    ) -> (Seq<u8>, T::Writing) {
        T::challenge(
            says_scalars::<F, S, T>(
                self.says_rounds::<T>(
                    self.says_start::<T>(w, com, m, solver),
                    roots,
                    m.rounds,
                    self.rounds(),
                    solver,
                ),
                m.final_coefficients,
            ),
        )
    }

    /// Everything is written.
    pub open spec fn says<T: Spoken<F, S>>(
        &self,
        w: T::Writing,
        com: Commitment,
        roots: Seq<Seq<u8>>,
        m: Messages,
        solver: Solver,
    ) -> T::Writing {
        says_sumcheck::<F, S, T>(
            T::work(
                self.hears_final_queries::<T>(w, com, roots, m, solver).1,
                self.final_pow_bits,
                solver,
            ),
            m.final_sumcheck_rounds,
            self.final_folding_pow_bits,
            solver,
        )
    }

    /// The challenges in the commitment are those that are drawn.
    pub open spec fn hears_commitment<T: Spoken<F, S>>(
        &self,
        w: T::Writing,
        com: Commitment,
    ) -> bool {
        let n = self.committment_ood_samples as nat;
        &&& com.root.len() == 32
        &&& com.ood_points == self.says_root::<T>(w, com.root, n).0
        &&& com.ood_answers.len() == n
    }

    /// The challenges in round `r` are those that are drawn, and the work is found.
    pub open spec fn hears_round<T: Spoken<F, S>>(
        &self,
        w: T::Writing,
        root: Seq<u8>,
        round: Round,
        r: nat,
        solver: Solver,
    ) -> bool {
        let p = F::modulus();
        let params = self.round_parameters@[r as int];
        let n = params.ood_samples as nat;
        let (seed, queried) = self.hears_queries::<T>(w, root, round, r);
        let (gen, combined) = self.hears_round_combination::<T>(w, root, round, r, solver);
        &&& root.len() == 32
        &&& round.ood_points == self.says_root::<T>(w, root, n).0
        &&& round.ood_answers.len() == n
        &&& round.stir_challenges_indexes == query_positions(
            seed,
            self.folded_size(r) as usize,
            params.num_queries as nat,
        )
        &&& round.stir_challenges_points == points_at(
            p,
            self.folded_gen(r),
            round.stir_challenges_indexes,
        )
        &&& T::solved(queried, params.pow_bits, solver)
        &&& round.combination_randomness == powers(p, gen, round.stir_challenges_indexes.len() + n)
        &&& round.sumcheck_rounds.len() == self.folding_factor
        &&& hears_sumcheck::<F, S, T>(
            combined,
            round.sumcheck_rounds,
            params.folding_pow_bits,
            solver,
        )
        &&& round.domain_gen_inv == self.gen_inv(r)
    }

    /// Round `r`, after what was written before the rounds, has the challenges that are drawn, and
    /// those of its sumcheck are the next folding randomness.
    pub open spec fn round_follows<T: Spoken<F, S>>(
        &self,
        started: T::Writing,
        roots: Seq<Seq<u8>>,
        m: Messages,
        r: nat,
        solver: Solver,
    ) -> bool {
        let round = m.rounds[r as int];
        &&& self.hears_round::<T>(
            self.says_rounds::<T>(started, roots, m.rounds, r, solver),
            roots[r as int],
            round,
            r,
            solver,
        )
        &&& self.folding(m, r + 1) == reversed_challenges(round.sumcheck_rounds)
    }

    /// The challenges of a prover that follows the protocol: those that are drawn after what was
    /// written before, for `claims` claims.
    pub open spec fn hears<T: Spoken<F, S>>(
        &self,
        w: T::Writing,
        com: Commitment,
        roots: Seq<Seq<u8>>,
        m: Messages,
        claims: nat,
        solver: Solver,
    ) -> bool {
        let p = F::modulus();
        let n = self.rounds();
        let (gen, combined) = self.hears_combination::<T>(w, com);
        let started = self.says_start::<T>(w, com, m, solver);
        let (seed, queried) = self.hears_final_queries::<T>(w, com, roots, m, solver);
        &&& self.hears_commitment::<T>(w, com)
        &&& m.initial_combination_randomness == powers(p, gen, claims)
        &&& m.initial_sumcheck_rounds.len() == self.folding_factor
        &&& hears_sumcheck::<F, S, T>(
            combined,
            m.initial_sumcheck_rounds,
            self.starting_folding_pow_bits,
            solver,
        )
        &&& roots.len() == n
        &&& m.rounds.len() == n
        &&& self.folding(m, 0) == reversed_challenges(m.initial_sumcheck_rounds)
        &&& forall|r: nat|
            r < n ==> #[trigger] self.round_follows::<T>(started, roots, m, r, solver)
        &&& m.final_coefficients.len() == pow2(self.final_sumcheck_rounds as nat)
        &&& m.final_randomness_indexes == query_positions(
            seed,
            self.folded_size(n) as usize,
            self.final_queries as nat,
        )
        &&& m.final_randomness_points == points_at(
            p,
            self.folded_gen(n),
            m.final_randomness_indexes,
        )
        &&& m.final_domain_gen_inv == self.gen_inv(n)
        &&& T::solved(queried, self.final_pow_bits, solver)
        &&& m.final_sumcheck_rounds.len() == self.final_sumcheck_rounds
        &&& hears_sumcheck::<F, S, T>(
            T::work(queried, self.final_pow_bits, solver),
            m.final_sumcheck_rounds,
            self.final_folding_pow_bits,
            solver,
        )
        &&& m.final_sumcheck_randomness == reversed_challenges(m.final_sumcheck_rounds)
    }

    /// What is written is reduced.
    pub open spec fn messages_reduced(&self, com: Commitment, m: Messages) -> bool {
        let p = F::modulus();
        &&& reduced(p, com.ood_answers)
        &&& sumcheck_reduced(p, m.initial_sumcheck_rounds)
        &&& forall|r: int|
            0 <= r < m.rounds.len() ==> reduced(p, (#[trigger] m.rounds[r]).ood_answers)
                && sumcheck_reduced(p, m.rounds[r].sumcheck_rounds)
        &&& reduced(p, m.final_coefficients)
        &&& sumcheck_reduced(p, m.final_sumcheck_rounds)
    }

    /// The openings show the answers, the last of them those to the final queries.
    pub open spec fn answers_opened<P: MerkleOpening<C, F>>(
        &self,
        openings: Seq<(P, Vec<Vec<F>>)>,
        com: Commitment,
        roots: Seq<Seq<u8>>,
        m: Messages,
    ) -> bool {
        let n = self.rounds();
        &&& openings.len() == n + 1
        &&& forall|r: int|
            0 <= r < n ==> {
                &&& rows((#[trigger] openings[r]).1@) == m.rounds[r].stir_challenges_answers
                &&& shown::<C, F, P>(
                    openings[r].0,
                    self.root_before(com.root, roots, r as nat),
                    m.rounds[r].stir_challenges_indexes,
                    m.rounds[r].stir_challenges_answers,
                )
            }
        &&& rows(openings[n as int].1@) == m.final_randomness_answers
        &&& shown::<C, F, P>(
            openings[n as int].0,
            self.root_before(com.root, roots, n),
            m.final_randomness_indexes,
            m.final_randomness_answers,
        )
    }

    /// How far a verifier has come who has read `r` rounds.
    spec fn progress_at(
        &self,
        com: Commitment,
        roots: Seq<Seq<u8>>,
        m: Messages,
        r: nat,
    ) -> Progress {
        Progress {
            folding_randomness: self.folding(m, r),
            root: self.root_before(com.root, roots, r),
            rounds: m.rounds.take(r as int),
        }
    }

    /// The root, the points and the answers are read back.
    proof fn lemma_samples_read<T: Spoken<F, S>>(
        &self,
        given: T::Given,
        w: T::Writing,
        root: Seq<u8>,
        answers: Seq<nat>,
    )
        requires
            root.len() == 32,
            reduced(F::modulus(), answers),
            T::holds(
                given,
                says_scalars::<F, S, T>(self.says_root::<T>(w, root, answers.len()).1, answers),
            ),
        ensures
            T::holds(given, w),
            T::reads_bytes(T::reader(given, w)) == Ok::<(Seq<u8>, T::State), Refusal<T::State>>(
                (root, T::reader(given, T::message(w, root))),
            ),
            parses_ood::<F, T>(T::reader(given, T::message(w, root)), answers.len()) == Ok::<
                ((Seq<nat>, Seq<nat>), T::State),
                Refusal<T::State>,
            >(
                (
                    (self.says_root::<T>(w, root, answers.len()).0, answers),
                    T::reader(
                        given,
                        says_scalars::<F, S, T>(
                            self.says_root::<T>(w, root, answers.len()).1,
                            answers,
                        ),
                    ),
                ),
            ),
    {
        let n = answers.len();
        let (points, drawn) = self.says_root::<T>(w, root, n);
        lemma_scalars_read::<F, S, T>(given, drawn, Seq::empty(), answers);
        lemma_scalars_drawn::<F, S, T>(given, T::message(w, root), Seq::empty(), n);
        T::lemma_message_read(given, w, root);
        assert(Seq::<nat>::empty() + points =~= points);
        assert(Seq::<nat>::empty() + answers =~= answers);
    }

    /// A round is read back.
    proof fn lemma_round_read<T: Spoken<F, S>, P: MerkleOpening<C, F>>(
        &self,
        given: T::Given,
        w: T::Writing,
        root: Seq<u8>,
        round: Round,
        r: nat,
        solver: Solver,
        openings: Seq<(P, Vec<Vec<F>>)>,
        progress: Progress,
    )
        requires
            T::holds(given, self.says_round::<T>(w, root, round, r, solver)),
            self.hears_round::<T>(w, root, round, r, solver),
            reduced(F::modulus(), round.ood_answers),
            sumcheck_reduced(F::modulus(), round.sumcheck_rounds),
            r < openings.len(),
            rows(openings[r as int].1@) == round.stir_challenges_answers,
            shown::<C, F, P>(
                openings[r as int].0,
                progress.root,
                round.stir_challenges_indexes,
                round.stir_challenges_answers,
            ),
            round.folding_randomness == progress.folding_randomness,
        ensures
            T::holds(given, w),
            self.parses_round::<T, P>(T::reader(given, w), openings, r, progress) == Ok::<
                (Progress, T::State),
                Refusal<T::State>,
            >(
                (
                    Progress {
                        folding_randomness: reversed_challenges(round.sumcheck_rounds),
                        root,
                        rounds: progress.rounds.push(round),
                    },
                    T::reader(given, self.says_round::<T>(w, root, round, r, solver)),
                ),
            ),
    {
        let params = self.round_parameters@[r as int];
        let n = params.ood_samples as nat;
        let (points, drawn) = self.says_root::<T>(w, root, n);
        let answered = says_scalars::<F, S, T>(drawn, round.ood_answers);
        let (seed, queried) = self.hears_queries::<T>(w, root, round, r);
        let worked = T::work(queried, params.pow_bits, solver);
        let (gen, combined) = self.hears_round_combination::<T>(w, root, round, r, solver);
        lemma_sumcheck_read::<F, S, T>(
            given,
            combined,
            Seq::empty(),
            round.sumcheck_rounds,
            params.folding_pow_bits,
            solver,
        );
        T::lemma_scalar_drawn(given, worked);
        T::lemma_work_passed(given, queried, params.pow_bits, solver);
        T::lemma_challenge_drawn(given, answered);
        self.lemma_samples_read::<T>(given, w, root, round.ood_answers);
        assert(Seq::<(Quadratic, nat)>::empty() + round.sumcheck_rounds =~= round.sumcheck_rounds);
    }

    /// The rounds from `r` on are read back.
    proof fn lemma_rounds_read<T: Spoken<F, S>, P: MerkleOpening<C, F>>(
        &self,
        given: T::Given,
        w: T::Writing,
        com: Commitment,
        roots: Seq<Seq<u8>>,
        m: Messages,
        claims: nat,
        solver: Solver,
        openings: Seq<(P, Vec<Vec<F>>)>,
        r: nat,
    )
        requires
            r <= self.rounds(),
            self.hears::<T>(w, com, roots, m, claims, solver),
            self.messages_reduced(com, m),
            self.answers_opened(openings, com, roots, m),
            T::holds(
                given,
                self.says_rounds::<T>(
                    self.says_start::<T>(w, com, m, solver),
                    roots,
                    m.rounds,
                    self.rounds(),
                    solver,
                ),
            ),
        ensures
            ({
                let started = self.says_start::<T>(w, com, m, solver);
                let here = self.says_rounds::<T>(started, roots, m.rounds, r, solver);
                let end = self.says_rounds::<T>(started, roots, m.rounds, self.rounds(), solver);
                &&& T::holds(given, here)
                &&& self.parses_rounds::<T, P>(
                    T::reader(given, here),
                    openings,
                    r,
                    self.progress_at(com, roots, m, r),
                ) == Ok::<(Progress, T::State), Refusal<T::State>>(
                    (self.progress_at(com, roots, m, self.rounds()), T::reader(given, end)),
                )
            }),
        decreases self.rounds() - r,
    {
        if r < self.rounds() {
            let started = self.says_start::<T>(w, com, m, solver);
            let here = self.says_rounds::<T>(started, roots, m.rounds, r, solver);
            let round = m.rounds[r as int];
            let progress = self.progress_at(com, roots, m, r);
            self.lemma_rounds_read::<T, P>(
                given,
                w,
                com,
                roots,
                m,
                claims,
                solver,
                openings,
                r + 1,
            );
            assert(self.round_follows::<T>(started, roots, m, r, solver));
            assert(rows(openings[r as int].1@) == round.stir_challenges_answers);
            self.lemma_round_read::<T, P>(
                given,
                here,
                roots[r as int],
                round,
                r,
                solver,
                openings,
                progress,
            );
            assert(progress.rounds.push(round) =~= m.rounds.take((r + 1) as int));
        }
    }

    /// What a prover that follows the protocol wrote, with answers that are shown, is read
    /// back by the first pass, whatever stands behind it.
    pub proof fn law_written_is_read<T: Spoken<F, S>, P: MerkleOpening<C, F>>(
        &self,
        given: T::Given,
        w: T::Writing,
        com: Commitment,
        roots: Seq<Seq<u8>>,
        m: Messages,
        solver: Solver,
        openings: Seq<(P, Vec<Vec<F>>)>,
        points: nat,
    )
        requires
            self.hears::<T>(w, com, roots, m, com.ood_points.len() + points, solver),
            self.messages_reduced(com, m),
            self.answers_opened(openings, com, roots, m),
            T::holds(given, self.says::<T>(w, com, roots, m, solver)),
        ensures
            T::holds(given, w),
            self.first_pass::<T, P>(T::reader(given, w), openings, points) == Ok::<
                ((Commitment, Messages), T::State),
                Refusal<T::State>,
            >(((com, m), T::reader(given, self.says::<T>(w, com, roots, m, solver)))),
    {
        let claims = com.ood_points.len() + points;
        let n = self.rounds();
        let committed = self.says_commitment::<T>(w, com);
        let (gen, combined) = self.hears_combination::<T>(w, com);
        let started = self.says_start::<T>(w, com, m, solver);
        let rounded = self.says_rounds::<T>(started, roots, m.rounds, n, solver);
        let finished = says_scalars::<F, S, T>(rounded, m.final_coefficients);
        let (seed, queried) = self.hears_final_queries::<T>(w, com, roots, m, solver);
        let worked = T::work(queried, self.final_pow_bits, solver);
        lemma_sumcheck_read::<F, S, T>(
            given,
            worked,
            Seq::empty(),
            m.final_sumcheck_rounds,
            self.final_folding_pow_bits,
            solver,
        );
        T::lemma_work_passed(given, queried, self.final_pow_bits, solver);
        T::lemma_challenge_drawn(given, finished);
        lemma_scalars_read::<F, S, T>(given, rounded, Seq::empty(), m.final_coefficients);
        self.lemma_rounds_read::<T, P>(given, w, com, roots, m, claims, solver, openings, 0);
        lemma_sumcheck_read::<F, S, T>(
            given,
            combined,
            Seq::empty(),
            m.initial_sumcheck_rounds,
            self.starting_folding_pow_bits,
            solver,
        );
        T::lemma_scalar_drawn(given, committed);
        self.lemma_samples_read::<T>(given, w, com.root, com.ood_answers);
        let first = self.progress_at(com, roots, m, 0);
        let last = self.progress_at(com, roots, m, n);
        assert(first.rounds =~= Seq::<Round>::empty());
        assert(last.rounds =~= m.rounds);
        assert(Seq::<nat>::empty() + m.final_coefficients =~= m.final_coefficients);
        assert(Seq::<(Quadratic, nat)>::empty() + m.initial_sumcheck_rounds
            =~= m.initial_sumcheck_rounds);
        assert(Seq::<(Quadratic, nat)>::empty() + m.final_sumcheck_rounds
            =~= m.final_sumcheck_rounds);
        assert(openings.last() == openings[n as int]);
        assert(self.parses_final::<T, P>(
            T::reader(given, rounded),
            openings,
            m.initial_combination_randomness,
            m.initial_sumcheck_rounds,
            last,
        ) == Ok::<(Messages, T::State), Refusal<T::State>>(
            (m, T::reader(given, self.says::<T>(w, com, roots, m, solver))),
        ));
    }

    /// The foldings of the first `r` rounds are chained.
    proof fn lemma_hears_chained<T: Spoken<F, S>>(
        &self,
        w: T::Writing,
        com: Commitment,
        roots: Seq<Seq<u8>>,
        m: Messages,
        claims: nat,
        solver: Solver,
        r: nat,
    )
        requires
            self.hears::<T>(w, com, roots, m, claims, solver),
            r <= self.rounds(),
        ensures
            self.folding(m, r).len() == self.folding_factor,
            chained_randomness(
                m.initial_sumcheck_rounds,
                m.rounds.take(r as int),
                self.folding(m, r),
            ),
        decreases r,
    {
        if r > 0 {
            let j = (r - 1) as nat;
            self.lemma_hears_chained::<T>(w, com, roots, m, claims, solver, j);
            let round = m.rounds[j as int];
            assert(self.round_follows::<T>(
                self.says_start::<T>(w, com, m, solver),
                roots,
                m,
                j,
                solver,
            ));
            assert(m.rounds.take(r as int).drop_last() =~= m.rounds.take(j as int));
            assert(m.rounds.take(r as int).last() == round);
        }
    }

    /// The messages of a prover that follows the protocol are as many as the parameters ask for.
    pub proof fn lemma_hears_shaped<T: Spoken<F, S>>(
        &self,
        w: T::Writing,
        com: Commitment,
        roots: Seq<Seq<u8>>,
        m: Messages,
        claims: nat,
        solver: Solver,
    )
        requires
            self.hears::<T>(w, com, roots, m, claims, solver),
        ensures
            self.shaped(m),
    {
        let n = self.rounds();
        let started = self.says_start::<T>(w, com, m, solver);
        assert forall|r: int| 0 <= r < m.rounds.len() implies self.round_shaped(
            #[trigger] m.rounds[r],
            r as nat,
        ) by {
            let here = self.says_rounds::<T>(started, roots, m.rounds, r as nat, solver);
            assert(self.round_follows::<T>(started, roots, m, r as nat, solver));
            self.lemma_hears_chained::<T>(w, com, roots, m, claims, solver, r as nat);
            lemma_heard_len::<F, S, T>(
                T::message(here, roots[r]),
                self.round_parameters@[r].ood_samples as nat,
            );
        }
        self.lemma_hears_chained::<T>(w, com, roots, m, claims, solver, n);
        assert(m.rounds.take(n as int) =~= m.rounds);
    }
}

} // verus!
