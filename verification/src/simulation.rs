//! The first pass sees of a transcript what it delivers, and nothing else: two transcripts that
//! deliver the same are read alike, where no work is to be shown.
use crate::evm_merkle::MerkleOpening;
use crate::field::{rows, PrimeField};
use crate::parameters::WhirConfig;
use crate::protocol::{parses_ood, parses_sumcheck, reversed_challenges, Progress};
use crate::sumcheck::Quadratic;
use crate::transcript::{
    draws_scalars, reads_scalars, Difficulty, Fault, Grinding, Outcome, PowStrategy, Transcript,
};
use vstd::arithmetic::power2::pow2;
use vstd::prelude::*;

verus! {

/// The same fault, whatever its text says.
pub open spec fn same_kind(one: Fault, other: Fault) -> bool {
    &&& one is InvalidProof == other is InvalidProof
    &&& one is InvalidIO == other is InvalidIO
}

/// Two outcomes with the same value or the same kind of error, which leave related states, as far
/// as these are settled.
pub open spec fn alike<V, A, B>(
    one: Outcome<V, A>,
    other: Outcome<V, B>,
    related: spec_fn(A, B) -> bool,
) -> bool {
    match (one, other) {
        (Ok((v, s)), Ok((w, t))) => v == w && related(s, t),
        (Err(e), Err(f)) => {
            &&& same_kind(e.error, f.error)
            &&& e.state is Some && f.state is Some ==> related(e.state->0, f.state->0)
        },
        _ => false,
    }
}

/// In these states the two transcripts deliver the same next.
pub open spec fn delivers_alike<F: PrimeField, A: Transcript<F>, B: Transcript<F>>(
    related: spec_fn(A::State, B::State) -> bool,
    s: A::State,
    t: B::State,
) -> bool {
    &&& alike(A::reads_bytes(s), B::reads_bytes(t), related)
    &&& alike(A::reads_scalar(s), B::reads_scalar(t), related)
    &&& alike(A::draws_bytes(s), B::draws_bytes(t), related)
    &&& alike(A::draws_scalar(s), B::draws_scalar(t), related)
}

/// In related states the two transcripts deliver the same.
pub open spec fn simulates<F: PrimeField, A: Transcript<F>, B: Transcript<F>>(
    related: spec_fn(A::State, B::State) -> bool,
) -> bool {
    forall|s: A::State, t: B::State|
        #![trigger related(s, t)]
        related(s, t) ==> delivers_alike::<F, A, B>(related, s, t)
}

proof fn lemma_reads_alike<F: PrimeField, A: Transcript<F>, B: Transcript<F>>(
    related: spec_fn(A::State, B::State) -> bool,
    s: A::State,
    t: B::State,
    seen: Seq<nat>,
    n: nat,
)
    requires
        simulates::<F, A, B>(related),
        related(s, t),
    ensures
        alike(reads_scalars::<F, A>(s, seen, n), reads_scalars::<F, B>(t, seen, n), related),
    decreases n,
{
    if n > 0 {
        assert(delivers_alike::<F, A, B>(related, s, t));
        if let Ok((x, after)) = A::reads_scalar(s) {
            let (y, other) = B::reads_scalar(t)->Ok_0;
            lemma_reads_alike::<F, A, B>(related, after, other, seen.push(x), (n - 1) as nat);
        }
    }
}

proof fn lemma_draws_alike<F: PrimeField, A: Transcript<F>, B: Transcript<F>>(
    related: spec_fn(A::State, B::State) -> bool,
    s: A::State,
    t: B::State,
    seen: Seq<nat>,
    n: nat,
)
    requires
        simulates::<F, A, B>(related),
        related(s, t),
    ensures
        alike(draws_scalars::<F, A>(s, seen, n), draws_scalars::<F, B>(t, seen, n), related),
    decreases n,
{
    if n > 0 {
        assert(delivers_alike::<F, A, B>(related, s, t));
        if let Ok((x, after)) = A::draws_scalar(s) {
            let (y, other) = B::draws_scalar(t)->Ok_0;
            lemma_draws_alike::<F, A, B>(related, after, other, seen.push(x), (n - 1) as nat);
        }
    }
}

proof fn lemma_ood_alike<F: PrimeField, A: Transcript<F>, B: Transcript<F>>(
    related: spec_fn(A::State, B::State) -> bool,
    s: A::State,
    t: B::State,
    n: nat,
)
    requires
        simulates::<F, A, B>(related),
        related(s, t),
    ensures
        alike(parses_ood::<F, A>(s, n), parses_ood::<F, B>(t, n), related),
{
    lemma_draws_alike::<F, A, B>(related, s, t, Seq::empty(), n);
    if let Ok((points, drawn)) = draws_scalars::<F, A>(s, Seq::empty(), n) {
        let (same, other) = draws_scalars::<F, B>(t, Seq::empty(), n)->Ok_0;
        lemma_reads_alike::<F, A, B>(related, drawn, other, Seq::empty(), n);
    }
}

proof fn lemma_sumcheck_alike<
    F: PrimeField,
    S: PowStrategy,
    A: Grinding<F, S>,
    B: Grinding<F, S>,
>(
    related: spec_fn(A::State, B::State) -> bool,
    s: A::State,
    t: B::State,
    seen: Seq<(Quadratic, nat)>,
    n: nat,
    difficulty: Difficulty,
)
    requires
        simulates::<F, A, B>(related),
        related(s, t),
        difficulty.bound is None,
    ensures
        alike(
            parses_sumcheck::<F, S, A>(s, seen, n, difficulty),
            parses_sumcheck::<F, S, B>(t, seen, n, difficulty),
            related,
        ),
    decreases n,
{
    if n > 0 {
        lemma_reads_alike::<F, A, B>(related, s, t, Seq::empty(), 3);
        if let Ok((values, s1)) = reads_scalars::<F, A>(s, Seq::empty(), 3) {
            let (same, t1) = reads_scalars::<F, B>(t, Seq::empty(), 3)->Ok_0;
            assert(delivers_alike::<F, A, B>(related, s1, t1));
            if let Ok((challenge, s2)) = A::draws_scalar(s1) {
                let (same, t2) = B::draws_scalar(t1)->Ok_0;
                A::lemma_no_work(s2, difficulty);
                B::lemma_no_work(t2, difficulty);
                let polynomial = Quadratic {
                    at_zero: values[0],
                    at_one: values[1],
                    at_two: values[2],
                };
                lemma_sumcheck_alike::<F, S, A, B>(
                    related,
                    s2,
                    t2,
                    seen.push((polynomial, challenge)),
                    (n - 1) as nat,
                    difficulty,
                );
            }
        }
    }
}

/// Two lists of openings with the same answers, which name and authenticate the same.
pub open spec fn opens_alike<
    F: PrimeField,
    C,
    P: MerkleOpening<C, F>,
    Q: MerkleOpening<C, F>,
>(one: Seq<(P, Vec<Vec<F>>)>, other: Seq<(Q, Vec<Vec<F>>)>) -> bool {
    &&& one.len() == other.len()
    &&& forall|r: int|
        0 <= r < one.len() ==> opening_alike::<F, C, P, Q>(#[trigger] one[r], other[r])
}

/// The same of one opening.
pub open spec fn opening_alike<
    F: PrimeField,
    C,
    P: MerkleOpening<C, F>,
    Q: MerkleOpening<C, F>,
>(one: (P, Vec<Vec<F>>), other: (Q, Vec<Vec<F>>)) -> bool {
    &&& rows(one.1@) == rows(other.1@)
    &&& one.0.positions() == other.0.positions()
    &&& forall|root: Seq<u8>, indexes: Seq<usize>, leaves: Seq<Seq<nat>>| #[trigger]
        one.0.authenticates(root, indexes, leaves) == other.0.authenticates(root, indexes, leaves)
}

impl<F: PrimeField, C, S: PowStrategy> WhirConfig<F, C, S> {
    /// No work is to be shown anywhere.
    pub open spec fn no_work(&self) -> bool {
        &&& self.starting_folding_pow_bits.bound is None
        &&& forall|r: int|
            0 <= r < self.rounds() ==> {
                &&& (#[trigger] self.round_parameters@[r]).pow_bits.bound is None
                &&& self.round_parameters@[r].folding_pow_bits.bound is None
            }
        &&& self.final_pow_bits.bound is None
        &&& self.final_folding_pow_bits.bound is None
    }

    proof fn lemma_commitment_alike<A: Grinding<F, S>, B: Grinding<F, S>>(
        &self,
        related: spec_fn(A::State, B::State) -> bool,
        s: A::State,
        t: B::State,
    )
        requires
            simulates::<F, A, B>(related),
            related(s, t),
        ensures
            alike(self.parses_commitment::<A>(s), self.parses_commitment::<B>(t), related),
    {
        assert(delivers_alike::<F, A, B>(related, s, t));
        if let Ok((root, s1)) = A::reads_bytes(s) {
            let (same, t1) = B::reads_bytes(t)->Ok_0;
            lemma_ood_alike::<F, A, B>(related, s1, t1, self.committment_ood_samples as nat);
        }
    }

    proof fn lemma_round_alike<
        A: Grinding<F, S>,
        B: Grinding<F, S>,
        P: MerkleOpening<C, F>,
        Q: MerkleOpening<C, F>,
    >(
        &self,
        related: spec_fn(A::State, B::State) -> bool,
        s: A::State,
        t: B::State,
        one: Seq<(P, Vec<Vec<F>>)>,
        other: Seq<(Q, Vec<Vec<F>>)>,
        r: nat,
        progress: Progress,
    )
        requires
            simulates::<F, A, B>(related),
            related(s, t),
            opens_alike::<F, C, P, Q>(one, other),
            self.no_work(),
            r < self.rounds(),
        ensures
            alike(
                self.parses_round::<A, P>(s, one, r, progress),
                self.parses_round::<B, Q>(t, other, r, progress),
                related,
            ),
    {
        let round = self.round_parameters@[r as int];
        if r < one.len() {
            assert(opening_alike::<F, C, P, Q>(one[r as int], other[r as int]));
            assert(delivers_alike::<F, A, B>(related, s, t));
            if let Ok((root, s1)) = A::reads_bytes(s) {
                let (same, t1) = B::reads_bytes(t)->Ok_0;
                lemma_ood_alike::<F, A, B>(related, s1, t1, round.ood_samples as nat);
                if let Ok((samples, s2)) = parses_ood::<F, A>(s1, round.ood_samples as nat) {
                    let (same, t2) = parses_ood::<F, B>(t1, round.ood_samples as nat)->Ok_0;
                    assert(delivers_alike::<F, A, B>(related, s2, t2));
                    if let Ok((seed, s3)) = A::draws_bytes(s2) {
                        let (same, t3) = B::draws_bytes(t2)->Ok_0;
                        A::lemma_no_work(s3, round.pow_bits);
                        B::lemma_no_work(t3, round.pow_bits);
                        assert(delivers_alike::<F, A, B>(related, s3, t3));
                        if let Ok((gen, s5)) = A::draws_scalar(s3) {
                            let (same, t5) = B::draws_scalar(t3)->Ok_0;
                            lemma_sumcheck_alike::<F, S, A, B>(
                                related,
                                s5,
                                t5,
                                Seq::empty(),
                                self.folding_factor as nat,
                                round.folding_pow_bits,
                            );
                        }
                    }
                }
            }
        }
    }

    proof fn lemma_rounds_alike<
        A: Grinding<F, S>,
        B: Grinding<F, S>,
        P: MerkleOpening<C, F>,
        Q: MerkleOpening<C, F>,
    >(
        &self,
        related: spec_fn(A::State, B::State) -> bool,
        s: A::State,
        t: B::State,
        one: Seq<(P, Vec<Vec<F>>)>,
        other: Seq<(Q, Vec<Vec<F>>)>,
        r: nat,
        progress: Progress,
    )
        requires
            simulates::<F, A, B>(related),
            related(s, t),
            opens_alike::<F, C, P, Q>(one, other),
            self.no_work(),
        ensures
            alike(
                self.parses_rounds::<A, P>(s, one, r, progress),
                self.parses_rounds::<B, Q>(t, other, r, progress),
                related,
            ),
        decreases self.rounds() - r,
    {
        if r < self.rounds() {
            self.lemma_round_alike::<A, B, P, Q>(related, s, t, one, other, r, progress);
            if let Ok((next, s1)) = self.parses_round::<A, P>(s, one, r, progress) {
                let (same, t1) = self.parses_round::<B, Q>(t, other, r, progress)->Ok_0;
                self.lemma_rounds_alike::<A, B, P, Q>(related, s1, t1, one, other, r + 1, next);
            }
        }
    }

    proof fn lemma_final_alike<
        A: Grinding<F, S>,
        B: Grinding<F, S>,
        P: MerkleOpening<C, F>,
        Q: MerkleOpening<C, F>,
    >(
        &self,
        related: spec_fn(A::State, B::State) -> bool,
        s: A::State,
        t: B::State,
        one: Seq<(P, Vec<Vec<F>>)>,
        other: Seq<(Q, Vec<Vec<F>>)>,
        combination: Seq<nat>,
        initial: Seq<(Quadratic, nat)>,
        progress: Progress,
    )
        requires
            simulates::<F, A, B>(related),
            related(s, t),
            opens_alike::<F, C, P, Q>(one, other),
            self.no_work(),
        ensures
            alike(
                self.parses_final::<A, P>(s, one, combination, initial, progress),
                self.parses_final::<B, Q>(t, other, combination, initial, progress),
                related,
            ),
    {
        let n = pow2(self.final_sumcheck_rounds as nat);
        if one.len() > 0 {
            assert(opening_alike::<F, C, P, Q>(one[one.len() - 1], other[one.len() - 1]));
        }
        lemma_reads_alike::<F, A, B>(related, s, t, Seq::empty(), n);
        if let Ok((coefficients, s1)) = reads_scalars::<F, A>(s, Seq::empty(), n) {
            let (same, t1) = reads_scalars::<F, B>(t, Seq::empty(), n)->Ok_0;
            assert(delivers_alike::<F, A, B>(related, s1, t1));
            if let Ok((seed, s2)) = A::draws_bytes(s1) {
                let (same, t2) = B::draws_bytes(t1)->Ok_0;
                A::lemma_no_work(s2, self.final_pow_bits);
                B::lemma_no_work(t2, self.final_pow_bits);
                lemma_sumcheck_alike::<F, S, A, B>(
                    related,
                    s2,
                    t2,
                    Seq::empty(),
                    self.final_sumcheck_rounds as nat,
                    self.final_folding_pow_bits,
                );
            }
        }
    }

    /// Two transcripts that deliver the same, with openings that authenticate the same, give the
    /// same first pass, where no work is to be shown: the same messages, or the same kind of error.
    pub proof fn law_same_pass<
        A: Grinding<F, S>,
        B: Grinding<F, S>,
        P: MerkleOpening<C, F>,
        Q: MerkleOpening<C, F>,
    >(
        &self,
        related: spec_fn(A::State, B::State) -> bool,
        s: A::State,
        t: B::State,
        one: Seq<(P, Vec<Vec<F>>)>,
        other: Seq<(Q, Vec<Vec<F>>)>,
        points: nat,
    )
        requires
            simulates::<F, A, B>(related),
            related(s, t),
            opens_alike::<F, C, P, Q>(one, other),
            self.no_work(),
        ensures
            alike(
                self.first_pass::<A, P>(s, one, points),
                self.first_pass::<B, Q>(t, other, points),
                related,
            ),
    {
        self.lemma_commitment_alike::<A, B>(related, s, t);
        if let Ok((com, s1)) = self.parses_commitment::<A>(s) {
            let (same, t1) = self.parses_commitment::<B>(t)->Ok_0;
            let claims = com.ood_points.len() + points;
            assert(delivers_alike::<F, A, B>(related, s1, t1));
            if let Ok((gen, s2)) = A::draws_scalar(s1) {
                let (same, t2) = B::draws_scalar(t1)->Ok_0;
                let k = self.folding_factor as nat;
                let work = self.starting_folding_pow_bits;
                lemma_sumcheck_alike::<F, S, A, B>(related, s2, t2, Seq::empty(), k, work);
                if let Ok((sumcheck, s3)) = parses_sumcheck::<F, S, A>(s2, Seq::empty(), k, work) {
                    let (same, t3) = parses_sumcheck::<F, S, B>(t2, Seq::empty(), k, work)->Ok_0;
                    let start = Progress {
                        folding_randomness: reversed_challenges(sumcheck),
                        root: com.root,
                        rounds: Seq::empty(),
                    };
                    self.lemma_rounds_alike::<A, B, P, Q>(related, s3, t3, one, other, 0, start);
                    if let Ok((progress, s4)) = self.parses_rounds::<A, P>(s3, one, 0, start) {
                        let (same, t4) = self.parses_rounds::<B, Q>(t3, other, 0, start)->Ok_0;
                        self.lemma_final_alike::<A, B, P, Q>(
                            related,
                            s4,
                            t4,
                            one,
                            other,
                            crate::poly::powers(F::modulus(), gen, claims),
                            sumcheck,
                            progress,
                        );
                    }
                }
            }
        }
    }

    /// Two transcripts that deliver the same, with openings that authenticate the same, give the
    /// same verdict on a statement, where no work is to be shown.
    pub proof fn law_same_verdict<
        A: Grinding<F, S>,
        B: Grinding<F, S>,
        P: MerkleOpening<C, F>,
        Q: MerkleOpening<C, F>,
    >(
        &self,
        related: spec_fn(A::State, B::State) -> bool,
        s: A::State,
        t: B::State,
        one: Seq<(P, Vec<Vec<F>>)>,
        other: Seq<(Q, Vec<Vec<F>>)>,
        points: Seq<Seq<nat>>,
        values: Seq<nat>,
    )
        requires
            simulates::<F, A, B>(related),
            related(s, t),
            opens_alike::<F, C, P, Q>(one, other),
            self.no_work(),
        ensures
            alike(
                self.verdict::<A, P>(s, one, points, values),
                self.verdict::<B, Q>(t, other, points, values),
                related,
            ),
    {
        self.law_same_pass::<A, B, P, Q>(related, s, t, one, other, points.len());
    }
}

} // verus!
