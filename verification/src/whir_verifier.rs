//! The verifier.
use crate::arthur::{Arthur, ArthurScalar};
use crate::bits::two_to;
use crate::evm_fs::EVMFs;
use crate::evm_merkle::{shows, EVMMultiProof, MerkleOpening};
use crate::field::{
    fpow, half, lemma_fpow_add, lemma_fpow_one, lemma_half_unique, rows, vals, PrimeField,
};
use crate::fold::{compute_fold, fold};
use crate::hasher::{KeccakDigest, MerkleConfig};
use crate::parameters::{FoldType, WhirConfig};
use crate::poly::{
    dot, dot_upto, eq_poly_outside, expand_randomness, inner_product, multilinear, univariate,
    CoefficientList, MultilinearPoint,
};
use crate::protocol::{
    agrees, claim_after, claim_after_rounds, equalities, parses_ood, parses_sumcheck, points_at,
    power_points, reversed_challenges, round_claim, round_holds, rounds_hold, rounds_randomness,
    rounds_weight, sumcheck_holds, Commitment, Messages, Progress, Round,
};
use crate::queries::sample_positions;
use crate::sumcheck::{Quadratic, SumcheckPolynomial};
use crate::transcript::{
    challenge_scalars, lemma_scalars_len, next_scalars, refused, Difficulty, Grinding, PowStrategy,
    ProofError, Refusal, Transcript,
};
use crate::whir::{EVMWhirProof, Statement, WhirProof};
use vstd::arithmetic::power2::{lemma_pow2_pos, lemma_pow2_unfold, pow2};
use vstd::prelude::*;

verus! {

/// The polynomials and challenges of a sumcheck.
pub type SumcheckRounds<F> = Vec<(SumcheckPolynomial<F>, F)>;

/// The messages and challenges of a sumcheck.
pub open spec fn sumcheck_view<F: PrimeField>(s: Seq<(SumcheckPolynomial<F>, F)>) -> Seq<
    (Quadratic, nat),
> {
    s.map_values(|x: (SumcheckPolynomial<F>, F)| (x.0.quadratic(), x.1.val()))
}

/// A commitment as it was read.
pub struct ParsedCommitment<F> {
    pub root: KeccakDigest,
    pub ood_points: Vec<F>,
    pub ood_answers: Vec<F>,
}

impl<F: PrimeField> View for ParsedCommitment<F> {
    type V = Commitment;

    open spec fn view(&self) -> Commitment {
        Commitment {
            root: self.root@,
            ood_points: vals(self.ood_points@),
            ood_answers: vals(self.ood_answers@),
        }
    }
}

/// A round as it was read.
pub struct ParsedRound<'a, F> {
    pub folding_randomness: MultilinearPoint<F>,
    pub ood_points: Vec<F>,
    pub ood_answers: Vec<F>,
    pub stir_challenges_indexes: Vec<usize>,
    pub stir_challenges_points: Vec<F>,
    pub stir_challenges_answers: &'a Vec<Vec<F>>,
    pub combination_randomness: Vec<F>,
    pub sumcheck_rounds: SumcheckRounds<F>,
    pub domain_gen_inv: F,
}

impl<'a, F: PrimeField> View for ParsedRound<'a, F> {
    type V = Round;

    open spec fn view(&self) -> Round {
        Round {
            folding_randomness: self.folding_randomness.coords(),
            ood_points: vals(self.ood_points@),
            ood_answers: vals(self.ood_answers@),
            stir_challenges_indexes: self.stir_challenges_indexes@,
            stir_challenges_points: vals(self.stir_challenges_points@),
            stir_challenges_answers: rows(self.stir_challenges_answers@),
            combination_randomness: vals(self.combination_randomness@),
            sumcheck_rounds: sumcheck_view(self.sumcheck_rounds@),
            domain_gen_inv: self.domain_gen_inv.val(),
        }
    }
}

/// The rounds as they were read.
pub open spec fn rounds_view<'a, F: PrimeField>(rounds: Seq<ParsedRound<'a, F>>) -> Seq<Round> {
    rounds.map_values(|x: ParsedRound<'a, F>| x@)
}

/// What follows a commitment, as it was read.
pub struct ParsedProof<'a, F> {
    pub initial_combination_randomness: Vec<F>,
    pub initial_sumcheck_rounds: SumcheckRounds<F>,
    pub rounds: Vec<ParsedRound<'a, F>>,
    pub final_domain_gen_inv: F,
    pub final_randomness_indexes: Vec<usize>,
    pub final_randomness_points: Vec<F>,
    pub final_randomness_answers: &'a Vec<Vec<F>>,
    pub final_folding_randomness: MultilinearPoint<F>,
    pub final_sumcheck_rounds: SumcheckRounds<F>,
    pub final_sumcheck_randomness: MultilinearPoint<F>,
    pub final_coefficients: CoefficientList<F>,
}

impl<'a, F: PrimeField> View for ParsedProof<'a, F> {
    type V = Messages;

    open spec fn view(&self) -> Messages {
        Messages {
            initial_combination_randomness: vals(self.initial_combination_randomness@),
            initial_sumcheck_rounds: sumcheck_view(self.initial_sumcheck_rounds@),
            rounds: rounds_view(self.rounds@),
            final_domain_gen_inv: self.final_domain_gen_inv.val(),
            final_randomness_indexes: self.final_randomness_indexes@,
            final_randomness_points: vals(self.final_randomness_points@),
            final_randomness_answers: rows(self.final_randomness_answers@),
            final_folding_randomness: self.final_folding_randomness.coords(),
            final_sumcheck_rounds: sumcheck_view(self.final_sumcheck_rounds@),
            final_sumcheck_randomness: self.final_sumcheck_randomness.coords(),
            final_coefficients: self.final_coefficients.list(),
        }
    }
}

/// Draws `n` out-of-domain points and reads the answers.
fn parse_ood<F: PrimeField, T: Transcript<F>>(transcript: &mut T, n: usize) -> (r: Result<
    (Vec<F>, Vec<F>),
    ProofError,
>)
    ensures
        final(transcript).kept() == old(transcript).kept(),
        match parses_ood::<F, T>(old(transcript).state(), n as nat) {
            Ok(((points, answers), after)) => r matches Ok(x) && vals(x.0@) == points && vals(x.1@)
                == answers && x.0@.len() == n && final(transcript).state() == after,
            Err(e) => r matches Err(x) && refused(e, x, final(transcript).state()),
        },
{
    let ghost start = transcript.state();
    let points: Vec<F> = match challenge_scalars::<F, T>(transcript, n) {
        Ok(points) => points,
        Err(e) => {
            return Err(e);
        },
    };
    proof {
        lemma_scalars_len::<F, T>(start, Seq::empty(), n as nat);
    }
    match next_scalars::<F, T>(transcript, n) {
        Ok(answers) => Ok((points, answers)),
        Err(e) => Err(e),
    }
}

/// Reads a sumcheck of `n` rounds.
fn parse_sumcheck<F: PrimeField, S: PowStrategy, T: Grinding<F, S>>(
    transcript: &mut T,
    n: usize,
    difficulty: Difficulty,
) -> (r: Result<SumcheckRounds<F>, ProofError>)
    ensures
        final(transcript).kept() == old(transcript).kept(),
        match parses_sumcheck::<F, S, T>(
            old(transcript).state(),
            Seq::empty(),
            n as nat,
            difficulty,
        ) {
            Ok((rounds, after)) => r matches Ok(x) && sumcheck_view(x@) == rounds && x@.len() == n
                && final(transcript).state() == after,
            Err(e) => r matches Err(x) && refused(e, x, final(transcript).state()),
        },
{
    let ghost start = transcript.state();
    let mut rounds: SumcheckRounds<F> = Vec::with_capacity(n);
    let mut i: usize = 0;
    assert(sumcheck_view(rounds@) =~= Seq::<(Quadratic, nat)>::empty());
    while i < n
        invariant
            i <= n,
            start == old(transcript).state(),
            transcript.kept() == old(transcript).kept(),
            rounds@.len() == i,
            parses_sumcheck::<F, S, T>(
                transcript.state(),
                sumcheck_view(rounds@),
                (n - i) as nat,
                difficulty,
            ) == parses_sumcheck::<F, S, T>(start, Seq::empty(), n as nat, difficulty),
        decreases n - i,
    {
        let ghost before = sumcheck_view(rounds@);
        proof {
            lemma_scalars_len::<F, T>(transcript.state(), Seq::empty(), 3);
        }
        let values: Vec<F> = match next_scalars::<F, T>(transcript, 3) {
            Ok(values) => values,
            Err(e) => {
                return Err(e);
            },
        };
        assert(vals(values@).len() == 3);
        let polynomial = SumcheckPolynomial::new([values[0], values[1], values[2]]);
        let challenge: F = match transcript.challenge_scalar() {
            Ok(challenge) => challenge,
            Err(e) => {
                return Err(e);
            },
        };
        if let Err(e) = Grinding::<F, S>::challenge_pow(transcript, difficulty) {
            return Err(e);
        }
        rounds.push((polynomial, challenge));
        assert(sumcheck_view(rounds@) =~= before.push((polynomial.quadratic(), challenge.val())));
        i += 1;
    }
    Ok(rounds)
}

/// The challenges of a sumcheck, the last one first.
fn folding_point<F: PrimeField>(rounds: &SumcheckRounds<F>) -> (r: MultilinearPoint<F>)
    ensures
        r.coords() == reversed_challenges(sumcheck_view(rounds@)),
{
    let mut coords: Vec<F> = Vec::with_capacity(rounds.len());
    let mut i: usize = rounds.len();
    while i > 0
        invariant
            i <= rounds@.len(),
            coords@.len() == rounds@.len() - i,
            forall|j: int|
                0 <= j < coords@.len() ==> #[trigger] coords@[j] == rounds@[rounds@.len() - 1
                    - j].1,
        decreases i,
    {
        i -= 1;
        coords.push(rounds[i].1);
    }
    let r = MultilinearPoint(coords);
    assert(r.coords() =~= reversed_challenges(sumcheck_view(rounds@)));
    r
}

/// The generator's powers at `indexes`.
fn powers_at<F: PrimeField>(generator: F, indexes: &Vec<usize>) -> (r: Vec<F>)
    ensures
        vals(r@) == points_at(F::modulus(), generator.val(), indexes@),
{
    let mut r: Vec<F> = Vec::with_capacity(indexes.len());
    let mut i: usize = 0;
    while i < indexes.len()
        invariant
            i <= indexes@.len(),
            r@.len() == i,
            forall|j: int|
                0 <= j < i ==> (#[trigger] r@[j]).val() == fpow(
                    F::modulus(),
                    generator.val(),
                    indexes@[j] as nat,
                ),
        decreases indexes@.len() - i,
    {
        r.push(generator.pow(indexes[i] as u64));
        i += 1;
    }
    assert(vals(r@) =~= points_at(F::modulus(), generator.val(), indexes@));
    r
}

/// Appends copies of the elements of `more`.
fn append<F: PrimeField>(v: &mut Vec<F>, more: &Vec<F>)
    ensures
        final(v)@ == old(v)@ + more@,
{
    let ghost start = v@;
    let mut i: usize = 0;
    assert(start + more@.take(0) =~= start);
    while i < more.len()
        invariant
            i <= more@.len(),
            v@ == start + more@.take(i as int),
        decreases more@.len() - i,
    {
        v.push(more[i]);
        i += 1;
        assert(start + more@.take(i as int) =~= (start + more@.take(i - 1)).push(more@[i - 1]));
    }
    assert(more@.take(i as int) =~= more@);
}

/// A copy of the elements.
fn copied<F: PrimeField>(v: &Vec<F>) -> (r: Vec<F>)
    ensures
        r@ == v@,
{
    let mut r: Vec<F> = Vec::with_capacity(v.len());
    append(&mut r, v);
    assert(r@ =~= v@);
    r
}

/// The point at which all the foldings together evaluate the committed polynomial.
fn full_point<F: PrimeField>(proof: &ParsedProof<'_, F>) -> (r: MultilinearPoint<F>)
    ensures
        r.coords() == proof@.full_point(),
{
    let ghost m = proof@;
    let mut coords: Vec<F> = copied(&proof.final_sumcheck_randomness.0);
    append(&mut coords, &proof.final_folding_randomness.0);
    let mut r: usize = proof.rounds.len();
    proof {
        assert(vals(coords@) =~= m.final_sumcheck_randomness + m.final_folding_randomness);
        assert(m.rounds.take(r as int) =~= m.rounds);
    }
    while r > 0
        invariant
            m == proof@,
            r <= proof.rounds@.len(),
            vals(coords@) + rounds_randomness(m.rounds.take(r as int)) == m.full_point(),
        decreases r,
    {
        let ghost before = vals(coords@);
        r -= 1;
        let part = &proof.rounds[r].folding_randomness.0;
        append(&mut coords, part);
        proof {
            let now = m.rounds.take(r + 1);
            assert(now.last() == proof.rounds@[r as int]@);
            assert(now.drop_last() =~= m.rounds.take(r as int));
            assert(vals(coords@) =~= before + vals(part@));
            assert(before + (vals(part@) + rounds_randomness(m.rounds.take(r as int))) =~= (before
                + vals(part@)) + rounds_randomness(m.rounds.take(r as int)));
        }
    }
    assert(vals(coords@) + rounds_randomness(m.rounds.take(0)) =~= vals(coords@));
    MultilinearPoint(coords)
}

/// The first `n` coordinates of a point.
fn first_coordinates<F: PrimeField>(
    point: &MultilinearPoint<F>,
    n: usize,
) -> (r: MultilinearPoint<F>)
    requires
        n <= point.0@.len(),
    ensures
        r.coords() == point.coords().take(n as int),
{
    let mut coords: Vec<F> = Vec::with_capacity(n);
    let mut i: usize = 0;
    while i < n
        invariant
            i <= n <= point.0@.len(),
            coords@ == point.0@.take(i as int),
        decreases n - i,
    {
        coords.push(point.0[i]);
        i += 1;
        assert(point.0@.take(i as int) =~= point.0@.take(i - 1).push(point.0@[i - 1]));
    }
    let r = MultilinearPoint(coords);
    assert(r.coords() =~= point.coords().take(n as int));
    r
}

/// What the claims of a round add to the weight at `point`.
fn round_weight<F: PrimeField>(
    round: &ParsedRound<'_, F>,
    point: &MultilinearPoint<F>,
    num_variables: usize,
) -> (r: F)
    requires
        point.0@.len() == num_variables,
        round@.combination_randomness.len() == round@.ood_points.len()
            + round@.stir_challenges_points.len(),
    ensures
        r.val() == dot(
            F::modulus(),
            equalities(
                F::modulus(),
                power_points(
                    F::modulus(),
                    round@.ood_points + round@.stir_challenges_points,
                    num_variables as nat,
                ),
                point.coords(),
            ),
            round@.combination_randomness,
        ),
{
    let ghost p = F::modulus();
    let ghost all = round@.ood_points + round@.stir_challenges_points;
    let ghost eqs = equalities(p, power_points(p, all, num_variables as nat), point.coords());
    let n: usize = round.ood_points.len();
    let total: usize = round.combination_randomness.len();
    let mut value: F = F::zero();
    let mut i: usize = 0;
    while i < total
        invariant
            i <= total,
            p == F::modulus(),
            n == round.ood_points@.len(),
            total == round.combination_randomness@.len(),
            total == n + round.stir_challenges_points@.len(),
            point.0@.len() == num_variables,
            all == round@.ood_points + round@.stir_challenges_points,
            eqs == equalities(p, power_points(p, all, num_variables as nat), point.coords()),
            value.val() == dot_upto(p, eqs, round@.combination_randomness, i as nat),
        decreases total - i,
    {
        let univariate: F = if i < n {
            round.ood_points[i]
        } else {
            round.stir_challenges_points[i - n]
        };
        assert(univariate.val() == all[i as int]);
        let stir_challenge = MultilinearPoint::expand_from_univariate(univariate, num_variables);
        assert(stir_challenge.coords().len() == num_variables);
        value = value.plus(
            eq_poly_outside(&stir_challenge, point).times(round.combination_randomness[i]),
        );
        i += 1;
    }
    value
}

/// The sum of the values in `first` and `second`, one after the other, each times its element of
/// `randomness`, as far as there are both.
fn combined<F: PrimeField>(first: &Vec<F>, second: &Vec<F>, randomness: &Vec<F>) -> (r: F)
    ensures
        r.val() == dot(F::modulus(), vals(first@) + vals(second@), vals(randomness@)),
{
    let mut values: Vec<F> = copied(first);
    append(&mut values, second);
    assert(vals(values@) =~= vals(first@) + vals(second@));
    inner_product(&values, randomness)
}

/// Whether the elements agree, as far as both lists reach.
fn agree<F: PrimeField>(xs: &Vec<F>, ys: &Vec<F>) -> (r: bool)
    ensures
        r == agrees(vals(xs@), vals(ys@)),
{
    let mut i: usize = 0;
    while i < xs.len() && i < ys.len()
        invariant
            i <= xs@.len(),
            i <= ys@.len(),
            forall|j: int| 0 <= j < i ==> #[trigger] vals(xs@)[j] == vals(ys@)[j],
        decreases xs@.len() - i,
    {
        if !xs[i].equals(ys[i]) {
            assert(vals(xs@)[i as int] != vals(ys@)[i as int]);
            return false;
        }
        i += 1;
    }
    true
}

/// Decides whether a polynomial that was committed to takes the values that a statement claims.
pub struct Verifier<F: PrimeField, C, S> {
    params: WhirConfig<F, C, S>,
    two_inv: F,
}

impl<F: PrimeField, C, S> Verifier<F, C, S> {
    #[verifier::type_invariant]
    spec fn halves(self) -> bool {
        self.two_inv.val() == half(F::modulus())
    }

    /// The parameters.
    pub closed spec fn config(&self) -> WhirConfig<F, C, S> {
        self.params
    }

    pub fn new(params: WhirConfig<F, C, S>) -> (r: Self)
        ensures
            r.config() == params,
    {
        let two: F = F::from_u64(2);
        proof {
            F::lemma_modulus();
            vstd::arithmetic::div_mod::lemma_small_mod(2, F::modulus());
        }
        match two.inverse() {
            Some(two_inv) => {
                proof {
                    two_inv.lemma_val();
                    lemma_half_unique(F::modulus(), two_inv.val());
                }
                Verifier { params, two_inv }
            },
            None => vstd::pervasive::unreached(),
        }
    }
}

impl<F: PrimeField, C, S: PowStrategy> Verifier<F, C, S> {
    /// Reads the commitment.
    pub fn parse_commitment<T: Grinding<F, S>>(&self, transcript: &mut T) -> (r: Result<
        ParsedCommitment<F>,
        ProofError,
    >)
        ensures
            final(transcript).kept() == old(transcript).kept(),
            match self.config().parses_commitment::<T>(old(transcript).state()) {
                Ok((c, after)) => r matches Ok(x) && x@ == c && x.ood_points@.len()
                    == self.config().committment_ood_samples && final(transcript).state() == after,
                Err(e) => r matches Err(x) && refused(e, x, final(transcript).state()),
            },
    {
        let root: [u8; 32] = match transcript.next_hash() {
            Ok(root) => root,
            Err(e) => {
                return Err(e);
            },
        };
        match parse_ood::<F, T>(transcript, self.params.committment_ood_samples) {
            Ok((ood_points, ood_answers)) => Ok(
                ParsedCommitment { root: KeccakDigest(root), ood_points, ood_answers },
            ),
            Err(e) => Err(e),
        }
    }

    /// Reads round `r` and adds it to `rounds`; gives the folding randomness and the root that the
    /// next round uses. The domain has `domain_size` points, `exp_domain_gen` generates its
    /// cosets, and `domain_gen_inv` is the inverse of its generator.
    fn parse_round<'a, T: Grinding<F, S>, P: MerkleOpening<C, F>>(
        &self,
        transcript: &mut T,
        whir_proof: &'a Vec<(P, Vec<Vec<F>>)>,
        r: usize,
        folding_randomness: MultilinearPoint<F>,
        prev_root: KeccakDigest,
        exp_domain_gen: F,
        domain_gen_inv: F,
        domain_size: usize,
        rounds: &mut Vec<ParsedRound<'a, F>>,
    ) -> (res: Result<(MultilinearPoint<F>, KeccakDigest), ProofError>)
        requires
            self.config().wf(),
            r < self.config().rounds(),
            exp_domain_gen.val() == self.config().folded_gen(r as nat),
            domain_gen_inv.val() == self.config().gen_inv(r as nat),
            domain_size == self.config().domain_size(r as nat),
        ensures
            final(transcript).kept() == old(transcript).kept(),
            match self.config().parses_round::<T, P>(
                old(transcript).state(),
                whir_proof@,
                r as nat,
                (Progress {
                    folding_randomness: folding_randomness.coords(),
                    root: prev_root@,
                    rounds: rounds_view(old(rounds)@),
                }),
            ) {
                Ok((next, after)) => res matches Ok(x) && next == (Progress {
                    folding_randomness: x.0.coords(),
                    root: x.1@,
                    rounds: rounds_view(final(rounds)@),
                }) && self.config().round_within(next.rounds.last(), r as nat) && final(
                    transcript).state() == after,
                Err(e) => res matches Err(x) && refused(e, x, final(transcript).state()),
            },
    {
        if r >= whir_proof.len() {
            return Err(ProofError::InvalidProof);
        }
        let (merkle_proof, answers) = &whir_proof[r];
        let round_params = &self.params.round_parameters[r];
        let new_root: [u8; 32] = match transcript.next_hash() {
            Ok(root) => root,
            Err(e) => {
                return Err(e);
            },
        };
        let (ood_points, ood_answers) = match parse_ood::<F, T>(
            transcript,
            round_params.ood_samples,
        ) {
            Ok(samples) => samples,
            Err(e) => {
                return Err(e);
            },
        };
        let stir_queries_seed: [u8; 32] = match transcript.challenge_hash() {
            Ok(seed) => seed,
            Err(e) => {
                return Err(e);
            },
        };
        let folded_domain_size: usize = domain_size / two_to(self.params.folding_factor);
        let stir_challenges_indexes = sample_positions(
            stir_queries_seed,
            folded_domain_size,
            round_params.num_queries,
        );
        let stir_challenges_points = powers_at(exp_domain_gen, &stir_challenges_indexes);
        if !shows::<C, F, P>(merkle_proof, &prev_root, &stir_challenges_indexes, answers) {
            return Err(ProofError::InvalidProof);
        }
        if let Err(e) = Grinding::<F, S>::challenge_pow(transcript, round_params.pow_bits) {
            return Err(e);
        }
        let combination_randomness_gen: F = match transcript.challenge_scalar() {
            Ok(x) => x,
            Err(e) => {
                return Err(e);
            },
        };
        let combination_randomness = expand_randomness(
            combination_randomness_gen,
            stir_challenges_indexes.len() + round_params.ood_samples,
        );
        let sumcheck_rounds = match parse_sumcheck::<F, S, T>(
            transcript,
            self.params.folding_factor,
            round_params.folding_pow_bits,
        ) {
            Ok(sumcheck) => sumcheck,
            Err(e) => {
                return Err(e);
            },
        };
        let new_folding_randomness = folding_point(&sumcheck_rounds);
        let ghost before = rounds_view(rounds@);
        rounds.push(
            ParsedRound {
                folding_randomness,
                ood_points,
                ood_answers,
                stir_challenges_indexes,
                stir_challenges_points,
                stir_challenges_answers: answers,
                combination_randomness,
                sumcheck_rounds,
                domain_gen_inv,
            },
        );
        assert(rounds_view(rounds@) =~= before.push(rounds@.last()@));
        Ok((new_folding_randomness, KeccakDigest(new_root)))
    }

    /// Reads what follows the commitment.
    pub fn parse_proof<'a, T: Grinding<F, S>, P: MerkleOpening<C, F>>(
        &self,
        transcript: &mut T,
        parsed_commitment: &ParsedCommitment<F>,
        statement: &Statement<F>,
        whir_proof: &'a Vec<(P, Vec<Vec<F>>)>,
    ) -> (res: Result<ParsedProof<'a, F>, ProofError>)
        requires
            self.config().wf(),
            parsed_commitment@.ood_points.len() + statement.points@.len() <= usize::MAX,
        ensures
            final(transcript).kept() == old(transcript).kept(),
            match self.config().parses_messages::<T, P>(
                old(transcript).state(),
                whir_proof@,
                parsed_commitment@.root,
                parsed_commitment@.ood_points.len() + statement.points@.len(),
            ) {
                Ok((m, after)) => res matches Ok(x) && x@ == m && self.config().shaped(m)
                    && self.config().queries_within(m) && final(transcript).state() == after,
                Err(e) => res matches Err(x) && refused(e, x, final(transcript).state()),
            },
    {
        let ghost p = F::modulus();
        let ghost cfg = self.params;
        // Derive combination randomness and first sumcheck polynomial
        let combination_randomness_gen: F = match transcript.challenge_scalar() {
            Ok(x) => x,
            Err(e) => {
                return Err(e);
            },
        };
        let initial_combination_randomness = expand_randomness(
            combination_randomness_gen,
            parsed_commitment.ood_points.len() + statement.points.len(),
        );
        let initial_sumcheck_rounds = match parse_sumcheck::<F, S, T>(
            transcript,
            self.params.folding_factor,
            self.params.starting_folding_pow_bits,
        ) {
            Ok(sumcheck) => sumcheck,
            Err(e) => {
                return Err(e);
            },
        };
        let mut folding_randomness = folding_point(&initial_sumcheck_rounds);
        let mut prev_root: KeccakDigest = parsed_commitment.root;
        let domain_gen: F = self.params.starting_domain.group_gen;
        let mut exp_domain_gen: F = domain_gen.pow(two_to(self.params.folding_factor) as u64);
        let mut domain_gen_inv: F = self.params.starting_domain.group_gen_inv;
        let mut domain_size: usize = self.params.starting_domain.size;
        let mut rounds: Vec<ParsedRound<'a, F>> = Vec::new();
        let n: usize = self.params.n_rounds();
        proof {
            F::lemma_modulus();
            vstd::arithmetic::power2::lemma2_to64();
            domain_gen_inv.lemma_val();
            lemma_fpow_one(p, domain_gen_inv.val());
            assert(rounds_view(rounds@) =~= Seq::<Round>::empty());
        }
        let ghost start = transcript.state();
        let ghost first = Progress {
            folding_randomness: folding_randomness.coords(),
            root: prev_root@,
            rounds: Seq::empty(),
        };
        let mut r: usize = 0;
        while r < n
            invariant
                r <= n,
                n == cfg.rounds(),
                cfg == self.params,
                cfg.wf(),
                p == F::modulus(),
                p > 0,
                transcript.kept() == old(transcript).kept(),
                exp_domain_gen.val() == cfg.folded_gen(r as nat),
                domain_gen_inv.val() == cfg.gen_inv(r as nat),
                domain_size == cfg.domain_size(r as nat),
                cfg.parses_rounds::<T, P>(
                    transcript.state(),
                    whir_proof@,
                    r as nat,
                    (Progress {
                        folding_randomness: folding_randomness.coords(),
                        root: prev_root@,
                        rounds: rounds_view(rounds@),
                    }),
                ) == cfg.parses_rounds::<T, P>(start, whir_proof@, 0, first),
                match cfg.parses_rounds::<T, P>(start, whir_proof@, 0, first) {
                    Ok(_) => true,
                    Err(e) => cfg.parses_messages::<T, P>(
                        old(transcript).state(),
                        whir_proof@,
                        parsed_commitment@.root,
                        parsed_commitment@.ood_points.len() + statement.points@.len(),
                    ) == Err::<(Messages, T::State), Refusal<T::State>>(e),
                },
            decreases n - r,
        {
            match self.parse_round::<T, P>(
                transcript,
                whir_proof,
                r,
                folding_randomness,
                prev_root,
                exp_domain_gen,
                domain_gen_inv,
                domain_size,
                &mut rounds,
            ) {
                Ok((next_randomness, next_root)) => {
                    folding_randomness = next_randomness;
                    prev_root = next_root;
                },
                Err(e) => {
                    return Err(e);
                },
            }
            proof {
                let k = cfg.folding_factor as nat;
                lemma_pow2_unfold((r + 1) as nat);
                lemma_pow2_unfold(k + (r + 1) as nat);
                lemma_fpow_add(p, cfg.starting_domain.group_gen.val(), pow2(k + r as nat), pow2(
                    k + r as nat));
                lemma_fpow_add(p, cfg.starting_domain.group_gen_inv.val(), pow2(r as nat), pow2(
                    r as nat));
                lemma_pow2_pos(r as nat);
                vstd::arithmetic::div_mod::lemma_div_denominator(
                    cfg.starting_domain.size as int,
                    pow2(r as nat) as int,
                    2,
                );
            }
            exp_domain_gen = exp_domain_gen.times(exp_domain_gen);
            domain_gen_inv = domain_gen_inv.times(domain_gen_inv);
            domain_size = domain_size / 2;
            r += 1;
        }
        let ghost progress = Progress {
            folding_randomness: folding_randomness.coords(),
            root: prev_root@,
            rounds: rounds_view(rounds@),
        };
        let coefficients: Vec<F> = match next_scalars::<F, T>(
            transcript,
            two_to(self.params.final_sumcheck_rounds),
        ) {
            Ok(coefficients) => coefficients,
            Err(e) => {
                return Err(e);
            },
        };
        let final_coefficients = CoefficientList::new(coefficients);
        // Final queries verify
        let queries_seed: [u8; 32] = match transcript.challenge_hash() {
            Ok(seed) => seed,
            Err(e) => {
                return Err(e);
            },
        };
        let folded_domain_size: usize = domain_size / two_to(self.params.folding_factor);
        let final_randomness_indexes = sample_positions(
            queries_seed,
            folded_domain_size,
            self.params.final_queries,
        );
        let final_randomness_points = powers_at(exp_domain_gen, &final_randomness_indexes);
        if whir_proof.len() == 0 {
            return Err(ProofError::InvalidProof);
        }
        let (final_merkle_proof, final_randomness_answers) = &whir_proof[whir_proof.len() - 1];
        if !shows::<C, F, P>(
            final_merkle_proof,
            &prev_root,
            &final_randomness_indexes,
            final_randomness_answers,
        ) {
            return Err(ProofError::InvalidProof);
        }
        if let Err(e) = Grinding::<F, S>::challenge_pow(transcript, self.params.final_pow_bits) {
            return Err(e);
        }
        let final_sumcheck_rounds = match parse_sumcheck::<F, S, T>(
            transcript,
            self.params.final_sumcheck_rounds,
            self.params.final_folding_pow_bits,
        ) {
            Ok(sumcheck) => sumcheck,
            Err(e) => {
                return Err(e);
            },
        };
        let final_sumcheck_randomness = folding_point(&final_sumcheck_rounds);
        proof {
            self.config().law_messages_shaped::<T, P>(
                old(transcript).state(),
                whir_proof@,
                parsed_commitment@.root,
                parsed_commitment@.ood_points.len() + statement.points@.len(),
            );
            self.config().law_queries_within::<T, P>(
                old(transcript).state(),
                whir_proof@,
                parsed_commitment@.root,
                parsed_commitment@.ood_points.len() + statement.points@.len(),
            );
        }
        Ok(
            ParsedProof {
                initial_combination_randomness,
                initial_sumcheck_rounds,
                rounds,
                final_domain_gen_inv: domain_gen_inv,
                final_folding_randomness: folding_randomness,
                final_randomness_indexes,
                final_randomness_points,
                final_randomness_answers,
                final_sumcheck_rounds,
                final_sumcheck_randomness,
                final_coefficients,
            },
        )
    }
}

impl<F: PrimeField, C, S> Verifier<F, C, S> {
    /// Folds the values that the answers to one round of queries hold, each on the coset of its
    /// index; nothing where an answer is too short. The domain falls into `cosets` cosets, and
    /// `domain_gen_inv` is the inverse of its generator.
    #[verifier::spinoff_prover]
    fn fold_values(
        &self,
        indexes: &Vec<usize>,
        answers: &Vec<Vec<F>>,
        folding_randomness: &MultilinearPoint<F>,
        domain_gen_inv: F,
        cosets: usize,
    ) -> (r: Option<Vec<F>>)
        requires
            self.config().wf(),
            folding_randomness.0@.len() == self.config().folding_factor,
        ensures
            r is Some <==> self.config().full_foldable(indexes@, rows(answers@)),
            r matches Some(f) ==> vals(f@) == self.config().full_folds(
                indexes@,
                rows(answers@),
                folding_randomness.coords(),
                domain_gen_inv.val(),
                cosets as nat,
            ),
    {
        proof {
            use_type_invariant(self);
        }
        let ghost p = F::modulus();
        let ghost given = rows(answers@);
        let two_inv: F = self.two_inv;
        let k: usize = self.params.folding_factor;
        let coset_size: usize = two_to(k);
        let coset_generator_inv: F = domain_gen_inv.pow(cosets as u64);
        let mut evaluations: Vec<F> = Vec::new();
        let mut i: usize = 0;
        while i < indexes.len() && i < answers.len()
            invariant
                i <= indexes@.len(),
                i <= answers@.len(),
                p == F::modulus(),
                given == rows(answers@),
                k == self.config().folding_factor,
                coset_size == self.config().coset_size(),
                coset_size == pow2(k as nat),
                two_inv.val() == half(p),
                folding_randomness.0@.len() == k,
                coset_generator_inv.val() == fpow(p, domain_gen_inv.val(), cosets as nat),
                evaluations@.len() == i,
                forall|j: int| 0 <= j < i ==> (#[trigger] given[j]).len() >= coset_size,
                forall|j: int|
                    0 <= j < i ==> (#[trigger] evaluations@[j]).val() == fold(
                        p,
                        given[j],
                        folding_randomness.coords(),
                        fpow(p, domain_gen_inv.val(), indexes@[j] as nat),
                        fpow(p, domain_gen_inv.val(), cosets as nat),
                        half(p),
                        k as nat,
                    ),
            decreases indexes@.len() - i,
        {
            let answer = &answers[i];
            assert(given[i as int] == vals(answer@));
            if answer.len() < coset_size {
                return None;
            }
            let coset_offset_inv: F = domain_gen_inv.pow(indexes[i] as u64);
            evaluations.push(
                compute_fold(
                    answer,
                    &folding_randomness.0,
                    coset_offset_inv,
                    coset_generator_inv,
                    two_inv,
                    k,
                ),
            );
            i += 1;
        }
        assert(vals(evaluations@) =~= self.config().full_folds(
            indexes@,
            given,
            folding_randomness.coords(),
            domain_gen_inv.val(),
            cosets as nat,
        ));
        Some(evaluations)
    }

    /// Evaluates the polynomials whose coefficients the answers to one round of queries hold;
    /// nothing where an answer has the wrong length.
    #[verifier::spinoff_prover]
    fn evaluate_answers(
        &self,
        answers: &Vec<Vec<F>>,
        folding_randomness: &MultilinearPoint<F>,
    ) -> (r: Option<Vec<F>>)
        requires
            self.config().wf(),
            folding_randomness.0@.len() == self.config().folding_factor,
        ensures
            r is Some <==> self.config().helped_foldable(rows(answers@)),
            r matches Some(f) ==> vals(f@) == self.config().helped_folds(
                rows(answers@),
                folding_randomness.coords(),
            ),
    {
        let ghost p = F::modulus();
        let ghost given = rows(answers@);
        let coset_size: usize = two_to(self.params.folding_factor);
        let mut evaluations: Vec<F> = Vec::new();
        let mut i: usize = 0;
        while i < answers.len()
            invariant
                i <= answers@.len(),
                p == F::modulus(),
                given == rows(answers@),
                coset_size == self.config().coset_size(),
                folding_randomness.0@.len() == self.config().folding_factor,
                evaluations@.len() == i,
                forall|j: int| 0 <= j < i ==> (#[trigger] given[j]).len() == coset_size,
                forall|j: int|
                    0 <= j < i ==> (#[trigger] evaluations@[j]).val() == multilinear(
                        p,
                        given[j],
                        folding_randomness.coords(),
                    ),
            decreases answers@.len() - i,
        {
            let answer = &answers[i];
            assert(given[i as int] == vals(answer@));
            if answer.len() != coset_size {
                return None;
            }
            let polynomial = CoefficientList::new(copied(answer));
            evaluations.push(polynomial.evaluate(folding_randomness));
            i += 1;
        }
        assert(vals(evaluations@) =~= self.config().helped_folds(
            given,
            folding_randomness.coords(),
        ));
        Some(evaluations)
    }
}

impl<F: PrimeField, C, S: PowStrategy> Verifier<F, C, S> {
    /// Folds the answers of every round, and those to the final queries, in the way that the
    /// parameters name; nothing where an answer has the wrong length.
    pub fn compute_folds(&self, parsed: &ParsedProof<'_, F>) -> (r: Option<Vec<Vec<F>>>)
        requires
            self.config().wf(),
            self.config().foldings_sized(parsed@),
        ensures
            r is Some <==> self.config().all_foldable(parsed@),
            r matches Some(f) ==> rows(f@) == self.config().every_fold(parsed@),
    {
        proof {
            self.config().law_fold_dispatch(parsed@);
        }
        match self.params.fold_optimisation {
            FoldType::Naive => self.compute_folds_full(parsed),
            FoldType::ProverHelps => self.compute_folds_helped(parsed),
        }
    }

    /// Folds the values that the answers of every round, and those to the final queries, hold on
    /// the cosets of their indexes; nothing where an answer is too short.
    #[verifier::spinoff_prover]
    pub fn compute_folds_full(&self, parsed: &ParsedProof<'_, F>) -> (r: Option<Vec<Vec<F>>>)
        requires
            self.config().wf(),
            self.config().foldings_sized(parsed@),
        ensures
            r is Some <==> self.config().all_full_foldable(parsed@),
            r matches Some(f) ==> rows(f@) == self.config().every_full_fold(parsed@),
    {
        let ghost cfg = self.params;
        let ghost m = parsed@;
        let ghost folds = cfg.every_full_fold(m);
        let coset_size: usize = two_to(self.params.folding_factor);
        let mut domain_size: usize = self.params.starting_domain.size;
        let mut result: Vec<Vec<F>> = Vec::new();
        let mut r: usize = 0;
        proof {
            vstd::arithmetic::power2::lemma2_to64();
            assert(rows(result@) =~= folds.take(0));
        }
        while r < parsed.rounds.len()
            invariant
                cfg == self.params,
                cfg.wf(),
                m == parsed@,
                folds == cfg.every_full_fold(m),
                cfg.foldings_sized(m),
                r <= parsed.rounds@.len(),
                coset_size == cfg.coset_size(),
                coset_size > 0,
                domain_size == cfg.domain_size(r as nat),
                rows(result@) == folds.take(r as int),
                forall|j: int|
                    0 <= j < r ==> cfg.full_foldable(
                        (#[trigger] m.rounds[j]).stir_challenges_indexes,
                        m.rounds[j].stir_challenges_answers,
                    ),
            decreases parsed.rounds@.len() - r,
        {
            let round = &parsed.rounds[r];
            proof {
                assert(m.rounds[r as int] == round@);
                assert(round.folding_randomness.coords().len() == cfg.folding_factor);
            }
            match self.fold_values(
                &round.stir_challenges_indexes,
                round.stir_challenges_answers,
                &round.folding_randomness,
                round.domain_gen_inv,
                domain_size / coset_size,
            ) {
                Some(evaluations) => {
                    let ghost before = rows(result@);
                    result.push(evaluations);
                    proof {
                        assert(folds[r as int] == cfg.round_full_folds(
                            m.rounds[r as int],
                            r as nat,
                        ));
                        assert(rows(result@) =~= before.push(vals(evaluations@)));
                        assert(folds.take(r + 1) =~= folds.take(r as int).push(folds[r as int]));
                    }
                },
                None => {
                    return None;
                },
            }
            proof {
                lemma_pow2_unfold((r + 1) as nat);
                lemma_pow2_pos(r as nat);
                vstd::arithmetic::div_mod::lemma_div_denominator(
                    cfg.starting_domain.size as int,
                    pow2(r as nat) as int,
                    2,
                );
            }
            domain_size = domain_size / 2;
            r += 1;
        }
        // Final round
        proof {
            assert(parsed.final_folding_randomness.coords().len() == cfg.folding_factor);
        }
        match self.fold_values(
            &parsed.final_randomness_indexes,
            parsed.final_randomness_answers,
            &parsed.final_folding_randomness,
            parsed.final_domain_gen_inv,
            domain_size / coset_size,
        ) {
            Some(evaluations) => {
                let ghost before = rows(result@);
                result.push(evaluations);
                proof {
                    assert(rows(result@) =~= before.push(vals(evaluations@)));
                    assert(folds =~= folds.take(r as int).push(folds[r as int]));
                }
                Some(result)
            },
            None => None,
        }
    }

    /// Evaluates the polynomials whose coefficients the answers of every round, and those to the
    /// final queries, hold; nothing where an answer has the wrong length.
    #[verifier::spinoff_prover]
    pub fn compute_folds_helped(&self, parsed: &ParsedProof<'_, F>) -> (r: Option<Vec<Vec<F>>>)
        requires
            self.config().wf(),
            self.config().foldings_sized(parsed@),
        ensures
            r is Some <==> self.config().all_helped_foldable(parsed@),
            r matches Some(f) ==> rows(f@) == self.config().every_helped_fold(parsed@),
    {
        let ghost cfg = self.params;
        let ghost m = parsed@;
        let ghost folds = cfg.every_helped_fold(m);
        let mut result: Vec<Vec<F>> = Vec::new();
        let mut r: usize = 0;
        assert(rows(result@) =~= folds.take(0));
        while r < parsed.rounds.len()
            invariant
                cfg == self.params,
                cfg.wf(),
                m == parsed@,
                folds == cfg.every_helped_fold(m),
                cfg.foldings_sized(m),
                r <= parsed.rounds@.len(),
                rows(result@) == folds.take(r as int),
                forall|j: int|
                    0 <= j < r ==> cfg.helped_foldable(
                        (#[trigger] m.rounds[j]).stir_challenges_answers,
                    ),
            decreases parsed.rounds@.len() - r,
        {
            let round = &parsed.rounds[r];
            proof {
                assert(m.rounds[r as int] == round@);
                assert(round.folding_randomness.coords().len() == cfg.folding_factor);
            }
            match self.evaluate_answers(round.stir_challenges_answers, &round.folding_randomness) {
                Some(evaluations) => {
                    let ghost before = rows(result@);
                    result.push(evaluations);
                    proof {
                        assert(folds[r as int] == cfg.round_helped_folds(m.rounds[r as int]));
                        assert(rows(result@) =~= before.push(vals(evaluations@)));
                        assert(folds.take(r + 1) =~= folds.take(r as int).push(folds[r as int]));
                    }
                },
                None => {
                    return None;
                },
            }
            r += 1;
        }
        // Final round
        proof {
            assert(parsed.final_folding_randomness.coords().len() == cfg.folding_factor);
        }
        match self.evaluate_answers(
            parsed.final_randomness_answers,
            &parsed.final_folding_randomness,
        ) {
            Some(evaluations) => {
                let ghost before = rows(result@);
                result.push(evaluations);
                proof {
                    assert(rows(result@) =~= before.push(vals(evaluations@)));
                    assert(folds =~= folds.take(r as int).push(folds[r as int]));
                }
                Some(result)
            },
            None => None,
        }
    }

    /// The value at the full point of the weights that all the claims put on the polynomial.
    fn compute_v_poly(
        &self,
        parsed_commitment: &ParsedCommitment<F>,
        statement: &Statement<F>,
        proof: &ParsedProof<'_, F>,
    ) -> (r: F)
        requires
            self.config().wf(),
            self.config().shaped(proof@),
            statement.over(self.config().mv_parameters.num_variables as nat),
            proof@.initial_combination_randomness.len() == parsed_commitment@.ood_points.len()
                + statement.points@.len(),
        ensures
            r.val() == self.config().weight(parsed_commitment@, statement.coords(), proof@),
    {
        let ghost cfg = self.params;
        let ghost m = proof@;
        let ghost p = F::modulus();
        let k: usize = self.params.folding_factor;
        let mut num_variables: usize = self.params.mv_parameters.num_variables;
        let ghost vars = num_variables as nat;
        let folding_randomness = full_point(proof);
        let ghost full = m.full_point();
        proof {
            F::lemma_modulus();
            cfg.lemma_full_point_len(m);
        }
        let ghost eqs = equalities(
            p,
            power_points(p, parsed_commitment@.ood_points, vars) + statement.coords(),
            full,
        );
        let n: usize = parsed_commitment.ood_points.len();
        let mut value: F = F::zero();
        let mut i: usize = 0;
        while i < n
            invariant
                i <= n,
                n == parsed_commitment.ood_points@.len(),
                m == proof@,
                p == F::modulus(),
                num_variables == vars,
                folding_randomness.coords() == full,
                full.len() == vars,
                eqs == equalities(
                    p,
                    power_points(p, parsed_commitment@.ood_points, vars) + statement.coords(),
                    full,
                ),
                n <= proof.initial_combination_randomness@.len(),
                value.val() == dot_upto(p, m.initial_combination_randomness, eqs, i as nat),
            decreases n - i,
        {
            let point = MultilinearPoint::expand_from_univariate(
                parsed_commitment.ood_points[i],
                num_variables,
            );
            assert((power_points(p, parsed_commitment@.ood_points, vars)
                + statement.coords())[i as int] == point.coords());
            assert(point.coords().len() == vars);
            assert(folding_randomness.coords().len() == vars);
            value = value.plus(
                proof.initial_combination_randomness[i].times(
                    eq_poly_outside(&point, &folding_randomness),
                ),
            );
            i += 1;
        }
        let count: usize = statement.points.len();
        let claims: usize = proof.initial_combination_randomness.len();
        let mut j: usize = 0;
        while j < count
            invariant
                j <= count,
                count == statement.points@.len(),
                n == parsed_commitment.ood_points@.len(),
                claims == proof.initial_combination_randomness@.len(),
                n + count == claims,
                m == proof@,
                p == F::modulus(),
                folding_randomness.coords() == full,
                full.len() == vars,
                statement.over(vars),
                eqs == equalities(
                    p,
                    power_points(p, parsed_commitment@.ood_points, vars) + statement.coords(),
                    full,
                ),
                value.val() == dot_upto(p, m.initial_combination_randomness, eqs, (n + j) as nat),
            decreases count - j,
        {
            assert(statement.points@[j as int].0@.len() == vars);
            assert((power_points(p, parsed_commitment@.ood_points, vars) + statement.coords())[n
                + j] == statement.points@[j as int].coords());
            value = value.plus(
                proof.initial_combination_randomness[n + j].times(
                    eq_poly_outside(&statement.points[j], &folding_randomness),
                ),
            );
            j += 1;
        }
        let ghost start = value.val();
        let mut r: usize = 0;
        while r < proof.rounds.len()
            invariant
                cfg == self.params,
                cfg.wf(),
                m == proof@,
                cfg.shaped(m),
                p == F::modulus(),
                k == cfg.folding_factor,
                vars == cfg.mv_parameters.num_variables,
                r <= proof.rounds@.len(),
                num_variables == vars - k * r,
                folding_randomness.coords() == full,
                full.len() == vars,
                value.val() == rounds_weight(p, m.rounds, full, vars, k as nat, start, r as nat),
            decreases proof.rounds@.len() - r,
        {
            let round = &proof.rounds[r];
            proof {
                assert(m.rounds[r as int] == round@);
                assert(cfg.round_shaped(m.rounds[r as int], r as nat));
                assert(k * (r + 1) == k * r + k) by (nonlinear_arith);
                assert(k * (r + 1) <= k * cfg.rounds()) by (nonlinear_arith)
                    requires
                        r + 1 <= cfg.rounds(),
                ;
                assert(k * (cfg.rounds() + 1) == k * cfg.rounds() + k) by (nonlinear_arith);
            }
            num_variables = num_variables - k;
            let prefix = first_coordinates(&folding_randomness, num_variables);
            assert(prefix.coords().len() == num_variables);
            let sum_of_claims: F = round_weight(round, &prefix, num_variables);
            value = value.plus(sum_of_claims);
            r += 1;
        }
        value
    }

    /// Checks a sumcheck that starts at `claim`; gives what it leaves to be checked, and nothing
    /// where it does not hold.
    fn check_sumcheck(&self, claim: F, rounds: &SumcheckRounds<F>) -> (r: Option<F>)
        ensures
            r is Some <==> sumcheck_holds(F::modulus(), claim.val(), sumcheck_view(rounds@)),
            r matches Some(left) ==> left.val() == claim_after(
                F::modulus(),
                claim.val(),
                sumcheck_view(rounds@),
                rounds@.len() as int,
            ),
    {
        proof {
            use_type_invariant(self);
        }
        let ghost p = F::modulus();
        let ghost view = sumcheck_view(rounds@);
        let two_inv: F = self.two_inv;
        let mut left: F = claim;
        let mut i: usize = 0;
        while i < rounds.len()
            invariant
                i <= rounds@.len(),
                p == F::modulus(),
                view == sumcheck_view(rounds@),
                two_inv.val() == half(p),
                left.val() == claim_after(p, claim.val(), view, i as int),
                forall|j: int|
                    0 <= j < i ==> (#[trigger] view[j]).0.sum(p) == claim_after(
                        p,
                        claim.val(),
                        view,
                        j,
                    ),
            decreases rounds@.len() - i,
        {
            let (sumcheck_poly, randomness) = &rounds[i];
            assert(view[i as int] == (sumcheck_poly.quadratic(), randomness.val()));
            if !sumcheck_poly.sum_over_hypercube().equals(left) {
                return None;
            }
            left = sumcheck_poly.evaluate_at_point(*randomness, two_inv);
            i += 1;
        }
        Some(left)
    }

    /// Checks the sumchecks of the rounds, of which the first one continues from `start`; gives
    /// what they leave to be checked, and nothing where one does not hold.
    fn check_rounds(
        &self,
        start: F,
        rounds: &Vec<ParsedRound<'_, F>>,
        folds: &Vec<Vec<F>>,
    ) -> (r: Option<F>)
        requires
            folds@.len() == rounds@.len(),
        ensures
            r is Some <==> rounds_hold(
                F::modulus(),
                start.val(),
                rounds_view(rounds@),
                rows(folds@),
            ),
            r matches Some(left) ==> left.val() == claim_after_rounds(
                F::modulus(),
                start.val(),
                rounds_view(rounds@),
                rows(folds@),
                rounds@.len(),
            ),
    {
        let ghost p = F::modulus();
        let ghost view = rounds_view(rounds@);
        let ghost values = rows(folds@);
        let mut left: F = start;
        let mut r: usize = 0;
        while r < rounds.len()
            invariant
                r <= rounds@.len(),
                folds@.len() == rounds@.len(),
                p == F::modulus(),
                view == rounds_view(rounds@),
                values == rows(folds@),
                left.val() == claim_after_rounds(p, start.val(), view, values, r as nat),
                forall|j: int|
                    0 <= j < r ==> #[trigger] round_holds(p, start.val(), view, values, j),
            decreases rounds@.len() - r,
        {
            let round = &rounds[r];
            proof {
                assert(view[r as int] == round@);
                assert(values[r as int] == vals(folds@[r as int]@));
            }
            let claimed_sum = left.plus(
                combined(&round.ood_answers, &folds[r], &round.combination_randomness),
            );
            assert(claimed_sum.val() == round_claim(p, left.val(), round@, values[r as int]));
            left = match self.check_sumcheck(claimed_sum, &round.sumcheck_rounds) {
                Some(left) => left,
                None => {
                    assert(!round_holds(p, start.val(), view, values, r as int));
                    return None;
                },
            };
            assert(round_holds(p, start.val(), view, values, r as int));
            r += 1;
        }
        Some(left)
    }

    /// Checks the equations between the messages.
    fn check(
        &self,
        parsed_commitment: &ParsedCommitment<F>,
        statement: &Statement<F>,
        parsed: &ParsedProof<'_, F>,
    ) -> (r: bool)
        requires
            self.config().wf(),
            self.config().shaped(parsed@),
            statement.over(self.config().mv_parameters.num_variables as nat),
            parsed@.initial_combination_randomness.len() == parsed_commitment@.ood_points.len()
                + statement.points@.len(),
        ensures
            r == self.config().consistent(
                parsed_commitment@,
                statement.coords(),
                statement.values(),
                parsed@,
            ),
    {
        proof {
            self.config().lemma_shaped_foldings(parsed@);
        }
        let mut folds = match self.compute_folds(parsed) {
            Some(folds) => folds,
            None => {
                return false;
            },
        };
        let ghost every = rows(folds@);
        assert(every.len() == folds@.len());
        let final_folds: Vec<F> = match folds.pop() {
            Some(last) => last,
            None => vstd::pervasive::unreached(),
        };
        proof {
            assert(vals(final_folds@) == every.last());
            assert(rows(folds@) =~= every.drop_last());
            assert(every.drop_last() =~= self.config().all_folds(parsed@.rounds));
        }
        // Check the first polynomial and the rest of the rounds
        let first: F = combined(
            &parsed_commitment.ood_answers,
            &statement.evaluations,
            &parsed.initial_combination_randomness,
        );
        let start: F = match self.check_sumcheck(first, &parsed.initial_sumcheck_rounds) {
            Some(left) => left,
            None => {
                return false;
            },
        };
        let left: F = match self.check_rounds(start, &parsed.rounds, &folds) {
            Some(left) => left,
            None => {
                return false;
            },
        };
        // Check the foldings computed from the proof match the evaluations of the polynomial
        let final_evaluations = parsed.final_coefficients.evaluate_at_univariate(
            &parsed.final_randomness_points,
        );
        if !agree(&final_folds, &final_evaluations) {
            return false;
        }
        // Check the final sumchecks
        let end: F = match self.check_sumcheck(left, &parsed.final_sumcheck_rounds) {
            Some(end) => end,
            None => {
                return false;
            },
        };
        // Check the final sumcheck evaluation
        let evaluation_of_v_poly = self.compute_v_poly(parsed_commitment, statement, parsed);
        proof {
            assert(parsed.final_sumcheck_randomness.coords().len()
                == self.params.final_sumcheck_rounds);
            assert(parsed.final_coefficients.list().len() == pow2(
                self.params.final_sumcheck_rounds as nat,
            ));
        }
        end.equals(
            evaluation_of_v_poly.times(
                parsed.final_coefficients.evaluate(&parsed.final_sumcheck_randomness),
            ),
        )
    }

    /// Decides about a transcript and openings.
    fn decide<T: Grinding<F, S>, P: MerkleOpening<C, F>>(
        &self,
        transcript: &mut T,
        statement: &Statement<F>,
        whir_proof: &Vec<(P, Vec<Vec<F>>)>,
    ) -> (r: Result<(), ProofError>)
        requires
            self.config().wf(),
            statement.over(self.config().mv_parameters.num_variables as nat),
            self.config().committment_ood_samples + statement.points@.len() <= usize::MAX,
        ensures
            final(transcript).kept() == old(transcript).kept(),
            match self.config().verdict::<T, P>(
                old(transcript).state(),
                whir_proof@,
                statement.coords(),
                statement.values(),
            ) {
                Ok((_, after)) => r is Ok && final(transcript).state() == after,
                Err(e) => r matches Err(x) && refused(e, x, final(transcript).state()),
            },
    {
        // We first do a pass in which we rederive all the FS challenges
        // Then we will check the algebraic part (so to optimise inversions)
        let parsed_commitment = match self.parse_commitment::<T>(transcript) {
            Ok(parsed) => parsed,
            Err(e) => {
                return Err(e);
            },
        };
        let ghost middle = transcript.state();
        let parsed = match self.parse_proof::<T, P>(
            transcript,
            &parsed_commitment,
            statement,
            whir_proof,
        ) {
            Ok(parsed) => parsed,
            Err(e) => {
                return Err(e);
            },
        };
        proof {
            self.config().law_messages_shaped::<T, P>(
                middle,
                whir_proof@,
                parsed_commitment@.root,
                parsed_commitment@.ood_points.len() + statement.points@.len(),
            );
        }
        if self.check(&parsed_commitment, statement, &parsed) {
            Ok(())
        } else {
            Err(ProofError::InvalidProof)
        }
    }
}

impl<F: PrimeField, C: MerkleConfig<F>, S: PowStrategy> Verifier<F, C, S> {
    /// Decides whether a transcript that an EVM contract can follow, and the openings, show what
    /// `statement` claims. Where a round has no opening, or leaves of the wrong length, the proof
    /// is invalid. What was written stays, and the transcript is read as far as the first pass
    /// went.
    pub fn evm_verify(
        &self,
        evmfs: &mut EVMFs<F>,
        statement: &Statement<F>,
        whir_proof: &EVMWhirProof<F>,
    ) -> (r: Result<(), ProofError>)
        requires
            self.config().wf(),
            statement.over(self.config().mv_parameters.num_variables as nat),
            self.config().committment_ood_samples + statement.points@.len() <= usize::MAX,
        ensures
            final(evmfs).written() == old(evmfs).written(),
            match self.config().verdict::<EVMFs<F>, EVMMultiProof>(
                old(evmfs)@,
                whir_proof.0@,
                statement.coords(),
                statement.values(),
            ) {
                Ok((_, after)) => r is Ok && final(evmfs)@ == after,
                Err(e) => r matches Err(x) && refused(e, x, final(evmfs)@),
            },
    {
        self.decide::<EVMFs<F>, EVMMultiProof>(evmfs, statement, &whir_proof.0)
    }
}

impl<F: ArthurScalar, C, S: PowStrategy> Verifier<F, C, S> {
    /// Decides whether a transcript and openings show what `statement` claims. Where a round has no
    /// opening, or leaves of the wrong length, the proof is invalid. The transcript is read as far
    /// as the first pass went.
    pub fn verify<'a, P: MerkleOpening<C, F>>(
        &self,
        arthur: &mut Arthur<'a>,
        statement: &Statement<F>,
        whir_proof: &WhirProof<P, F>,
    ) -> (r: Result<(), ProofError>)
        requires
            self.config().wf(),
            statement.over(self.config().mv_parameters.num_variables as nat),
            self.config().committment_ood_samples + statement.points@.len() <= usize::MAX,
        ensures
            match self.config().verdict::<Arthur<'a>, P>(
                old(arthur)@,
                whir_proof.0@,
                statement.coords(),
                statement.values(),
            ) {
                Ok((_, after)) => r is Ok && final(arthur)@ == after,
                Err(e) => r matches Err(x) && refused(e, x, final(arthur)@),
            },
    {
        self.decide::<Arthur<'a>, P>(arthur, statement, &whir_proof.0)
    }
}

} // verus!
