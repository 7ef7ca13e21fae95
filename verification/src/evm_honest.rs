//! The prover's side of a transcript over a chain of Keccak hashes, and completeness with trees of
//! hashes: what an honest prover writes is accepted, up to the last byte.
use crate::bytes::{be_bytes, be_value};
use crate::evm_fs::{chain_start, chained, drawn, law_scalar_read_back, ChainState, EVMFs};
use crate::evm_merkle::{
    digests, law_honest_opening, shown, supplied_from, EVMMultiProof, MerkleTree,
};
use crate::field::{rows, PrimeField};
use crate::hasher::MerkleConfig;
use crate::parameters::WhirConfig;
use crate::protocol::{Commitment, Messages};
use crate::queries::{law_positions, query_positions};
use crate::spoken::{Solver, Spoken};
use crate::transcript::{Difficulty, PowStrategy, Refusal};
use vstd::prelude::*;

verus! {

/// What a prover has written so far, and the chain after it.
#[verifier::ext_equal]
pub struct ChainWriting {
    pub bytes: Seq<u8>,
    pub chain: Seq<u8>,
}

impl ChainWriting {
    /// Nothing is written yet.
    pub open spec fn start() -> ChainWriting {
        ChainWriting { bytes: Seq::empty(), chain: chain_start() }
    }

    /// A message is written.
    pub open spec fn message(self, bytes: Seq<u8>) -> ChainWriting {
        ChainWriting { bytes: self.bytes + bytes, chain: chained(self.chain, bytes) }
    }

    /// A challenge is drawn: it is the new chain.
    pub open spec fn challenge(self) -> ChainWriting {
        ChainWriting { bytes: self.bytes, chain: drawn(self.chain) }
    }

    /// A transcript that starts with what was written.
    pub open spec fn begins(self, transcript: Seq<u8>) -> bool {
        self.bytes.len() <= transcript.len() && transcript.take(self.bytes.len() as int)
            == self.bytes
    }

    /// Where a verifier of `transcript` stands who has read what was written.
    pub open spec fn reader(self, transcript: Seq<u8>) -> ChainState {
        ChainState { unread: transcript.skip(self.bytes.len() as int), chain: self.chain }
    }
}

/// A transcript that starts with `written` and then `bytes` starts with `written`, and `bytes` is
/// what follows.
pub proof fn lemma_begins(transcript: Seq<u8>, written: Seq<u8>, bytes: Seq<u8>)
    requires
        (written + bytes).len() <= transcript.len(),
        transcript.take((written + bytes).len() as int) == written + bytes,
    ensures
        transcript.take(written.len() as int) == written,
        transcript.skip(written.len() as int).take(bytes.len() as int) == bytes,
        transcript.skip(written.len() as int).skip(bytes.len() as int) == transcript.skip(
            (written + bytes).len() as int,
        ),
        transcript.skip(written.len() as int) == bytes + transcript.skip(
            (written + bytes).len() as int,
        ),
{
    let both = written + bytes;
    let n = written.len();
    assert forall|i: int| 0 <= i < both.len() implies transcript[i] == both[i] by {
        assert(transcript.take(both.len() as int)[i] == both[i]);
    }
    assert(transcript.take(n as int) =~= written);
    let unread = transcript.skip(n as int);
    assert(unread.take(bytes.len() as int) =~= bytes);
    assert(unread.skip(bytes.len() as int) =~= transcript.skip(both.len() as int));
    assert(unread =~= bytes + transcript.skip(both.len() as int));
}

impl<F: PrimeField, S: PowStrategy> Spoken<F, S> for EVMFs<F> {
    type Writing = ChainWriting;

    type Given = Seq<u8>;

    open spec fn message(w: ChainWriting, bytes: Seq<u8>) -> ChainWriting {
        w.message(bytes)
    }

    open spec fn scalar(w: ChainWriting, x: nat) -> ChainWriting {
        w.message(be_bytes(x, F::byte_len()))
    }

    open spec fn challenge(w: ChainWriting) -> (Seq<u8>, ChainWriting) {
        (drawn(w.chain), w.challenge())
    }

    open spec fn scalar_challenge(w: ChainWriting) -> (nat, ChainWriting) {
        (be_value(drawn(w.chain)) % F::modulus(), w.challenge())
    }

    open spec fn work(w: ChainWriting, difficulty: Difficulty, solver: Solver) -> ChainWriting {
        w
    }

    open spec fn solved(w: ChainWriting, difficulty: Difficulty, solver: Solver) -> bool {
        true
    }

    open spec fn holds(transcript: Seq<u8>, w: ChainWriting) -> bool {
        w.begins(transcript)
    }

    open spec fn reader(transcript: Seq<u8>, w: ChainWriting) -> ChainState {
        w.reader(transcript)
    }

    proof fn lemma_message_read(transcript: Seq<u8>, w: ChainWriting, bytes: Seq<u8>) {
        lemma_begins(transcript, w.bytes, bytes);
    }

    proof fn lemma_scalar_read(transcript: Seq<u8>, w: ChainWriting, x: nat) {
        let bytes = be_bytes(x, F::byte_len());
        lemma_begins(transcript, w.bytes, bytes);
        law_scalar_read_back::<F>(w.chain, x, w.message(bytes).reader(transcript).unread);
    }

    proof fn lemma_challenge_drawn(transcript: Seq<u8>, w: ChainWriting) {
    }

    proof fn lemma_scalar_drawn(transcript: Seq<u8>, w: ChainWriting) {
    }

    proof fn lemma_work_passed(
        transcript: Seq<u8>,
        w: ChainWriting,
        difficulty: Difficulty,
        solver: Solver,
    ) {
    }
}

impl<F: PrimeField, C, S: PowStrategy> WhirConfig<F, C, S> {
    /// There are queries in every round.
    pub open spec fn always_queries(&self) -> bool {
        &&& forall|r: int|
            0 <= r < self.rounds() ==> (#[trigger] self.round_parameters@[r]).num_queries > 0
        &&& self.final_queries > 0
    }
}

impl<F: PrimeField, C: MerkleConfig<F>, S: PowStrategy> WhirConfig<F, C, S> {
    /// `opening` is what `tree`, a tree of hashes with a leaf for each coset of round `r`, gives
    /// for the leaves at `indexes`, and these are `answers`.
    pub open spec fn opened_from(
        &self,
        tree: MerkleTree,
        opening: (EVMMultiProof, Vec<Vec<F>>),
        r: nat,
        indexes: Seq<usize>,
        answers: Seq<Seq<nat>>,
    ) -> bool {
        &&& tree.complete(opening.0.depth as nat)
        &&& tree.hashed::<C, F>()
        &&& tree.leaf_nodes@.len() == self.folded_size(r)
        &&& 2 * tree.leaf_nodes@.len() <= usize::MAX
        &&& digests(opening.0.decommitments@) == supplied_from(
            tree,
            indexes,
            (tree.leaf_nodes@.len() - 1) as nat,
        )
        &&& rows(opening.1@) == answers
        &&& answers.len() == indexes.len()
        &&& forall|a: int|
            0 <= a < indexes.len() ==> #[trigger] tree.leaf_nodes@[indexes[a] as int]@
                == C::leaf_digest(answers[a])
    }

    /// The roots are those of `trees`, and the openings are taken from these trees.
    pub open spec fn all_opened_from(
        &self,
        trees: Seq<MerkleTree>,
        openings: Seq<(EVMMultiProof, Vec<Vec<F>>)>,
        com: Commitment,
        roots: Seq<Seq<u8>>,
        m: Messages,
    ) -> bool {
        let n = self.rounds();
        &&& trees.len() == n + 1
        &&& openings.len() == n + 1
        &&& forall|r: int|
            0 <= r <= n ==> (#[trigger] trees[r]).node(1) == self.root_before(
                com.root,
                roots,
                r as nat,
            )
        &&& forall|r: int|
            0 <= r < n ==> self.opened_from(
                trees[r],
                #[trigger] openings[r],
                r as nat,
                m.rounds[r].stir_challenges_indexes,
                m.rounds[r].stir_challenges_answers,
            )
        &&& self.opened_from(
            trees[n as int],
            openings[n as int],
            n,
            m.final_randomness_indexes,
            m.final_randomness_answers,
        )
    }

    /// An opening that is taken from a tree at drawn positions shows its answers.
    proof fn lemma_opened_shown(
        &self,
        tree: MerkleTree,
        opening: (EVMMultiProof, Vec<Vec<F>>),
        r: nat,
        seed: Seq<u8>,
        queries: nat,
        answers: Seq<Seq<nat>>,
    )
        requires
            queries > 0,
            self.opened_from(
                tree,
                opening,
                r,
                query_positions(seed, self.folded_size(r) as usize, queries),
                answers,
            ),
        ensures
            shown::<C, F, EVMMultiProof>(
                opening.0,
                tree.node(1),
                query_positions(seed, self.folded_size(r) as usize, queries),
                answers,
            ),
    {
        let indexes = query_positions(seed, self.folded_size(r) as usize, queries);
        vstd::arithmetic::power2::lemma_pow2_pos(opening.0.depth as nat);
        law_positions(seed, self.folded_size(r) as usize, queries);
        law_honest_opening::<C, F>(tree, opening.0, indexes, answers);
    }

    /// Openings that are taken from trees at the positions that the chain gives show their answers.
    proof fn lemma_all_opened(
        &self,
        w: ChainWriting,
        com: Commitment,
        roots: Seq<Seq<u8>>,
        m: Messages,
        claims: nat,
        solver: Solver,
        trees: Seq<MerkleTree>,
        openings: Seq<(EVMMultiProof, Vec<Vec<F>>)>,
    )
        requires
            self.always_queries(),
            self.hears::<EVMFs<F>>(w, com, roots, m, claims, solver),
            self.all_opened_from(trees, openings, com, roots, m),
        ensures
            self.answers_opened::<EVMMultiProof>(openings, com, roots, m),
    {
        let n = self.rounds();
        let started = self.says_start::<EVMFs<F>>(w, com, m, solver);
        assert forall|r: int| 0 <= r < n implies {
            &&& rows((#[trigger] openings[r]).1@) == m.rounds[r].stir_challenges_answers
            &&& shown::<C, F, EVMMultiProof>(
                openings[r].0,
                self.root_before(com.root, roots, r as nat),
                m.rounds[r].stir_challenges_indexes,
                m.rounds[r].stir_challenges_answers,
            )
        } by {
            let here = self.says_rounds::<EVMFs<F>>(started, roots, m.rounds, r as nat, solver);
            let round = m.rounds[r];
            assert(self.round_follows::<EVMFs<F>>(started, roots, m, r as nat, solver));
            assert(trees[r].node(1) == self.root_before(com.root, roots, r as nat));
            assert(self.round_parameters@[r].num_queries > 0);
            self.lemma_opened_shown(
                trees[r],
                openings[r],
                r as nat,
                self.hears_queries::<EVMFs<F>>(here, roots[r], round, r as nat).0,
                self.round_parameters@[r].num_queries as nat,
                round.stir_challenges_answers,
            );
        }
        assert(trees[n as int].node(1) == self.root_before(com.root, roots, n));
        self.lemma_opened_shown(
            trees[n as int],
            openings[n as int],
            n,
            self.hears_final_queries::<EVMFs<F>>(w, com, roots, m, solver).0,
            self.final_queries as nat,
            m.final_randomness_answers,
        );
    }

    /// What an honest prover writes over the chain of hashes is accepted: one that commits to the
    /// polynomial with the coefficients `c` and its foldings by trees of hashes, sends the messages
    /// that the protocol asks for, draws its challenges from the chain, and opens the trees at the
    /// positions that the chain gives. A verifier who starts where the prover started reads all
    /// that was written and stands before whatever follows it.
    #[verifier::spinoff_prover]
    #[verifier::rlimit(40)]
    pub proof fn law_evm_honest_is_accepted(
        &self,
        c: Seq<nat>,
        com: Commitment,
        roots: Seq<Seq<u8>>,
        m: Messages,
        solver: Solver,
        trees: Seq<MerkleTree>,
        openings: Seq<(EVMMultiProof, Vec<Vec<F>>)>,
        points: Seq<Seq<nat>>,
        values: Seq<nat>,
        rest: Seq<u8>,
    )
        requires
            self.wf(),
            self.smooth_domain(),
            self.always_queries(),
            forall|j: int|
                0 <= j < points.len() ==> (#[trigger] points[j]).len()
                    == self.mv_parameters.num_variables,
            self.honest(c, com, points, values, m),
            self.hears::<EVMFs<F>>(
                ChainWriting::start(),
                com,
                roots,
                m,
                com.ood_points.len() + points.len(),
                solver,
            ),
            self.all_opened_from(trees, openings, com, roots, m),
        ensures
            ({
                let written = self.says::<EVMFs<F>>(ChainWriting::start(), com, roots, m, solver);
                self.verdict::<EVMFs<F>, EVMMultiProof>(
                    ChainState { unread: written.bytes + rest, chain: chain_start() },
                    openings,
                    points,
                    values,
                ) == Ok::<((), ChainState), Refusal<ChainState>>(
                    ((), ChainState { unread: rest, chain: written.chain }),
                )
            }),
    {
        let w = ChainWriting::start();
        let written = self.says::<EVMFs<F>>(w, com, roots, m, solver);
        let transcript = written.bytes + rest;
        let claims = com.ood_points.len() + points.len();
        self.lemma_all_opened(w, com, roots, m, claims, solver, trees, openings);
        assert(transcript.take(written.bytes.len() as int) =~= written.bytes);
        self.law_honest_writing_is_accepted::<EVMFs<F>, EVMMultiProof>(
            c,
            transcript,
            w,
            com,
            roots,
            m,
            solver,
            openings,
            points,
            values,
        );
        assert(transcript.skip(0) =~= transcript);
        assert(transcript.skip(written.bytes.len() as int) =~= rest);
    }
}

} // verus!
