//! The prover's side of the transcript of `nimue`, and completeness over it.
use crate::arthur::{after_bytes, asks_for, sponge_bytes, Arthur, ArthurScalar, ArthurState};
use crate::bytes::{
    be_bytes, be_value, le_bytes, lemma_be_roundtrip, lemma_le_bytes_reversed, lemma_le_roundtrip,
};
use crate::evm_honest::lemma_begins;
use crate::evm_merkle::MerkleOpening;
use crate::parameters::WhirConfig;
use crate::protocol::{Commitment, Messages};
use crate::spoken::{Solver, Spoken};
use crate::transcript::{Difficulty, PowStrategy, Refusal};
use vstd::arithmetic::power::pow;
use vstd::prelude::*;

verus! {

/// What a prover has written and drawn so far: the operations, the bytes of the transcript, and
/// what went through the sponge.
#[verifier::ext_equal]
pub struct ArthurWriting {
    pub operations: Seq<(char, nat)>,
    pub bytes: Seq<u8>,
    pub history: Seq<(bool, Seq<u8>)>,
}

/// What is left of a pattern after the operations.
pub open spec fn pattern_after(
    pattern: Seq<(char, nat)>,
    operations: Seq<(char, nat)>,
) -> Seq<(char, nat)>
    decreases operations.len(),
{
    if operations.len() == 0 {
        pattern
    } else {
        after_bytes(pattern_after(pattern, operations.drop_last()), operations.last().1)
    }
}

/// The pattern asks for the operations, one after another.
pub open spec fn pattern_asks(
    pattern: Seq<(char, nat)>,
    operations: Seq<(char, nat)>,
) -> bool
    decreases operations.len(),
{
    operations.len() > 0 ==> {
        &&& pattern_asks(pattern, operations.drop_last())
        &&& asks_for(
            pattern_after(pattern, operations.drop_last()),
            operations.last().0,
            operations.last().1,
        )
    }
}

/// One more operation.
proof fn lemma_one_more(
    pattern: Seq<(char, nat)>,
    operations: Seq<(char, nat)>,
    operation: (char, nat),
)
    requires
        pattern_asks(pattern, operations.push(operation)),
    ensures
        pattern_asks(pattern, operations),
        asks_for(pattern_after(pattern, operations), operation.0, operation.1),
        pattern_after(pattern, operations.push(operation)) == after_bytes(
            pattern_after(pattern, operations),
            operation.1,
        ),
{
    assert(operations.push(operation).drop_last() =~= operations);
}

impl ArthurWriting {
    /// Nothing is written yet; `history` is what the tag of the pattern left in the sponge.
    pub open spec fn start(history: Seq<(bool, Seq<u8>)>) -> ArthurWriting {
        ArthurWriting { operations: Seq::empty(), bytes: Seq::empty(), history }
    }

    /// A message is written.
    pub open spec fn message(self, bytes: Seq<u8>) -> ArthurWriting {
        ArthurWriting {
            operations: self.operations.push(('A', bytes.len())),
            bytes: self.bytes + bytes,
            history: self.history.push((true, bytes)),
        }
    }

    /// `n` bytes are drawn.
    pub open spec fn challenge(self, n: nat) -> ArthurWriting {
        ArthurWriting {
            operations: self.operations.push(('S', n)),
            bytes: self.bytes,
            history: self.history.push((false, sponge_bytes(self.history, n))),
        }
    }

    /// The nonce that the solver finds for the next challenge.
    pub open spec fn nonce(self, bound: u64, solver: Solver) -> u64 {
        solver(sponge_bytes(self.history, 32), bound)
    }

    /// The verifier's pattern asks for what was done, and the transcript starts with what was
    /// written.
    pub open spec fn begins(self, given: (Seq<(char, nat)>, Seq<u8>)) -> bool {
        &&& pattern_asks(given.0, self.operations)
        &&& self.bytes.len() <= given.1.len()
        &&& given.1.take(self.bytes.len() as int) == self.bytes
    }

    /// Where a verifier stands who has read what was written.
    pub open spec fn reader(self, given: (Seq<(char, nat)>, Seq<u8>)) -> ArthurState {
        ArthurState {
            pending: pattern_after(given.0, self.operations),
            unread: given.1.skip(self.bytes.len() as int),
            history: self.history,
        }
    }
}

/// A message is read back.
proof fn lemma_read(given: (Seq<(char, nat)>, Seq<u8>), w: ArthurWriting, bytes: Seq<u8>)
    requires
        w.message(bytes).begins(given),
    ensures
        w.begins(given),
        w.reader(given).read(bytes.len()) == Ok::<(Seq<u8>, ArthurState), Refusal<ArthurState>>(
            (bytes, w.message(bytes).reader(given)),
        ),
{
    lemma_one_more(given.0, w.operations, ('A', bytes.len()));
    lemma_begins(given.1, w.bytes, bytes);
}

/// The same bytes are drawn.
proof fn lemma_drawn(given: (Seq<(char, nat)>, Seq<u8>), w: ArthurWriting, n: nat)
    requires
        w.challenge(n).begins(given),
    ensures
        w.begins(given),
        w.reader(given).draw(n) == Ok::<(Seq<u8>, ArthurState), Refusal<ArthurState>>(
            (sponge_bytes(w.history, n), w.challenge(n).reader(given)),
        ),
{
    lemma_one_more(given.0, w.operations, ('S', n));
}

impl<F: ArthurScalar, S: PowStrategy> Spoken<F, S> for Arthur<'_> {
    type Writing = ArthurWriting;

    type Given = (Seq<(char, nat)>, Seq<u8>);

    open spec fn message(w: ArthurWriting, bytes: Seq<u8>) -> ArthurWriting {
        w.message(bytes)
    }

    open spec fn scalar(w: ArthurWriting, x: nat) -> ArthurWriting {
        w.message(le_bytes(x, F::byte_len()))
    }

    open spec fn challenge(w: ArthurWriting) -> (Seq<u8>, ArthurWriting) {
        (sponge_bytes(w.history, 32), w.challenge(32))
    }

    open spec fn scalar_challenge(w: ArthurWriting) -> (nat, ArthurWriting) {
        (
            be_value(sponge_bytes(w.history, F::challenge_len())) % F::modulus(),
            w.challenge(F::challenge_len()),
        )
    }

    open spec fn work(w: ArthurWriting, difficulty: Difficulty, solver: Solver) -> ArthurWriting {
        match difficulty.bound {
            Some(bound) => w.challenge(32).message(be_bytes(w.nonce(bound, solver) as nat, 8)),
            None => w,
        }
    }

    open spec fn solved(w: ArthurWriting, difficulty: Difficulty, solver: Solver) -> bool {
        difficulty.bound matches Some(bound) ==> S::accepts(
            sponge_bytes(w.history, 32),
            bound,
            w.nonce(bound, solver),
        )
    }

    open spec fn holds(given: (Seq<(char, nat)>, Seq<u8>), w: ArthurWriting) -> bool {
        w.begins(given)
    }

    open spec fn reader(given: (Seq<(char, nat)>, Seq<u8>), w: ArthurWriting) -> ArthurState {
        w.reader(given)
    }

    proof fn lemma_message_read(
        given: (Seq<(char, nat)>, Seq<u8>),
        w: ArthurWriting,
        bytes: Seq<u8>,
    ) {
        lemma_read(given, w, bytes);
    }

    proof fn lemma_scalar_read(given: (Seq<(char, nat)>, Seq<u8>), w: ArthurWriting, x: nat) {
        F::lemma_byte_len();
        lemma_le_roundtrip(x, F::byte_len());
        lemma_le_bytes_reversed(x, F::byte_len());
        vstd::arithmetic::div_mod::lemma_small_mod(x, pow(256, F::byte_len()) as nat);
        lemma_read(given, w, le_bytes(x, F::byte_len()));
    }

    proof fn lemma_challenge_drawn(given: (Seq<(char, nat)>, Seq<u8>), w: ArthurWriting) {
        lemma_drawn(given, w, 32);
    }

    proof fn lemma_scalar_drawn(given: (Seq<(char, nat)>, Seq<u8>), w: ArthurWriting) {
        lemma_drawn(given, w, F::challenge_len());
    }

    proof fn lemma_work_passed(
        given: (Seq<(char, nat)>, Seq<u8>),
        w: ArthurWriting,
        difficulty: Difficulty,
        solver: Solver,
    ) {
        if let Some(bound) = difficulty.bound {
            let nonce = w.nonce(bound, solver);
            assert(pow(256, 8) == 0x1_0000_0000_0000_0000) by {
                reveal_with_fuel(pow, 9);
            }
            lemma_be_roundtrip(nonce as nat, 8);
            lemma_read(given, w.challenge(32), be_bytes(nonce as nat, 8));
            lemma_drawn(given, w, 32);
        }
    }
}

impl<F: ArthurScalar, C, S: PowStrategy> WhirConfig<F, C, S> {
    /// What an honest prover writes into the sponge's transcript is accepted: one that sends the
    /// messages that the protocol asks for, for a polynomial with the coefficients `c`, draws its
    /// challenges from the sponge, finds the work, and answers the queries with what its roots
    /// authenticate. The verifier's pattern has to ask for just these messages and challenges. The
    /// verifier reads all that was written and stands before whatever follows it.
    pub proof fn law_arthur_honest_is_accepted<'a, P: MerkleOpening<C, F>>(
        &self,
        c: Seq<nat>,
        pattern: Seq<(char, nat)>,
        history: Seq<(bool, Seq<u8>)>,
        com: Commitment,
        roots: Seq<Seq<u8>>,
        m: Messages,
        solver: Solver,
        openings: Seq<(P, Vec<Vec<F>>)>,
        points: Seq<Seq<nat>>,
        values: Seq<nat>,
        rest: Seq<u8>,
    )
        requires
            self.wf(),
            self.smooth_domain(),
            forall|j: int|
                0 <= j < points.len() ==> (#[trigger] points[j]).len()
                    == self.mv_parameters.num_variables,
            self.honest(c, com, points, values, m),
            self.hears::<Arthur<'a>>(
                ArthurWriting::start(history),
                com,
                roots,
                m,
                com.ood_points.len() + points.len(),
                solver,
            ),
            self.answers_opened(openings, com, roots, m),
            pattern_asks(
                pattern,
                self.says::<Arthur<'a>>(
                    ArthurWriting::start(history),
                    com,
                    roots,
                    m,
                    solver,
                ).operations,
            ),
        ensures
            ({
                let written = self.says::<Arthur<'a>>(
                    ArthurWriting::start(history),
                    com,
                    roots,
                    m,
                    solver,
                );
                self.verdict::<Arthur<'a>, P>(
                    ArthurState { pending: pattern, unread: written.bytes + rest, history },
                    openings,
                    points,
                    values,
                ) == Ok::<((), ArthurState), Refusal<ArthurState>>(
                    (
                        (),
                        ArthurState {
                            pending: pattern_after(pattern, written.operations),
                            unread: rest,
                            history: written.history,
                        },
                    ),
                )
            }),
    {
        let w = ArthurWriting::start(history);
        let written = self.says::<Arthur<'a>>(w, com, roots, m, solver);
        let transcript = written.bytes + rest;
        assert(transcript.take(written.bytes.len() as int) =~= written.bytes);
        self.law_honest_writing_is_accepted::<Arthur<'a>, P>(
            c,
            (pattern, transcript),
            w,
            com,
            roots,
            m,
            solver,
            openings,
            points,
            values,
        );
        assert(transcript.skip(0) =~= transcript);
        assert(transcript.skip(written.bytes.len() as int) =~= rest);
    }
}

} // verus!
