//! What a verifier reads and draws over the transcript of `nimue`, and what the parameters have to
//! meet.
use crate::arthur::{sponge_bytes, Arthur, ArthurScalar, ArthurState};
use crate::bytes::{be_value, le_value};
use crate::field::PrimeField;
use crate::parameters::WhirConfig;
use crate::transcript::{Difficulty, Fault, Grinding, PowStrategy, Refusal, Transcript};
use vstd::arithmetic::power2::pow2;
use vstd::prelude::*;

verus! {

/// What is left of a pattern whose first operation is on `m` bytes after `n` of them.
pub open spec fn pattern_left(op: char, m: nat, rest: Seq<(char, nat)>, n: nat) -> Seq<
    (char, nat),
> {
    if m == n {
        rest
    } else {
        seq![(op, (m - n) as nat)] + rest
    }
}

/// Bytes are read where the pattern asks for at least as many, and go through the sponge; where it
/// does not, they are passed over, and the pattern is dropped.
pub proof fn law_sponge_read(
    op: char,
    m: nat,
    rest: Seq<(char, nat)>,
    message: Seq<u8>,
    unread: Seq<u8>,
    history: Seq<(bool, Seq<u8>)>,
    n: nat,
)
    ensures
        ({
            let s = ArthurState {
                pending: seq![(op, m)] + rest,
                unread: message + unread,
                history,
            };
            let asked = op == 'A' && m >= message.len();
            let read = s.read(message.len());
            let over = ArthurState { pending: Seq::empty(), unread: message + unread, history };
            let short = ArthurState { pending: seq![(op, m)] + rest, unread: message, history };
            &&& asked ==> read == Ok::<(Seq<u8>, ArthurState), Refusal<ArthurState>>(
                (
                    message,
                    ArthurState {
                        pending: pattern_left(op, m, rest, message.len()),
                        unread,
                        history: history.push((true, message)),
                    },
                ),
            )
            &&& !asked ==> read is Err && read->Err_0.error is InvalidIO && read->Err_0.state
                == Some(ArthurState { pending: Seq::empty(), unread, history })
            &&& over.read(message.len()) is Err
            &&& over.read(message.len())->Err_0.error is InvalidIO
            &&& n > message.len() ==> short.read(n) is Err && short.read(n)->Err_0.error
                is InvalidIO
        }),
{
    let pending = seq![(op, m)] + rest;
    assert((message + unread).take(message.len() as int) =~= message);
    assert((message + unread).skip(message.len() as int) =~= unread);
    assert(pending.drop_first() =~= rest);
    if m >= message.len() {
        assert(pending.update(0, (op, (m - message.len()) as nat)) =~= seq![
            (op, (m - message.len()) as nat),
        ] + rest);
    }
}

/// Bytes are drawn from what went through the sponge before, where the pattern asks for at least as
/// many; where it does not, it is dropped.
pub proof fn law_sponge_draw(
    op: char,
    m: nat,
    rest: Seq<(char, nat)>,
    unread: Seq<u8>,
    history: Seq<(bool, Seq<u8>)>,
    n: nat,
)
    ensures
        ({
            let s = ArthurState { pending: seq![(op, m)] + rest, unread, history };
            let over = ArthurState { pending: Seq::empty(), unread, history };
            let bytes = sponge_bytes(history, n);
            &&& op == 'S' && m >= n ==> s.draw(n) == Ok::<
                (Seq<u8>, ArthurState),
                Refusal<ArthurState>,
            >(
                (
                    bytes,
                    ArthurState {
                        pending: pattern_left(op, m, rest, n),
                        unread,
                        history: history.push((false, bytes)),
                    },
                ),
            )
            &&& !(op == 'S' && m >= n) ==> s.draw(n) is Err && s.draw(n)->Err_0.error is InvalidIO
                && s.draw(n)->Err_0.state == Some(over)
            &&& over.draw(n) is Err && over.draw(n)->Err_0.error is InvalidIO
        }),
{
    let pending = seq![(op, m)] + rest;
    assert(pending.drop_first() =~= rest);
    if m >= n {
        assert(pending.update(0, (op, (m - n) as nat)) =~= seq![(op, (m - n) as nat)] + rest);
    }
}

/// Hashes are 32 bytes; a field element is read from bytes with the least significant first, which
/// have to make a reduced number, and drawn as the residue of bytes with the most significant
/// first. Work is shown by a nonce of 8 bytes, the most significant first, after a challenge of 32
/// bytes, and refused unless it is accepted for the bound; without a bound nothing is read.
pub proof fn law_sponge_transcript<'a, F: ArthurScalar, S: PowStrategy>(
    s: ArthurState,
    bytes: Seq<u8>,
    after: ArthurState,
    nonce: Seq<u8>,
    last: ArthurState,
    bound: u64,
)
    ensures
        <Arthur<'a> as Transcript<F>>::reads_bytes(s) == s.read(32),
        <Arthur<'a> as Transcript<F>>::draws_bytes(s) == s.draw(32),
        ({
            let p = F::modulus();
            let read = s.read(F::byte_len());
            let scalar = <Arthur<'a> as Transcript<F>>::reads_scalar(s);
            let drawn = s.draw(F::challenge_len());
            let challenge = <Arthur<'a> as Transcript<F>>::draws_scalar(s);
            let value = Ok::<(Seq<u8>, ArthurState), Refusal<ArthurState>>((bytes, after));
            &&& read is Err ==> scalar is Err && scalar->Err_0 == read->Err_0
            &&& read == value && le_value(bytes) < p ==> scalar == Ok::<
                (nat, ArthurState),
                Refusal<ArthurState>,
            >((le_value(bytes), after))
            &&& read == value && le_value(bytes) >= p ==> scalar == Err::<
                (nat, ArthurState),
                Refusal<ArthurState>,
            >(Refusal { error: Fault::SerializationError, state: Some(after) })
            &&& drawn is Err ==> challenge is Err && challenge->Err_0 == drawn->Err_0
            &&& drawn == value ==> challenge == Ok::<(nat, ArthurState), Refusal<ArthurState>>(
                (be_value(bytes) % p, after),
            )
        }),
        ({
            let none = Difficulty { bound: None };
            let some = Difficulty { bound: Some(bound) };
            let passed = <Arthur<'a> as Grinding<F, S>>::passes_work(s, some);
            let drawn = s.draw(32) == Ok::<(Seq<u8>, ArthurState), Refusal<ArthurState>>(
                (bytes, after),
            );
            let read = after.read(8) == Ok::<(Seq<u8>, ArthurState), Refusal<ArthurState>>(
                (nonce, last),
            );
            let accepted = S::accepts(bytes, bound, be_value(nonce) as u64);
            &&& <Arthur<'a> as Grinding<F, S>>::passes_work(s, none) == Ok::<
                ((), ArthurState),
                Refusal<ArthurState>,
            >(((), s))
            &&& s.draw(32) is Err ==> passed is Err && passed->Err_0 == s.draw(32)->Err_0
            &&& drawn && after.read(8) is Err ==> passed is Err && passed->Err_0 == after.read(
                8,
            )->Err_0
            &&& drawn && read && accepted ==> passed == Ok::<
                ((), ArthurState),
                Refusal<ArthurState>,
            >(((), last))
            &&& drawn && read && !accepted ==> passed == Err::<
                ((), ArthurState),
                Refusal<ArthurState>,
            >(Refusal { error: Fault::InvalidProof, state: Some(last) })
        }),
{
}

impl<F: PrimeField, C, S> WhirConfig<F, C, S> {
    /// The parameters fit together exactly if something is folded, the foldings and the final
    /// polynomial account for all variables, the sizes fit into a word, and wherever there are
    /// queries there is a coset to query.
    pub proof fn law_wf(&self)
        ensures
            self.wf() <==> {
                let k = self.folding_factor as nat;
                let n = self.round_parameters@.len();
                &&& k >= 1
                &&& pow2(k) <= usize::MAX
                &&& pow2(self.final_sumcheck_rounds as nat) <= usize::MAX
                &&& self.mv_parameters.num_variables == k * (n + 1) + self.final_sumcheck_rounds
                &&& forall|r: int|
                    0 <= r < n ==> (#[trigger] self.round_parameters@[r]).num_queries
                        + self.round_parameters@[r].ood_samples <= usize::MAX
                &&& forall|r: int|
                    0 <= r < n && (#[trigger] self.round_parameters@[r]).num_queries > 0
                        ==> self.starting_domain.size as nat / pow2(r as nat) / pow2(k) > 0
                &&& self.final_queries > 0 ==> self.starting_domain.size as nat / pow2(n) / pow2(k)
                    > 0
            },
    {
    }
}

} // verus!
