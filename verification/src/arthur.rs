//! The transcript of `nimue`: a sponge that follows a declared pattern of messages.
use crate::bn254::{bn254_order, limbs_value, FieldBn256};
use crate::bytes::{be_u64, be_value, le_value};
use crate::field::PrimeField;
use crate::transcript::{
    refused, Difficulty, Fault, Grinding, Outcome, PowStrategy, ProofError, Refusal, Transcript,
};
use ark_ff::PrimeField as ArkPrimeField;
use nimue::{ByteChallenges, ByteReader};
use nimue::plugins::ark::{FieldChallenges, FieldReader};
use vstd::prelude::*;

verus! {

/// `nimue::Arthur` over its default hash, with the verifier's copy of a transcript.
#[verifier::external_body]
pub struct Arthur<'a> {
    pub inner: nimue::Arthur<'a>,
}

/// The operations that the pattern still asks for: `'A'` with the number of bytes to read, `'S'`
/// with the number of bytes to draw, `'R'` to ratchet.
pub uninterp spec fn arthur_pending(arthur: Arthur<'_>) -> Seq<(char, nat)>;

/// The bytes of the transcript that were not read yet.
pub uninterp spec fn arthur_unread(arthur: Arthur<'_>) -> Seq<u8>;

/// What its sponge took in (`true`) and gave out (`false`) so far, from the tag of the pattern on.
pub uninterp spec fn arthur_history(arthur: Arthur<'_>) -> Seq<(bool, Seq<u8>)>;

/// The next `n` bytes that the sponge gives out after this history.
pub uninterp spec fn sponge_bytes(history: Seq<(bool, Seq<u8>)>, n: nat) -> Seq<u8>;

/// The text of the error with which `n` bytes are not read, where the pattern asks for `pending`
/// and `held` bytes are left.
pub uninterp spec fn read_refusal(pending: Seq<(char, nat)>, held: nat, n: nat) -> Seq<char>;

/// The text of the error with which `n` bytes are not drawn, where the pattern asks for `pending`.
pub uninterp spec fn draw_refusal(pending: Seq<(char, nat)>, n: nat) -> Seq<char>;

/// Where an [`Arthur`] stands.
#[verifier::ext_equal]
pub struct ArthurState {
    pub pending: Seq<(char, nat)>,
    pub unread: Seq<u8>,
    pub history: Seq<(bool, Seq<u8>)>,
}

impl<'a> View for Arthur<'a> {
    type V = ArthurState;

    open spec fn view(&self) -> ArthurState {
        ArthurState {
            pending: arthur_pending(*self),
            unread: arthur_unread(*self),
            history: arthur_history(*self),
        }
    }
}

/// The pattern's next operation is `op`, on at least `n` bytes.
pub open spec fn asks_for(pending: Seq<(char, nat)>, op: char, n: nat) -> bool {
    pending.len() > 0 && pending[0].0 == op && pending[0].1 >= n
}

/// The pattern after `n` bytes of its next operation.
pub open spec fn after_bytes(pending: Seq<(char, nat)>, n: nat) -> Seq<(char, nat)> {
    if pending[0].1 == n {
        pending.drop_first()
    } else {
        pending.update(0, (pending[0].0, (pending[0].1 - n) as nat))
    }
}

impl ArthurState {
    /// The state after an operation that the pattern does not ask for: the pattern is dropped.
    pub open spec fn adrift(self) -> ArthurState {
        ArthurState { pending: Seq::empty(), ..self }
    }

    /// Reading `n` bytes: the bytes, and the state afterwards. The pattern has to ask for them and
    /// the transcript has to hold them. Bytes that the pattern does not ask for are passed over;
    /// where the transcript does not hold that many, it is left open what remains unread.
    pub open spec fn read(self, n: nat) -> Outcome<Seq<u8>, ArthurState> {
        if asks_for(self.pending, 'A', n) && self.unread.len() >= n {
            let bytes = self.unread.take(n as int);
            Ok(
                (
                    bytes,
                    ArthurState {
                        pending: after_bytes(self.pending, n),
                        unread: self.unread.skip(n as int),
                        history: self.history.push((true, bytes)),
                    },
                ),
            )
        } else {
            Err(
                Refusal {
                    error: Fault::InvalidIO(
                        read_refusal(self.pending, self.unread.len(), n),
                    ),
                    state: if self.unread.len() >= n {
                        Some(ArthurState { unread: self.unread.skip(n as int), ..self.adrift() })
                    } else {
                        None
                    },
                },
            )
        }
    }

    /// Drawing `n` bytes: the bytes, and the state afterwards. The pattern has to ask for them.
    pub open spec fn draw(self, n: nat) -> Outcome<Seq<u8>, ArthurState> {
        if asks_for(self.pending, 'S', n) {
            let bytes = sponge_bytes(self.history, n);
            Ok(
                (
                    bytes,
                    ArthurState {
                        pending: after_bytes(self.pending, n),
                        unread: self.unread,
                        history: self.history.push((false, bytes)),
                    },
                ),
            )
        } else {
            Err(
                Refusal {
                    error: Fault::InvalidIO(draw_refusal(self.pending, n)),
                    state: Some(self.adrift()),
                },
            )
        }
    }

    /// Reading an element of a field of order `p` in `width` bytes, least significant first.
    pub open spec fn read_scalar(self, p: nat, width: nat) -> Outcome<nat, ArthurState> {
        match self.read(width) {
            Ok((bytes, after)) => if le_value(bytes) < p {
                Ok((le_value(bytes), after))
            } else {
                Err(Refusal { error: Fault::SerializationError, state: Some(after) })
            },
            Err(e) => Err(e),
        }
    }

    /// Drawing an element of a field of order `p`: `width` bytes, most significant first, modulo
    /// the order.
    pub open spec fn draw_scalar(self, p: nat, width: nat) -> Outcome<nat, ArthurState> {
        match self.draw(width) {
            Ok((bytes, after)) => Ok((be_value(bytes) % p, after)),
            Err(e) => Err(e),
        }
    }

    /// Passing a proof of work: 32 bytes are drawn as the challenge, and 8 bytes are read as the
    /// nonce, most significant first.
    pub open spec fn pass_work<S: PowStrategy>(self, bound: u64) -> Outcome<(), ArthurState> {
        match self.draw(32) {
            Ok((challenge, drawn)) => match drawn.read(8) {
                Ok((nonce, after)) => if S::accepts(challenge, bound, be_value(nonce) as u64) {
                    Ok(((), after))
                } else {
                    Err(Refusal { error: Fault::InvalidProof, state: Some(after) })
                },
                Err(e) => Err(e),
            },
            Err(e) => Err(e),
        }
    }
}

/// `nimue::ByteReader::next_bytes`: takes the next bytes of the transcript, where the pattern
/// asks for them and the transcript holds them, and feeds them to the sponge. Bytes that the
/// pattern does not ask for are taken from the transcript too, and the pattern is dropped. What
/// is left of a transcript that holds too few bytes is not said. The text of an error depends on
/// the pattern, the bytes that are left and the bytes that were asked for.
#[verifier::external_body]
fn arthur_next_bytes<const N: usize>(arthur: &mut Arthur<'_>) -> (r: Result<
    [u8; N],
    String,
>)
    ensures
        r is Ok <==> asks_for(arthur_pending(*old(arthur)), 'A', N as nat)
            && arthur_unread(*old(arthur)).len() >= N,
        r matches Err(text) ==> text@ == read_refusal(
            arthur_pending(*old(arthur)),
            arthur_unread(*old(arthur)).len(),
            N as nat,
        ),
        r is Err && arthur_unread(*old(arthur)).len() >= N ==> {
            &&& arthur_pending(*final(arthur)) == Seq::<(char, nat)>::empty()
            &&& arthur_unread(*final(arthur)) == arthur_unread(*old(arthur)).skip(N as int)
            &&& arthur_history(*final(arthur)) == arthur_history(*old(arthur))
        },
        r matches Ok(b) ==> {
            &&& b@ == arthur_unread(*old(arthur)).take(N as int)
            &&& arthur_pending(*final(arthur)) == after_bytes(
                arthur_pending(*old(arthur)),
                N as nat,
            )
            &&& arthur_unread(*final(arthur)) == arthur_unread(*old(arthur)).skip(N as int)
            &&& arthur_history(*final(arthur)) == arthur_history(*old(arthur)).push((true, b@))
        },
{
    match arthur.inner.next_bytes::<N>() {
        Ok(bytes) => Ok(bytes),
        Err(e) => Err(e.to_string()),
    }
}

/// `nimue::ByteChallenges::challenge_bytes`: takes bytes out of the sponge, where the pattern asks
/// for them. The bytes depend on what went through the sponge before and on nothing else. Where
/// the pattern does not ask for them, it is dropped; the text of the error depends on the pattern
/// and the bytes that were asked for.
#[verifier::external_body]
fn arthur_challenge_bytes<const N: usize>(arthur: &mut Arthur<'_>) -> (r: Result<
    [u8; N],
    String,
>)
    ensures
        r is Ok <==> asks_for(arthur_pending(*old(arthur)), 'S', N as nat),
        r matches Err(text) ==> text@ == draw_refusal(arthur_pending(*old(arthur)), N as nat),
        r is Err ==> {
            &&& arthur_pending(*final(arthur)) == Seq::<(char, nat)>::empty()
            &&& arthur_unread(*final(arthur)) == arthur_unread(*old(arthur))
            &&& arthur_history(*final(arthur)) == arthur_history(*old(arthur))
        },
        r matches Ok(b) ==> {
            &&& b@ == sponge_bytes(arthur_history(*old(arthur)), N as nat)
            &&& arthur_pending(*final(arthur)) == after_bytes(
                arthur_pending(*old(arthur)),
                N as nat,
            )
            &&& arthur_unread(*final(arthur)) == arthur_unread(*old(arthur))
            &&& arthur_history(*final(arthur)) == arthur_history(*old(arthur)).push((false, b@))
        },
{
    match arthur.inner.challenge_bytes::<N>() {
        Ok(bytes) => Ok(bytes),
        Err(e) => Err(e.to_string()),
    }
}

/// `nimue::plugins::ark::FieldReader::next_scalars`, for one element of `ark_bn254::Fr`: reads 32
/// bytes as above; they have to encode a reduced number, least significant byte first.
#[verifier::external_body]
fn arthur_next_fr(arthur: &mut Arthur<'_>) -> (r: Result<[u64; 4], ProofError>)
    ensures
        match old(arthur)@.read_scalar(bn254_order(), 32) {
            Ok((value, after)) => r matches Ok(limbs) && limbs_value(limbs) == value && final(
                arthur)@ == after,
            Err(e) => r matches Err(x) && refused(e, x, final(arthur)@),
        },
{
    match FieldReader::<ark_bn254::Fr>::next_scalars::<1>(&mut arthur.inner) {
        Ok(x) => Ok(x[0].into_bigint().0),
        Err(nimue::ProofError::InvalidProof) => Err(ProofError::InvalidProof),
        Err(nimue::ProofError::InvalidIO(e)) => Err(ProofError::InvalidIO(e.to_string())),
        Err(nimue::ProofError::SerializationError) => Err(ProofError::SerializationError),
    }
}

/// `nimue::plugins::ark::FieldChallenges::challenge_scalars`, for one element of
/// `ark_bn254::Fr`: takes 47 bytes out of the sponge as above and reduces the number that they
/// encode, most significant byte first.
#[verifier::external_body]
fn arthur_challenge_fr(arthur: &mut Arthur<'_>) -> (r: Result<[u64; 4], ProofError>)
    ensures
        match old(arthur)@.draw_scalar(bn254_order(), 47) {
            Ok((value, after)) => r matches Ok(limbs) && limbs_value(limbs) == value && final(
                arthur)@ == after,
            Err(e) => r matches Err(x) && refused(e, x, final(arthur)@),
        },
{
    match FieldChallenges::<ark_bn254::Fr>::challenge_scalars::<1>(&mut arthur.inner) {
        Ok(x) => Ok(x[0].into_bigint().0),
        Err(nimue::ProofError::InvalidProof) => Err(ProofError::InvalidProof),
        Err(nimue::ProofError::InvalidIO(e)) => Err(ProofError::InvalidIO(e.to_string())),
        Err(nimue::ProofError::SerializationError) => Err(ProofError::SerializationError),
    }
}

/// A field whose elements an [`Arthur`] reads and draws.
pub trait ArthurScalar: PrimeField {
    /// How many bytes are drawn for an element.
    spec fn challenge_len() -> nat;

    fn next_from(arthur: &mut Arthur<'_>) -> (r: Result<Self, ProofError>)
        ensures
            match old(arthur)@.read_scalar(Self::modulus(), Self::byte_len()) {
                Ok((value, after)) => r matches Ok(x) && x.val() == value && final(arthur)@
                    == after,
                Err(e) => r matches Err(x) && refused(e, x, final(arthur)@),
            },
    ;

    fn challenge_from(arthur: &mut Arthur<'_>) -> (r: Result<Self, ProofError>)
        ensures
            match old(arthur)@.draw_scalar(Self::modulus(), Self::challenge_len()) {
                Ok((value, after)) => r matches Ok(x) && x.val() == value && final(arthur)@
                    == after,
                Err(e) => r matches Err(x) && refused(e, x, final(arthur)@),
            },
    ;
}

impl ArthurScalar for FieldBn256 {
    open spec fn challenge_len() -> nat {
        47
    }

    fn next_from(arthur: &mut Arthur<'_>) -> (r: Result<Self, ProofError>) {
        match arthur_next_fr(arthur) {
            Ok(limbs) => match FieldBn256::from_limbs(limbs) {
                Some(x) => Ok(x),
                None => vstd::pervasive::unreached(),
            },
            Err(e) => Err(e),
        }
    }

    fn challenge_from(arthur: &mut Arthur<'_>) -> (r: Result<Self, ProofError>) {
        match arthur_challenge_fr(arthur) {
            Ok(limbs) => match FieldBn256::from_limbs(limbs) {
                Some(x) => Ok(x),
                None => vstd::pervasive::unreached(),
            },
            Err(e) => Err(e),
        }
    }
}

impl<F: ArthurScalar> Transcript<F> for Arthur<'_> {
    type State = ArthurState;

    open spec fn state(&self) -> ArthurState {
        self@
    }

    /// Nothing is kept of what was read.
    open spec fn kept(&self) -> Seq<u8> {
        Seq::empty()
    }

    open spec fn reads_bytes(s: ArthurState) -> Outcome<Seq<u8>, ArthurState> {
        s.read(32)
    }

    open spec fn reads_scalar(s: ArthurState) -> Outcome<nat, ArthurState> {
        s.read_scalar(F::modulus(), F::byte_len())
    }

    open spec fn draws_bytes(s: ArthurState) -> Outcome<Seq<u8>, ArthurState> {
        s.draw(32)
    }

    open spec fn draws_scalar(s: ArthurState) -> Outcome<nat, ArthurState> {
        s.draw_scalar(F::modulus(), F::challenge_len())
    }

    fn next_hash(&mut self) -> (r: Result<[u8; 32], ProofError>) {
        match arthur_next_bytes::<32>(self) {
            Ok(bytes) => Ok(bytes),
            Err(text) => Err(ProofError::InvalidIO(text)),
        }
    }

    fn next_scalar(&mut self) -> (r: Result<F, ProofError>) {
        F::next_from(self)
    }

    fn challenge_hash(&mut self) -> (r: Result<[u8; 32], ProofError>) {
        match arthur_challenge_bytes::<32>(self) {
            Ok(bytes) => Ok(bytes),
            Err(text) => Err(ProofError::InvalidIO(text)),
        }
    }

    fn challenge_scalar(&mut self) -> (r: Result<F, ProofError>) {
        F::challenge_from(self)
    }

}

impl<F: ArthurScalar, S: PowStrategy> Grinding<F, S> for Arthur<'_> {
    open spec fn passes_work(s: ArthurState, difficulty: Difficulty) -> Outcome<(), ArthurState> {
        match difficulty.bound {
            Some(bound) => s.pass_work::<S>(bound),
            None => Ok(((), s)),
        }
    }

    proof fn lemma_no_work(s: ArthurState, difficulty: Difficulty) {
    }

    fn challenge_pow(&mut self, difficulty: Difficulty) -> (r: Result<(), ProofError>) {
        match difficulty.bound {
            Some(bound) => {
                let challenge: [u8; 32] = match arthur_challenge_bytes::<32>(self) {
                    Ok(bytes) => bytes,
                    Err(text) => {
                        return Err(ProofError::InvalidIO(text));
                    },
                };
                let nonce: [u8; 8] = match arthur_next_bytes::<8>(self) {
                    Ok(bytes) => bytes,
                    Err(text) => {
                        return Err(ProofError::InvalidIO(text));
                    },
                };
                if S::check(&challenge, bound, be_u64(&nonce)) {
                    Ok(())
                } else {
                    Err(ProofError::InvalidProof)
                }
            },
            None => Ok(()),
        }
    }
}

} // verus!
