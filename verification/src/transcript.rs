//! What a verifier reads from a proof, and the challenges that it draws on the way.
use crate::field::{vals, PrimeField};
use vstd::prelude::*;

verus! {

/// Why a proof was not accepted.
#[derive(Clone, Debug, PartialEq, Eq)]
pub enum ProofError {
    /// A check of the proof failed.
    InvalidProof,
    /// The transcript does not have the shape that the protocol asks for; the text says what does
    /// not fit.
    InvalidIO(String),
    /// Bytes of the transcript do not encode what they should.
    SerializationError,
}

/// What an error says.
#[verifier::ext_equal]
pub enum Fault {
    InvalidProof,
    InvalidIO(Seq<char>),
    SerializationError,
}

impl View for ProofError {
    type V = Fault;

    open spec fn view(&self) -> Fault {
        match self {
            ProofError::InvalidProof => Fault::InvalidProof,
            ProofError::InvalidIO(text) => Fault::InvalidIO(text@),
            ProofError::SerializationError => Fault::SerializationError,
        }
    }
}

/// Why a step was refused, and where the transcript stands then, as far as that is settled.
#[verifier::ext_equal]
pub struct Refusal<S> {
    pub error: Fault,
    pub state: Option<S>,
}

/// What a step gives, with the state afterwards, or why it was refused.
pub type Outcome<V, S> = Result<(V, S), Refusal<S>>;

/// A step that was refused with this error, and left the transcript in this state.
pub open spec fn refused<S>(refusal: Refusal<S>, error: ProofError, state: S) -> bool {
    &&& error@ == refusal.error
    &&& refusal.state matches Some(settled) ==> state == settled
}

/// A refused step returns just the error that is owed, with the text that is owed, and leaves the
/// transcript in the state that is settled, if one is.
pub proof fn law_refused<S>(fault: Fault, state: Option<S>, error: ProofError, now: S)
    ensures
        refused(Refusal { error: fault, state }, error, now) <==> (match error {
            ProofError::InvalidProof => fault == Fault::InvalidProof,
            ProofError::InvalidIO(text) => fault == Fault::InvalidIO(text@),
            ProofError::SerializationError => fault == Fault::SerializationError,
        } && (state is None || state == Some(now))),
{
}

/// Where the transcript stands afterwards, as far as that is settled.
pub open spec fn end_state<V, S>(outcome: Outcome<V, S>) -> Option<S> {
    match outcome {
        Ok((_, state)) => Some(state),
        Err(refusal) => refusal.state,
    }
}

/// How much work a proof of work shows: a hash has to fall below the bound. Without a bound
/// there is no work to show.
#[derive(Clone, Copy, Debug)]
pub struct Difficulty {
    pub bound: Option<u64>,
}

/// A way to check a proof of work. The check has to be a function of its arguments.
pub trait PowStrategy {
    /// The nonce solves the challenge: what [`Self::check`] decides. An implementation in ordinary
    /// Rust leaves this as it is: some function of the arguments.
    closed spec fn accepts(challenge: Seq<u8>, bound: u64, nonce: u64) -> bool {
        arbitrary::<spec_fn(Seq<u8>, u64, u64) -> bool>()(challenge, bound, nonce)
    }

    fn check(challenge: &[u8; 32], bound: u64, nonce: u64) -> (r: bool)
        ensures
            r == Self::accepts(challenge@, bound, nonce),
    ;
}

/// A transcript on the verifier's side. The messages of the prover are read one after another,
/// and what was read determines the challenges that follow.
pub trait Transcript<F: PrimeField>: Sized {
    /// What is left to read, and what the challenges depend on.
    type State;

    spec fn state(&self) -> Self::State;

    /// What is kept of the whole transcript, which neither reading nor drawing changes.
    spec fn kept(&self) -> Seq<u8>;

    /// Reading 32 bytes: the bytes, and the state afterwards.
    spec fn reads_bytes(s: Self::State) -> Outcome<Seq<u8>, Self::State>;

    /// Reading a field element: its residue, and the state afterwards.
    spec fn reads_scalar(s: Self::State) -> Outcome<nat, Self::State>;

    /// Drawing 32 bytes: the bytes, and the state afterwards.
    spec fn draws_bytes(s: Self::State) -> Outcome<Seq<u8>, Self::State>;

    /// Drawing a field element: its residue, and the state afterwards.
    spec fn draws_scalar(s: Self::State) -> Outcome<nat, Self::State>;

    /// Reads 32 bytes.
    fn next_hash(&mut self) -> (r: Result<[u8; 32], ProofError>)
        ensures
            final(self).kept() == old(self).kept(),
            match Self::reads_bytes(old(self).state()) {
                Ok((bytes, after)) => r matches Ok(b) && b@ == bytes && final(self).state()
                    == after,
                Err(e) => r matches Err(x) && refused(e, x, final(self).state()),
            },
    ;

    /// Reads a field element.
    fn next_scalar(&mut self) -> (r: Result<F, ProofError>)
        ensures
            final(self).kept() == old(self).kept(),
            match Self::reads_scalar(old(self).state()) {
                Ok((value, after)) => r matches Ok(x) && x.val() == value && final(self).state()
                    == after,
                Err(e) => r matches Err(x) && refused(e, x, final(self).state()),
            },
    ;

    /// Draws 32 bytes.
    fn challenge_hash(&mut self) -> (r: Result<[u8; 32], ProofError>)
        ensures
            final(self).kept() == old(self).kept(),
            match Self::draws_bytes(old(self).state()) {
                Ok((bytes, after)) => r matches Ok(b) && b@ == bytes && final(self).state()
                    == after,
                Err(e) => r matches Err(x) && refused(e, x, final(self).state()),
            },
    ;

    /// Draws a field element.
    fn challenge_scalar(&mut self) -> (r: Result<F, ProofError>)
        ensures
            final(self).kept() == old(self).kept(),
            match Self::draws_scalar(old(self).state()) {
                Ok((value, after)) => r matches Ok(x) && x.val() == value && final(self).state()
                    == after,
                Err(e) => r matches Err(x) && refused(e, x, final(self).state()),
            },
    ;
}

/// A transcript in which proofs of work may stand.
pub trait Grinding<F: PrimeField, S: PowStrategy>: Transcript<F> {
    /// Passing a proof of work: the state afterwards.
    spec fn passes_work(s: Self::State, difficulty: Difficulty) -> Outcome<(), Self::State>;

    /// Where there is no work to show, nothing happens.
    proof fn lemma_no_work(s: Self::State, difficulty: Difficulty)
        requires
            difficulty.bound is None,
        ensures
            Self::passes_work(s, difficulty) == Ok::<((), Self::State), Refusal<Self::State>>(
                ((), s),
            ),
    ;

    /// Checks a proof of work, where the transcript has one.
    fn challenge_pow(&mut self, difficulty: Difficulty) -> (r: Result<(), ProofError>)
        ensures
            final(self).kept() == old(self).kept(),
            match Self::passes_work(old(self).state(), difficulty) {
                Ok((_, after)) => r is Ok && final(self).state() == after,
                Err(e) => r matches Err(x) && refused(e, x, final(self).state()),
            },
    ;
}

/// Reading `n` field elements in turn, after those in `seen`.
pub open spec fn reads_scalars<F: PrimeField, T: Transcript<F>>(
    s: T::State,
    seen: Seq<nat>,
    n: nat,
) -> Outcome<Seq<nat>, T::State>
    decreases n,
{
    if n == 0 {
        Ok((seen, s))
    } else {
        match T::reads_scalar(s) {
            Ok((x, after)) => reads_scalars::<F, T>(after, seen.push(x), (n - 1) as nat),
            Err(e) => Err(e),
        }
    }
}

/// Drawing `n` field elements in turn, after those in `seen`.
pub open spec fn draws_scalars<F: PrimeField, T: Transcript<F>>(
    s: T::State,
    seen: Seq<nat>,
    n: nat,
) -> Outcome<Seq<nat>, T::State>
    decreases n,
{
    if n == 0 {
        Ok((seen, s))
    } else {
        match T::draws_scalar(s) {
            Ok((x, after)) => draws_scalars::<F, T>(after, seen.push(x), (n - 1) as nat),
            Err(e) => Err(e),
        }
    }
}

/// Reads `n` field elements.
pub fn next_scalars<F: PrimeField, T: Transcript<F>>(transcript: &mut T, n: usize) -> (r: Result<
    Vec<F>,
    ProofError,
>)
    ensures
        final(transcript).kept() == old(transcript).kept(),
        match reads_scalars::<F, T>(old(transcript).state(), Seq::empty(), n as nat) {
            Ok((values, after)) => r matches Ok(xs) && vals(xs@) == values
                && final(transcript).state() == after,
            Err(e) => r matches Err(x) && refused(e, x, final(transcript).state()),
        },
{
    let ghost start = transcript.state();
    let mut xs: Vec<F> = Vec::new();
    let mut i: usize = 0;
    assert(vals(xs@) =~= Seq::<nat>::empty());
    while i < n
        invariant
            i <= n,
            xs@.len() == i,
            start == old(transcript).state(),
            transcript.kept() == old(transcript).kept(),
            reads_scalars::<F, T>(transcript.state(), vals(xs@), (n - i) as nat)
                == reads_scalars::<F, T>(start, Seq::empty(), n as nat),
        decreases n - i,
    {
        let ghost before = vals(xs@);
        match transcript.next_scalar() {
            Ok(x) => {
                xs.push(x);
                assert(vals(xs@) =~= before.push(x.val()));
            },
            Err(e) => {
                return Err(e);
            },
        }
        i += 1;
    }
    Ok(xs)
}

/// Draws `n` field elements.
pub fn challenge_scalars<F: PrimeField, T: Transcript<F>>(
    transcript: &mut T,
    n: usize,
) -> (r: Result<Vec<F>, ProofError>)
    ensures
        final(transcript).kept() == old(transcript).kept(),
        match draws_scalars::<F, T>(old(transcript).state(), Seq::empty(), n as nat) {
            Ok((values, after)) => r matches Ok(xs) && vals(xs@) == values
                && final(transcript).state() == after,
            Err(e) => r matches Err(x) && refused(e, x, final(transcript).state()),
        },
{
    let ghost start = transcript.state();
    let mut xs: Vec<F> = Vec::new();
    let mut i: usize = 0;
    assert(vals(xs@) =~= Seq::<nat>::empty());
    while i < n
        invariant
            i <= n,
            xs@.len() == i,
            start == old(transcript).state(),
            transcript.kept() == old(transcript).kept(),
            draws_scalars::<F, T>(transcript.state(), vals(xs@), (n - i) as nat)
                == draws_scalars::<F, T>(start, Seq::empty(), n as nat),
        decreases n - i,
    {
        let ghost before = vals(xs@);
        match transcript.challenge_scalar() {
            Ok(x) => {
                xs.push(x);
                assert(vals(xs@) =~= before.push(x.val()));
            },
            Err(e) => {
                return Err(e);
            },
        }
        i += 1;
    }
    Ok(xs)
}

/// As many field elements come back as were asked for.
pub proof fn lemma_scalars_len<F: PrimeField, T: Transcript<F>>(
    s: T::State,
    seen: Seq<nat>,
    n: nat,
)
    ensures
        reads_scalars::<F, T>(s, seen, n) matches Ok((values, after)) ==> values.len()
            == seen.len() + n,
        draws_scalars::<F, T>(s, seen, n) matches Ok((values, after)) ==> values.len()
            == seen.len() + n,
    decreases n,
{
    if n > 0 {
        if let Ok((x, after)) = T::reads_scalar(s) {
            lemma_scalars_len::<F, T>(after, seen.push(x), (n - 1) as nat);
        }
        if let Ok((x, after)) = T::draws_scalar(s) {
            lemma_scalars_len::<F, T>(after, seen.push(x), (n - 1) as nat);
        }
    }
}

} // verus!
