//! A transcript that an EVM contract can follow: a chain of Keccak hashes.
use crate::bytes::{
    be_bytes, be_u64, be_value, le_bytes, lemma_be_roundtrip, lemma_le_bytes_reversed,
    lemma_value_reversed, reversed, u64_be,
};
use crate::field::PrimeField;
use crate::hasher::{keccak256, keccak256_digest, KeccakDigest};
use crate::transcript::{
    refused, Difficulty, Fault, Grinding, Outcome, PowStrategy, ProofError, Refusal, Transcript,
};
use std::marker::PhantomData;
use vstd::prelude::*;

verus! {

/// Where the reader of a chain stands.
#[verifier::ext_equal]
pub struct ChainState {
    /// The bytes that were not read yet.
    pub unread: Seq<u8>,
    /// The hash of everything that happened so far.
    pub chain: Seq<u8>,
}

/// The chain after a message of the prover.
pub open spec fn chained(chain: Seq<u8>, message: Seq<u8>) -> Seq<u8> {
    keccak256_digest(chain + message)
}

/// The next challenge, which is also the chain after it was drawn.
pub open spec fn drawn(chain: Seq<u8>) -> Seq<u8> {
    keccak256_digest(chain)
}

impl ChainState {
    /// Reading `n` bytes as one message: the bytes, and the state afterwards. Where fewer are left,
    /// nothing is read.
    pub open spec fn read(self, n: nat) -> Outcome<Seq<u8>, ChainState> {
        if self.unread.len() >= n {
            let message = self.unread.take(n as int);
            Ok(
                (
                    message,
                    ChainState {
                        unread: self.unread.skip(n as int),
                        chain: chained(self.chain, message),
                    },
                ),
            )
        } else {
            Err(
                Refusal {
                    error: Fault::InvalidIO("the transcript is too short"@),
                    state: Some(self),
                },
            )
        }
    }

    /// Reading an element of a field of order `p` in `width` bytes, most significant first.
    pub open spec fn read_scalar(self, p: nat, width: nat) -> Outcome<nat, ChainState> {
        match self.read(width) {
            Ok((bytes, after)) => if be_value(bytes) < p {
                Ok((be_value(bytes), after))
            } else {
                Err(Refusal { error: Fault::SerializationError, state: Some(after) })
            },
            Err(e) => Err(e),
        }
    }

    /// The state after a challenge.
    pub open spec fn after_draw(self) -> ChainState {
        ChainState { unread: self.unread, chain: drawn(self.chain) }
    }
}

/// A message of the prover, or a challenge of the verifier.
pub enum Step {
    Message(Seq<u8>),
    Challenge,
}

/// The transcript of a prover that takes these steps.
pub open spec fn transcript_of(steps: Seq<Step>) -> Seq<u8>
    decreases steps.len(),
{
    if steps.len() == 0 {
        Seq::empty()
    } else {
        match steps[0] {
            Step::Message(bytes) => bytes + transcript_of(steps.drop_first()),
            Step::Challenge => transcript_of(steps.drop_first()),
        }
    }
}

/// What passes between prover and verifier, on the prover's side: its messages, and the challenges
/// that it gets for them.
pub open spec fn said(chain: Seq<u8>, steps: Seq<Step>) -> Seq<Seq<u8>>
    decreases steps.len(),
{
    if steps.len() == 0 {
        Seq::empty()
    } else {
        match steps[0] {
            Step::Message(bytes) => seq![bytes] + said(chained(chain, bytes), steps.drop_first()),
            Step::Challenge => seq![drawn(chain)] + said(drawn(chain), steps.drop_first()),
        }
    }
}

/// The same on the verifier's side, which reads as many bytes as each message has; nothing where
/// a read fails.
pub open spec fn heard(s: ChainState, steps: Seq<Step>) -> Option<(Seq<Seq<u8>>, ChainState)>
    decreases steps.len(),
{
    if steps.len() == 0 {
        Some((Seq::empty(), s))
    } else {
        match steps[0] {
            Step::Message(bytes) => match s.read(bytes.len()) {
                Ok((message, after)) => match heard(after, steps.drop_first()) {
                    Some((rest, end)) => Some((seq![message] + rest, end)),
                    None => None,
                },
                Err(_) => None,
            },
            Step::Challenge => match heard(s.after_draw(), steps.drop_first()) {
                Some((rest, end)) => Some((seq![drawn(s.chain)] + rest, end)),
                None => None,
            },
        }
    }
}

/// The verifier hears what the prover said: it reads back every message and draws the same
/// challenges, and what follows in the transcript is left to read.
pub proof fn law_heard_is_said(chain: Seq<u8>, steps: Seq<Step>, rest: Seq<u8>)
    ensures
        heard(ChainState { unread: transcript_of(steps) + rest, chain }, steps) matches Some(
            (messages, end),
        ) && messages == said(chain, steps) && end.unread == rest,
    decreases steps.len(),
{
    let s = ChainState { unread: transcript_of(steps) + rest, chain };
    if steps.len() == 0 {
        assert(s.unread =~= rest);
    } else {
        let tail = steps.drop_first();
        match steps[0] {
            Step::Message(bytes) => {
                law_heard_is_said(chained(chain, bytes), tail, rest);
                assert(s.unread.take(bytes.len() as int) =~= bytes);
                assert(s.unread.skip(bytes.len() as int) =~= transcript_of(tail) + rest);
            },
            Step::Challenge => {
                law_heard_is_said(drawn(chain), tail, rest);
            },
        }
    }
}

/// A field element that was written as a message is read back.
pub proof fn law_scalar_read_back<F: PrimeField>(chain: Seq<u8>, value: nat, rest: Seq<u8>)
    requires
        value < F::modulus(),
    ensures
        ({
            let message = be_bytes(value, F::byte_len());
            ChainState { unread: message + rest, chain }.read_scalar(F::modulus(), F::byte_len())
                == Ok::<(nat, ChainState), Refusal<ChainState>>(
                (value, ChainState { unread: rest, chain: chained(chain, message) }),
            )
        }),
{
    let message = be_bytes(value, F::byte_len());
    F::lemma_byte_len();
    lemma_be_roundtrip(value, F::byte_len());
    assert((message + rest).take(message.len() as int) =~= message);
    assert((message + rest).skip(message.len() as int) =~= rest);
}

/// A transcript over a chain of Keccak hashes. A prover appends messages to it, and
/// [`Self::to_arthur`] hands it to a verifier.
pub struct EVMFs<F> {
    transcript: Vec<u8>,
    position: usize,
    chain: KeccakDigest,
    _field: PhantomData<F>,
}

impl<F> Clone for EVMFs<F> {
    fn clone(&self) -> (r: Self)
        ensures
            r@ == self@,
            r.written() == self.written(),
    {
        proof {
            use_type_invariant(self);
        }
        let transcript = self.transcript.clone();
        assert(transcript@ =~= self.transcript@);
        EVMFs { transcript, position: self.position, chain: self.chain, _field: PhantomData }
    }
}

impl<F> View for EVMFs<F> {
    type V = ChainState;

    closed spec fn view(&self) -> ChainState {
        ChainState { unread: self.transcript@.skip(self.position as int), chain: self.chain@ }
    }
}

impl<F> EVMFs<F> {
    #[verifier::type_invariant]
    spec fn in_range(self) -> bool {
        self.position <= self.transcript@.len()
    }

    /// Everything that was appended.
    pub closed spec fn written(&self) -> Seq<u8> {
        self.transcript@
    }
}

/// The chain before anything happened.
pub open spec fn chain_start() -> Seq<u8> {
    Seq::new(32, |i: int| 0u8)
}

impl<F: PrimeField> EVMFs<F> {
    /// An empty transcript.
    pub fn new() -> (r: Self)
        ensures
            r.written() == Seq::<u8>::empty(),
            r@ == (ChainState { unread: Seq::empty(), chain: chain_start() }),
    {
        let r = EVMFs {
            transcript: Vec::new(),
            position: 0,
            chain: KeccakDigest([0u8; 32]),
            _field: PhantomData,
        };
        assert(r@.unread =~= Seq::<u8>::empty());
        assert(r@.chain =~= chain_start());
        r
    }

    /// The same transcript, to be read from its start.
    pub fn to_arthur(self) -> (r: Self)
        ensures
            r.written() == self.written(),
            r@ == (ChainState { unread: self.written(), chain: chain_start() }),
    {
        let r = EVMFs {
            transcript: self.transcript,
            position: 0,
            chain: KeccakDigest([0u8; 32]),
            _field: PhantomData,
        };
        assert(r@.unread =~= r.written());
        assert(r@.chain =~= chain_start());
        r
    }

    /// The transcript's bytes.
    pub fn transcript(&self) -> (r: &Vec<u8>)
        ensures
            r@ == self.written(),
    {
        &self.transcript
    }

    /// Hashes a message into the chain.
    fn extend_chain(&mut self, message: &[u8])
        ensures
            final(self)@ == (ChainState {
                unread: old(self)@.unread,
                chain: chained(old(self)@.chain, message@),
            }),
            final(self).written() == old(self).written(),
    {
        proof {
            use_type_invariant(&*self);
        }
        let mut buf: Vec<u8> = Vec::with_capacity(32);
        let mut i: usize = 0;
        while i < 32
            invariant
                i <= 32,
                buf@ == self.chain@.take(i as int),
            decreases 32 - i,
        {
            buf.push(self.chain.0[i]);
            i += 1;
            assert(self.chain@.take(i as int) =~= self.chain@.take(i - 1).push(self.chain@[i - 1]));
        }
        buf.extend_from_slice(message);
        assert(buf@ =~= self.chain@ + message@);
        self.chain = KeccakDigest(keccak256(buf.as_slice()));
    }

    /// Appends a message of the prover.
    pub fn add_bytes(&mut self, message: &[u8])
        ensures
            final(self).written() == old(self).written() + message@,
            final(self)@ == (ChainState {
                unread: old(self)@.unread + message@,
                chain: chained(old(self)@.chain, message@),
            }),
    {
        proof {
            use_type_invariant(&*self);
        }
        self.extend_chain(message);
        proof {
            use_type_invariant(&*self);
        }
        let position: usize = self.position;
        let mut transcript: Vec<u8> = Vec::new();
        self.position = 0;
        std::mem::swap(&mut self.transcript, &mut transcript);
        transcript.extend_from_slice(message);
        self.transcript = transcript;
        self.position = position;
    }

    /// Appends a field element as a message, most significant byte first.
    pub fn add_scalar(&mut self, x: F)
        ensures
            final(self).written() == old(self).written() + be_bytes(x.val(), F::byte_len()),
            final(self)@ == (ChainState {
                unread: old(self)@.unread + be_bytes(x.val(), F::byte_len()),
                chain: chained(old(self)@.chain, be_bytes(x.val(), F::byte_len())),
            }),
    {
        let mut buf: Vec<u8> = Vec::new();
        x.serialize_uncompressed(&mut buf);
        proof {
            lemma_le_bytes_reversed(x.val(), F::byte_len());
            assert(buf@ =~= le_bytes(x.val(), F::byte_len()));
        }
        let message = reversed(&buf);
        self.add_bytes(message.as_slice());
    }

    /// Reads `n` bytes as one message of the prover.
    pub fn next_bytes(&mut self, n: usize) -> (r: Result<Vec<u8>, ProofError>)
        ensures
            final(self).written() == old(self).written(),
            match old(self)@.read(n as nat) {
                Ok((bytes, after)) => r matches Ok(b) && b@ == bytes && final(self)@ == after,
                Err(e) => r matches Err(x) && refused(e, x, final(self)@),
            },
    {
        proof {
            use_type_invariant(&*self);
        }
        let start: usize = self.position;
        let len: usize = self.transcript.len();
        if len - start < n {
            return Err(ProofError::InvalidIO("the transcript is too short".to_string()));
        }
        let mut message: Vec<u8> = Vec::with_capacity(n);
        let mut i: usize = 0;
        while i < n
            invariant
                i <= n,
                start + n <= len,
                len == self.transcript@.len(),
                message@ == self.transcript@.subrange(start as int, start + i),
            decreases n - i,
        {
            message.push(self.transcript[start + i]);
            i += 1;
            assert(self.transcript@.subrange(start as int, start + i) =~= self.transcript@.subrange(
                start as int,
                start + i - 1,
            ).push(self.transcript@[start + i - 1]));
        }
        let ghost unread = self@.unread;
        assert(message@ =~= unread.take(n as int));
        self.position = start + n;
        assert(self@.unread =~= unread.skip(n as int));
        self.extend_chain(message.as_slice());
        Ok(message)
    }

    /// Draws a challenge of 32 bytes.
    pub fn squeeze_bytes(&mut self) -> (r: [u8; 32])
        ensures
            final(self).written() == old(self).written(),
            r@ == drawn(old(self)@.chain),
            final(self)@ == old(self)@.after_draw(),
    {
        proof {
            use_type_invariant(&*self);
        }
        let r = keccak256(&self.chain.0);
        self.chain = KeccakDigest(r);
        r
    }
}

/// The bytes of a message of 32 bytes.
fn to_hash(message: &Vec<u8>) -> (r: [u8; 32])
    requires
        message@.len() == 32,
    ensures
        r@ == message@,
{
    let mut r: [u8; 32] = [0u8; 32];
    let mut i: usize = 0;
    while i < 32
        invariant
            i <= 32,
            message@.len() == 32,
            forall|j: int| 0 <= j < i ==> r@[j] == message@[j],
        decreases 32 - i,
    {
        r[i] = message[i];
        i += 1;
    }
    assert(r@ =~= message@);
    r
}

impl<F: PrimeField> Transcript<F> for EVMFs<F> {
    type State = ChainState;

    open spec fn state(&self) -> ChainState {
        self@
    }

    open spec fn kept(&self) -> Seq<u8> {
        self.written()
    }

    open spec fn reads_bytes(s: ChainState) -> Outcome<Seq<u8>, ChainState> {
        s.read(32)
    }

    open spec fn reads_scalar(s: ChainState) -> Outcome<nat, ChainState> {
        s.read_scalar(F::modulus(), F::byte_len())
    }

    open spec fn draws_bytes(s: ChainState) -> Outcome<Seq<u8>, ChainState> {
        Ok((drawn(s.chain), s.after_draw()))
    }

    open spec fn draws_scalar(s: ChainState) -> Outcome<nat, ChainState> {
        Ok((be_value(drawn(s.chain)) % F::modulus(), s.after_draw()))
    }

    fn next_hash(&mut self) -> (r: Result<[u8; 32], ProofError>) {
        match self.next_bytes(32) {
            Ok(message) => Ok(to_hash(&message)),
            Err(e) => Err(e),
        }
    }

    fn next_scalar(&mut self) -> (r: Result<F, ProofError>) {
        match self.next_bytes(F::encoded_len()) {
            Ok(message) => {
                proof {
                    lemma_value_reversed(message@);
                }
                let digits = reversed(&message);
                match F::deserialize_uncompressed(digits.as_slice()) {
                    Some(x) => Ok(x),
                    None => Err(ProofError::SerializationError),
                }
            },
            Err(e) => Err(e),
        }
    }

    fn challenge_hash(&mut self) -> (r: Result<[u8; 32], ProofError>) {
        Ok(self.squeeze_bytes())
    }

    fn challenge_scalar(&mut self) -> (r: Result<F, ProofError>) {
        let digits = self.squeeze_bytes();
        Ok(F::from_be_bytes_mod_order(&digits))
    }
}

/// No proofs of work stand in this transcript.
impl<F: PrimeField, S: PowStrategy> Grinding<F, S> for EVMFs<F> {
    open spec fn passes_work(s: ChainState, difficulty: Difficulty) -> Outcome<(), ChainState> {
        Ok(((), s))
    }

    proof fn lemma_no_work(s: ChainState, difficulty: Difficulty) {
    }

    fn challenge_pow(&mut self, difficulty: Difficulty) -> (r: Result<(), ProofError>) {
        Ok(())
    }
}

/// A proof of work over Keccak: the first 8 bytes of the hash of challenge and nonce, most
/// significant first, have to make a number below the bound.
pub struct KeccakEVMPoW;

impl PowStrategy for KeccakEVMPoW {
    open spec fn accepts(challenge: Seq<u8>, bound: u64, nonce: u64) -> bool {
        be_value(keccak256_digest(challenge + be_bytes(nonce as nat, 8)).take(8)) < bound
    }

    fn check(challenge: &[u8; 32], bound: u64, nonce: u64) -> (r: bool) {
        let mut buf: Vec<u8> = Vec::with_capacity(40);
        buf.extend_from_slice(challenge);
        let digits = u64_be(nonce);
        buf.extend_from_slice(digits.as_slice());
        assert(buf@ =~= challenge@ + be_bytes(nonce as nat, 8));
        let d = keccak256(buf.as_slice());
        let first: [u8; 8] = [d[0], d[1], d[2], d[3], d[4], d[5], d[6], d[7]];
        assert(first@ =~= d@.take(8));
        be_u64(&first) < bound
    }
}

} // verus!
