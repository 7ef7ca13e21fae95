use nimue::plugins::ark::{FieldChallenges, FieldWriter};
use nimue::{ByteChallenges, ByteIOPattern, ByteWriter, DefaultHash, IOPattern};
use rand::{Rng, SeedableRng};
use sha3::{Digest, Keccak256};
use whir::arthur::Arthur;
use whir::bn254::FieldBn256;
use whir::bytes::{be_u64, u64_be};
use whir::evm_fs::{EVMFs, KeccakEVMPoW};
use whir::field::PrimeField;
use whir::queries::{dedup, sample_positions};
use whir::transcript::{
    challenge_scalars, next_scalars, Difficulty, Grinding, PowStrategy, ProofError, Transcript,
};
use whir::whir::{whir_proof_size, WhirProof};

type F = FieldBn256;

fn f(x: u64) -> F {
    F::from_u64(x)
}

#[test]
fn the_verifier_hears_what_the_prover_said() {
    let mut prover = EVMFs::<F>::new();
    prover.add_bytes(&[7u8; 32]);
    let first = prover.squeeze_bytes();
    prover.add_scalar(f(42));
    prover.add_scalar(f(43));
    let second: F = prover.challenge_scalar().unwrap();
    let third = prover.squeeze_bytes();

    let mut verifier = prover.clone().to_arthur();
    assert_eq!(verifier.transcript().len(), 96);
    assert_eq!(verifier.next_hash(), Ok([7u8; 32]));
    assert_eq!(verifier.challenge_hash(), Ok(first));
    assert_eq!(next_scalars::<F, EVMFs<F>>(&mut verifier, 2), Ok(vec![f(42), f(43)]));
    assert_eq!(challenge_scalars::<F, EVMFs<F>>(&mut verifier, 1), Ok(vec![second]));
    assert_eq!(verifier.squeeze_bytes(), third);
    let text = "the transcript is too short".to_string();
    assert_eq!(verifier.next_bytes(1), Err(ProofError::InvalidIO(text)));
    assert_eq!(verifier.next_bytes(0), Ok(vec![]));
}

#[test]
fn the_chain_hashes_messages_and_challenges() {
    let mut prover = EVMFs::<F>::new();
    // The first challenge is the hash of 32 zero bytes.
    let first: [u8; 32] = Keccak256::digest([0u8; 32]).into();
    assert_eq!(first[..4], [0x29, 0x0d, 0xec, 0xd9]);
    assert_eq!(prover.squeeze_bytes(), first);
    // A message is hashed behind the chain.
    prover.add_bytes(&[7u8; 32]);
    let chain: [u8; 32] = Keccak256::digest([first, [7u8; 32]].concat()).into();
    // Scalars are hashed most significant byte first.
    prover.add_scalar(f(1));
    let mut one = [0u8; 32];
    one[31] = 1;
    let chain: [u8; 32] = Keccak256::digest([chain, one].concat()).into();
    let second: [u8; 32] = Keccak256::digest(chain).into();
    assert_eq!(prover.squeeze_bytes(), second);
    // A challenge is the new chain.
    let third: [u8; 32] = Keccak256::digest(second).into();
    assert_eq!(prover.squeeze_bytes(), third);
}

#[test]
fn scalars_that_are_not_reduced() {
    let mut prover = EVMFs::<F>::new();
    prover.add_bytes(&[255u8; 32]);
    let mut verifier = prover.to_arthur();
    assert_eq!(verifier.next_scalar(), Err(ProofError::SerializationError));
}

#[test]
fn evm_transcripts_hold_no_work() {
    let mut transcript = EVMFs::<F>::new();
    let hard = Difficulty { bound: Some(0) };
    assert_eq!(Grinding::<F, KeccakEVMPoW>::challenge_pow(&mut transcript, hard), Ok(()));
    assert_eq!(transcript.squeeze_bytes(), EVMFs::<F>::new().squeeze_bytes());
}

#[test]
fn keccak_work() {
    let challenge = [3u8; 32];
    assert!(!KeccakEVMPoW::check(&challenge, 0, 1));
    let bound = 1u64 << 60;
    let nonce = (0..1000).find(|n| KeccakEVMPoW::check(&challenge, bound, *n)).unwrap();
    assert!(KeccakEVMPoW::check(&challenge, u64::MAX, nonce));
    assert!((0..1000).any(|n| !KeccakEVMPoW::check(&challenge, bound, n)));
}

fn arthur_pattern() -> IOPattern {
    IOPattern::<DefaultHash>::new("test")
        .add_bytes(32, "hash")
        .challenge_bytes(47, "scalar")
        .add_bytes(32, "scalar")
        .challenge_bytes(32, "hash")
}

fn invalid_io(text: &str) -> ProofError {
    ProofError::InvalidIO(text.to_string())
}

#[test]
fn arthur_follows_its_pattern() {
    let io = arthur_pattern();
    let mut merlin = io.to_merlin();
    merlin.add_bytes(&[5u8; 32]).unwrap();
    let [drawn]: [ark_bn254::Fr; 1] = merlin.challenge_scalars().unwrap();
    merlin.add_scalars(&[ark_bn254::Fr::from(99u64)]).unwrap();
    let hash: [u8; 32] = merlin.challenge_bytes().unwrap();

    let mut arthur = Arthur {
        inner: io.to_arthur(merlin.transcript()),
    };
    let t: &mut Arthur = &mut arthur;
    assert_eq!(Transcript::<F>::next_hash(t), Ok([5u8; 32]));
    let challenge: F = Transcript::<F>::challenge_scalar(t).unwrap();
    assert_eq!(challenge.to_limbs(), ark_ff::PrimeField::into_bigint(drawn).0);
    assert_eq!(Transcript::<F>::next_scalar(t), Ok(f(99)));
    assert_eq!(Transcript::<F>::challenge_hash(t), Ok(hash));
    // Nothing more is in the pattern.
    assert_eq!(
        Transcript::<F>::challenge_hash(t),
        Err(invalid_io("\"Invalid tag. Stack empty, got Squeeze(32)\""))
    );
    assert_eq!(
        Transcript::<F>::next_hash(t),
        Err(invalid_io("\"failed to fill whole buffer\""))
    );
}

#[test]
fn arthur_refuses_other_orders() {
    let io = arthur_pattern();
    let bytes = [0u8; 64];
    let mut arthur = Arthur {
        inner: io.to_arthur(&bytes),
    };
    // What nimue says of it: the draw, what the pattern asks for, and that the pattern was dropped.
    assert_eq!(
        Transcript::<F>::challenge_hash(&mut arthur),
        Err(invalid_io(
            "\"Invalid tag. Got Squeeze(32), expected Absorb(32). The stack remaining is: []\""
        ))
    );
    // The pattern is empty now, and the transcript is where it was.
    assert_eq!(
        Transcript::<F>::next_hash(&mut arthur),
        Err(invalid_io("\"Invalid tag. Stack empty, got Absorb(32)\""))
    );
    let mut arthur = Arthur {
        inner: io.to_arthur(&bytes[..31]),
    };
    assert_eq!(
        Transcript::<F>::next_hash(&mut arthur),
        Err(invalid_io("\"failed to fill whole buffer\""))
    );
    let mut arthur = Arthur {
        inner: io.to_arthur(&bytes),
    };
    assert_eq!(Transcript::<F>::next_hash(&mut arthur), Ok([0u8; 32]));
    assert_eq!(
        Transcript::<F>::next_scalar(&mut arthur),
        Err(invalid_io("\"Invalid tag. Got Absorb(32), expected Squeeze(47)\""))
    );
}

#[test]
fn arthur_checks_nonces() {
    let io = IOPattern::<DefaultHash>::new("pow")
        .challenge_bytes(32, "challenge")
        .add_bytes(8, "nonce");
    let bound = 1u64 << 60;
    let work = Difficulty { bound: Some(bound) };
    let mut merlin = io.to_merlin();
    let challenge: [u8; 32] = merlin.challenge_bytes().unwrap();
    let good = (0u64..).find(|n| KeccakEVMPoW::check(&challenge, bound, *n)).unwrap();
    let bad = (0u64..).find(|n| !KeccakEVMPoW::check(&challenge, bound, *n)).unwrap();
    for (nonce, expected) in [(good, Ok(())), (bad, Err(ProofError::InvalidProof))] {
        let transcript = nonce.to_be_bytes();
        let mut arthur = Arthur {
            inner: io.to_arthur(&transcript),
        };
        assert_eq!(Grinding::<F, KeccakEVMPoW>::challenge_pow(&mut arthur, work), expected);
    }
    let mut arthur = Arthur {
        inner: io.to_arthur(&[]),
    };
    assert_eq!(
        Grinding::<F, KeccakEVMPoW>::challenge_pow(&mut arthur, Difficulty { bound: None }),
        Ok(())
    );
    assert_eq!(
        Grinding::<F, KeccakEVMPoW>::challenge_pow(&mut arthur, work),
        Err(invalid_io("\"failed to fill whole buffer\""))
    );
}

#[test]
fn numbers_and_bytes() {
    assert_eq!(be_u64(&[1, 2, 3, 4, 5, 6, 7, 8]), 0x0102030405060708);
    assert_eq!(u64_be(0x0102030405060708), vec![1, 2, 3, 4, 5, 6, 7, 8]);
    assert_eq!(be_u64(&[255; 8]), u64::MAX);
}

#[test]
fn positions_are_sorted_and_distinct() {
    assert_eq!(dedup(&vec![5, 1, 5, 3, 1]), vec![1, 3, 5]);
    assert!(dedup(&vec![]).is_empty());
    let positions = sample_positions([1u8; 32], 16, 10);
    assert!(positions.windows(2).all(|pair| pair[0] < pair[1]));
    assert!(positions.iter().all(|i| *i < 16));
    assert_eq!(positions, sample_positions([1u8; 32], 16, 10));
    assert_ne!(sample_positions([1u8; 32], 1 << 40, 10), sample_positions([2u8; 32], 1 << 40, 10));
    assert_eq!(sample_positions([9u8; 32], 1, 5), vec![0]);
    assert!(sample_positions([9u8; 32], 0, 0).is_empty());
}

#[test]
fn positions_come_from_the_generator() {
    for bound in [1usize, 7, 64, 1 << 20] {
        let mut generator = rand_chacha::ChaCha20Rng::from_seed([7u8; 32]);
        let drawn: Vec<usize> = (0..20).map(|_| generator.gen_range(0..bound)).collect();
        assert_eq!(sample_positions([7u8; 32], bound, 20), dedup(&drawn));
    }
}

#[test]
fn proof_sizes() {
    let proof = WhirProof(vec![((), vec![vec![f(1), f(2)], vec![f(3)]]), ((), vec![])]);
    // A count; an opening, a count, and two leaves with their counts; an opening and a count.
    let expected = 5 + 8 + (100 + 8 + (8 + 64) + (8 + 32)) + (10 + 8);
    assert_eq!(whir_proof_size(&[0u8; 5], &proof, &vec![100, 10]), expected);
    assert_eq!(whir_proof_size::<(), F>(&[], &WhirProof(vec![]), &vec![]), 8);
}
