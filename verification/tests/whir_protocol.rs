use ark_bn254::Fr;
use ark_crypto_primitives::crh::{CRHScheme, TwoToOneCRHScheme};
use ark_crypto_primitives::merkle_tree::{self, Config, IdentityDigestConverter, MultiPath};
use ark_crypto_primitives::Error;
use ark_ff::{FftField, Field, PrimeField as ArkPrimeField, UniformRand, Zero};
use ark_poly::{EvaluationDomain, GeneralEvaluationDomain};
use nimue::plugins::ark::{FieldChallenges, FieldWriter};
use nimue::{ByteChallenges, ByteIOPattern, ByteWriter, DefaultHash, IOPattern, Merlin};
use rand::distributions::{Distribution, Uniform};
use rand::{thread_rng, Rng};
use std::borrow::Borrow;
use std::marker::PhantomData;
use whir::arthur::Arthur;
use whir::bn254::FieldBn256;
use whir::evm_fs::{EVMFs, KeccakEVMPoW};
use whir::evm_merkle::{generate_multiproof, verify_multiproof, EVMMultiProof, MerkleOpening, MerkleTree};
use whir::field::PrimeField;
use whir::hasher::{KeccakDigest, MaskedMerkleTreeEvmParams, MerkleConfig, MerkleTreeEvmParams};
use whir::parameters::{Domain, FoldType, MultivariateParameters, RoundConfig, WhirConfig};
use whir::poly::{CoefficientList, MultilinearPoint};
use whir::queries::{dedup, sample_positions};
use whir::transcript::{Difficulty, PowStrategy, ProofError, Transcript};
use whir::whir::{EVMWhirProof, Statement, WhirProof};
use whir::whir_verifier::Verifier;

type F = FieldBn256;

fn to_field(x: Fr) -> F {
    F::from_limbs(x.into_bigint().0).unwrap()
}

fn to_fr(x: F) -> Fr {
    Fr::from_bigint(ark_ff::BigInt(x.to_limbs())).unwrap()
}

#[derive(Clone, Copy, Debug, PartialEq, Eq)]
enum SoundnessType {
    ConjectureList,
    ProvableList,
    UniqueDecoding,
}

fn difficulty(bits: f64) -> Difficulty {
    Difficulty {
        bound: if bits > 0. {
            Some((64.0 - bits).exp2().ceil() as u64)
        } else {
            None
        },
    }
}

/// How many queries reach the security level, and how much work makes up for what they miss.
fn queries(soundness: SoundnessType, security_level: usize, pow_bits: usize, log_inv_rate: usize) -> (usize, f64) {
    let per_query = match soundness {
        SoundnessType::ConjectureList => log_inv_rate as f64,
        SoundnessType::ProvableList => log_inv_rate as f64 / 2.0,
        SoundnessType::UniqueDecoding => -(0.5 * (1.0 + 0.5f64.powi(log_inv_rate as i32))).log2(),
    };
    let n = ((security_level - pow_bits) as f64 / per_query).ceil() as usize;
    (n, (security_level as f64 - n as f64 * per_query).max(0.0))
}

fn config<C, S>(
    num_variables: usize,
    folding_factor: usize,
    security_level: usize,
    starting_log_inv_rate: usize,
    soundness: SoundnessType,
    pow_bits: usize,
    fold_type: FoldType,
) -> WhirConfig<F, C, S> {
    let n_rounds = num_variables / folding_factor - 1;
    let size = 1usize << (num_variables + starting_log_inv_rate);
    let group_gen = Fr::get_root_of_unity(size as u64).unwrap();
    let ood = if soundness == SoundnessType::UniqueDecoding { 0 } else { 2 };
    let mut log_inv_rate = starting_log_inv_rate;
    let mut round_parameters = vec![];
    for _ in 0..n_rounds {
        let (num_queries, work) = queries(soundness, security_level, pow_bits, log_inv_rate);
        round_parameters.push(RoundConfig {
            pow_bits: difficulty(work),
            folding_pow_bits: difficulty(pow_bits as f64 / 4.0),
            num_queries,
            ood_samples: ood,
        });
        log_inv_rate += folding_factor - 1;
    }
    let (final_queries, work) = queries(soundness, security_level, pow_bits, log_inv_rate);
    WhirConfig {
        mv_parameters: MultivariateParameters { num_variables },
        committment_ood_samples: ood,
        starting_domain: Domain {
            size,
            group_gen: to_field(group_gen),
            group_gen_inv: to_field(group_gen.inverse().unwrap()),
        },
        starting_folding_pow_bits: difficulty(pow_bits as f64 / 4.0),
        folding_factor,
        round_parameters,
        fold_optimisation: fold_type,
        final_queries,
        final_pow_bits: difficulty(work),
        final_sumcheck_rounds: num_variables - folding_factor * (n_rounds + 1),
        final_folding_pow_bits: difficulty(pow_bits as f64 / 4.0),
        strategies: PhantomData,
    }
}

/// The prover's side of a transcript.
trait Channel {
    fn add_hash(&mut self, hash: [u8; 32]);
    fn add_scalar(&mut self, x: Fr);
    fn hash(&mut self) -> [u8; 32];
    fn scalar(&mut self) -> Fr;
    fn work(&mut self, difficulty: Difficulty);
}

struct EvmChannel(EVMFs<F>);

impl Channel for EvmChannel {
    fn add_hash(&mut self, hash: [u8; 32]) {
        self.0.add_bytes(&hash);
    }
    fn add_scalar(&mut self, x: Fr) {
        self.0.add_scalar(to_field(x));
    }
    fn hash(&mut self) -> [u8; 32] {
        self.0.squeeze_bytes()
    }
    fn scalar(&mut self) -> Fr {
        to_fr(self.0.challenge_scalar().unwrap())
    }
    fn work(&mut self, _difficulty: Difficulty) {}
}

struct MerlinChannel<S>(Merlin, PhantomData<S>);

impl<S: PowStrategy> Channel for MerlinChannel<S> {
    fn add_hash(&mut self, hash: [u8; 32]) {
        self.0.add_bytes(&hash).unwrap();
    }
    fn add_scalar(&mut self, x: Fr) {
        self.0.add_scalars(&[x]).unwrap();
    }
    fn hash(&mut self) -> [u8; 32] {
        self.0.challenge_bytes().unwrap()
    }
    fn scalar(&mut self) -> Fr {
        let [x]: [Fr; 1] = self.0.challenge_scalars().unwrap();
        x
    }
    fn work(&mut self, difficulty: Difficulty) {
        if let Some(bound) = difficulty.bound {
            let challenge: [u8; 32] = self.0.challenge_bytes().unwrap();
            let nonce = (0u64..).find(|n| S::check(&challenge, bound, *n)).unwrap();
            self.0.add_bytes(&nonce.to_be_bytes()).unwrap();
        }
    }
}

/// A tree over the leaves of a committed word.
trait Committed {
    type Opening;
    fn commit(word: Word) -> Self;
    fn root(&self) -> [u8; 32];
    fn open(&self, indexes: &[usize]) -> Self::Opening;
    fn leaf(&self, index: usize) -> Vec<F>;
}

struct EvmTree<C> {
    tree: MerkleTree,
    word: Word,
    config: PhantomData<C>,
}

const ROUND_CONSTANTS: [u64; 24] = [
    0x0000000000000001, 0x0000000000008082, 0x800000000000808a, 0x8000000080008000,
    0x000000000000808b, 0x0000000080000001, 0x8000000080008081, 0x8000000000008009,
    0x000000000000008a, 0x0000000000000088, 0x0000000080008009, 0x000000008000000a,
    0x000000008000808b, 0x800000000000008b, 0x8000000000008089, 0x8000000000008003,
    0x8000000000008002, 0x8000000000000080, 0x000000000000800a, 0x800000008000000a,
    0x8000000080008081, 0x8000000000008080, 0x0000000080000001, 0x8000000080008008,
];

/// The permutation of Keccak, for the trees of large polynomials.
fn permute(a: &mut [u64; 25]) {
    for constant in ROUND_CONSTANTS {
        let c0 = a[0] ^ a[5] ^ a[10] ^ a[15] ^ a[20];
        let c1 = a[1] ^ a[6] ^ a[11] ^ a[16] ^ a[21];
        let c2 = a[2] ^ a[7] ^ a[12] ^ a[17] ^ a[22];
        let c3 = a[3] ^ a[8] ^ a[13] ^ a[18] ^ a[23];
        let c4 = a[4] ^ a[9] ^ a[14] ^ a[19] ^ a[24];
        let d0 = c4 ^ c1.rotate_left(1);
        let d1 = c0 ^ c2.rotate_left(1);
        let d2 = c1 ^ c3.rotate_left(1);
        let d3 = c2 ^ c4.rotate_left(1);
        let d4 = c3 ^ c0.rotate_left(1);
        let b = [
            a[0] ^ d0,
            (a[6] ^ d1).rotate_left(44),
            (a[12] ^ d2).rotate_left(43),
            (a[18] ^ d3).rotate_left(21),
            (a[24] ^ d4).rotate_left(14),
            (a[3] ^ d3).rotate_left(28),
            (a[9] ^ d4).rotate_left(20),
            (a[10] ^ d0).rotate_left(3),
            (a[16] ^ d1).rotate_left(45),
            (a[22] ^ d2).rotate_left(61),
            (a[1] ^ d1).rotate_left(1),
            (a[7] ^ d2).rotate_left(6),
            (a[13] ^ d3).rotate_left(25),
            (a[19] ^ d4).rotate_left(8),
            (a[20] ^ d0).rotate_left(18),
            (a[4] ^ d4).rotate_left(27),
            (a[5] ^ d0).rotate_left(36),
            (a[11] ^ d1).rotate_left(10),
            (a[17] ^ d2).rotate_left(15),
            (a[23] ^ d3).rotate_left(56),
            (a[2] ^ d2).rotate_left(62),
            (a[8] ^ d3).rotate_left(55),
            (a[14] ^ d4).rotate_left(39),
            (a[15] ^ d0).rotate_left(41),
            (a[21] ^ d1).rotate_left(2),
        ];
        for y in [0, 5, 10, 15, 20] {
            a[y] = b[y] ^ (!b[y + 1] & b[y + 2]);
            a[y + 1] = b[y + 1] ^ (!b[y + 2] & b[y + 3]);
            a[y + 2] = b[y + 2] ^ (!b[y + 3] & b[y + 4]);
            a[y + 3] = b[y + 3] ^ (!b[y + 4] & b[y]);
            a[y + 4] = b[y + 4] ^ (!b[y] & b[y + 1]);
        }
        a[0] ^= constant;
    }
}

fn absorb(state: &mut [u64; 25], block: &[u8]) {
    for (lane, bytes) in state.iter_mut().zip(block.chunks_exact(8)) {
        *lane ^= u64::from_le_bytes(bytes.try_into().unwrap());
    }
    permute(state);
}

fn keccak(data: &[u8]) -> [u8; 32] {
    let mut state = [0u64; 25];
    let blocks = data.chunks_exact(136);
    let rest = blocks.remainder();
    for block in blocks {
        absorb(&mut state, block);
    }
    let mut last = [0u8; 136];
    last[..rest.len()].copy_from_slice(rest);
    last[rest.len()] = 1;
    last[135] |= 0x80;
    absorb(&mut state, &last);
    let mut digest = [0u8; 32];
    for (bytes, lane) in digest.chunks_exact_mut(8).zip(state) {
        bytes.copy_from_slice(&lane.to_le_bytes());
    }
    digest
}

/// How many bytes of a hash are kept.
trait HashLen {
    const KEPT: usize;
}

impl HashLen for MerkleTreeEvmParams<F> {
    const KEPT: usize = 32;
}

impl HashLen for MaskedMerkleTreeEvmParams<F> {
    const KEPT: usize = 20;
}

fn cut(mut digest: [u8; 32], kept: usize) -> KeccakDigest {
    digest[kept..].fill(0);
    KeccakDigest(digest)
}

fn evm_tree<C: MerkleConfig<F> + HashLen>(word: &Word) -> MerkleTree {
    let n = word.n;
    let mut nodes = vec![KeccakDigest([0u8; 32]); n];
    let len = 32 * (word.elements.len() / n);
    let block = n.min(64);
    let mut bytes = vec![0u8; block * len];
    for start in (0..n).step_by(block) {
        for (j, column) in word.elements.chunks_exact(n).enumerate() {
            for (i, x) in column[start..start + block].iter().enumerate() {
                let at = i * len + 32 * j;
                for (l, limb) in x.into_bigint().0.into_iter().rev().enumerate() {
                    bytes[at + 8 * l..at + 8 * l + 8].copy_from_slice(&limb.to_be_bytes());
                }
            }
        }
        nodes.extend(bytes.chunks_exact(len).map(|leaf| cut(keccak(leaf), C::KEPT)));
    }
    assert_eq!(nodes[n], C::hash_leaf(&word.leaf(0)));
    for i in (1..n).rev() {
        let mut bytes = [0u8; 64];
        bytes[..32].copy_from_slice(&nodes[2 * i].0);
        bytes[32..].copy_from_slice(&nodes[2 * i + 1].0);
        nodes[i] = cut(keccak(&bytes), C::KEPT);
    }
    assert_eq!(nodes[1], C::hash_node(&nodes[2], &nodes[3]));
    MerkleTree {
        leaf_nodes: nodes[n..].to_vec(),
        non_leaf_nodes: nodes[1..n].to_vec(),
    }
}

impl<C: MerkleConfig<F> + HashLen> Committed for EvmTree<C> {
    type Opening = EVMMultiProof;
    fn commit(word: Word) -> Self {
        EvmTree {
            tree: evm_tree::<C>(&word),
            word,
            config: PhantomData,
        }
    }
    fn root(&self) -> [u8; 32] {
        self.tree.root().0
    }
    fn open(&self, indexes: &[usize]) -> EVMMultiProof {
        let values = indexes.iter().map(|i| self.leaf(*i)).collect();
        generate_multiproof::<F>(&self.tree, indexes.to_vec(), values)
    }
    fn leaf(&self, index: usize) -> Vec<F> {
        self.word.leaf(index)
    }
}

/// Trees that `ark_crypto_primitives` hashes with Blake3.
#[derive(Clone)]
struct Blake3Params;

struct Blake3LeafHash;

impl CRHScheme for Blake3LeafHash {
    type Input = [F];
    type Output = Vec<u8>;
    type Parameters = ();
    fn setup<R: Rng>(_: &mut R) -> Result<(), Error> {
        Ok(())
    }
    fn evaluate<T: Borrow<[F]>>(_: &(), input: T) -> Result<Vec<u8>, Error> {
        let mut buf = vec![];
        for x in input.borrow() {
            x.serialize_uncompressed(&mut buf);
        }
        Ok(blake3::hash(&buf).as_bytes().to_vec())
    }
}

struct Blake3TwoToOne;

impl TwoToOneCRHScheme for Blake3TwoToOne {
    type Input = Vec<u8>;
    type Output = Vec<u8>;
    type Parameters = ();
    fn setup<R: Rng>(_: &mut R) -> Result<(), Error> {
        Ok(())
    }
    fn evaluate<T: Borrow<Vec<u8>>>(_: &(), left: T, right: T) -> Result<Vec<u8>, Error> {
        let buf = [left.borrow().as_slice(), right.borrow().as_slice()].concat();
        Ok(blake3::hash(&buf).as_bytes().to_vec())
    }
    fn compress<T: Borrow<Vec<u8>>>(parameters: &(), left: T, right: T) -> Result<Vec<u8>, Error> {
        Self::evaluate(parameters, left.borrow(), right.borrow())
    }
}

impl Config for Blake3Params {
    type Leaf = [F];
    type LeafDigest = Vec<u8>;
    type LeafInnerDigestConverter = IdentityDigestConverter<Vec<u8>>;
    type InnerDigest = Vec<u8>;
    type LeafHash = Blake3LeafHash;
    type TwoToOneHash = Blake3TwoToOne;
}

struct Paths(MultiPath<Blake3Params>);

impl MerkleOpening<Blake3Params, F> for Paths {
    fn leaf_indexes(&self) -> Option<Vec<usize>> {
        Some(self.0.leaf_indexes.clone())
    }

    fn verify(&self, root: &KeccakDigest, _indexes: &Vec<usize>, leaves: &Vec<Vec<F>>) -> bool {
        leaves.len() >= self.0.leaf_indexes.len()
            && self
                .0
                .verify(&(), &(), &root.0.to_vec(), leaves.iter().map(|leaf| leaf.as_slice()))
                .unwrap()
    }
}

struct Blake3Tree {
    tree: merkle_tree::MerkleTree<Blake3Params>,
    leaves: Vec<Vec<F>>,
}

impl Committed for Blake3Tree {
    type Opening = Paths;
    fn commit(word: Word) -> Self {
        let leaves = word.leaves();
        Blake3Tree {
            tree: merkle_tree::MerkleTree::new(&(), &(), leaves.iter()).unwrap(),
            leaves,
        }
    }
    fn root(&self) -> [u8; 32] {
        self.tree.root().try_into().unwrap()
    }
    fn open(&self, indexes: &[usize]) -> Paths {
        Paths(self.tree.generate_multi_proof(indexes.iter().copied()).unwrap())
    }
    fn leaf(&self, index: usize) -> Vec<F> {
        self.leaves[index].clone()
    }
}

struct Blake3PoW;

impl PowStrategy for Blake3PoW {
    fn check(challenge: &[u8; 32], bound: u64, nonce: u64) -> bool {
        let mut block = [0u8; 64];
        block[..32].copy_from_slice(challenge);
        block[32..40].copy_from_slice(&nonce.to_le_bytes());
        let hash = blake3::hash(&block);
        u64::from_le_bytes(hash.as_bytes()[..8].try_into().unwrap()) < bound
    }
}

/// A committed word: leaf `i` holds every `n`th element from `i` on.
struct Word {
    elements: Vec<Fr>,
    n: usize,
}

impl Word {
    fn leaf(&self, index: usize) -> Vec<F> {
        self.elements.iter().skip(index).step_by(self.n).map(|x| to_field(*x)).collect()
    }

    fn leaves(&self) -> Vec<Vec<F>> {
        (0..self.n).map(|i| self.leaf(i)).collect()
    }
}

/// The values of a polynomial on the domain of this size, coset by coset of a domain that is as
/// large as the polynomial.
fn values_of(coeffs: &[Fr], size: usize) -> Vec<Fr> {
    let part = coeffs.len();
    let parts = size / part;
    let domain = GeneralEvaluationDomain::<Fr>::new(part).unwrap();
    let gen = Fr::get_root_of_unity(size as u64).unwrap();
    let mut offset = Fr::from(1);
    let mut cosets = Vec::with_capacity(parts);
    for _ in 0..parts {
        let mut power = Fr::from(1);
        let mut shifted = Vec::with_capacity(part);
        for c in coeffs {
            shifted.push(*c * power);
            power *= offset;
        }
        domain.fft_in_place(&mut shifted);
        cosets.push(shifted);
        offset *= gen;
    }
    let mut values = vec![Fr::zero(); size];
    for (block, out) in values.chunks_mut(8 * parts).enumerate() {
        for (i, coset) in cosets.iter().enumerate() {
            for (j, value) in coset.iter().skip(8 * block).take(8).enumerate() {
                out[i + j * parts] = *value;
            }
        }
    }
    values
}

/// The word of a polynomial: for each coset of `2^k` points either its values there or the
/// coefficients that give them.
fn leaves_of(coeffs: &[Fr], domain_size: usize, k: usize, fold_type: FoldType) -> Word {
    let coset = 1usize << k;
    let n = domain_size / coset;
    let elements = match fold_type {
        FoldType::Naive => values_of(coeffs, domain_size),
        FoldType::ProverHelps => {
            let column = |j: usize| coeffs.iter().copied().skip(j).step_by(coset).collect::<Vec<_>>();
            (0..coset).flat_map(|j| values_of(&column(j), n)).collect()
        }
    };
    Word { elements, n }
}

fn hypercube_values(coeffs: &[Fr]) -> Vec<Fr> {
    let mut v = coeffs.to_vec();
    let mut step = 1;
    while step < v.len() {
        for i in 0..v.len() {
            if i & step != 0 {
                let low = v[i ^ step];
                v[i] += low;
            }
        }
        step *= 2;
    }
    v
}

/// Adds `scale` times the equality polynomial of `point`.
fn add_equality(weights: &mut [Fr], point: &[Fr], scale: Fr) {
    let mut eq = vec![scale];
    for x in point {
        eq = eq.iter().flat_map(|e| [*e * (Fr::from(1) - x), *e * x]).collect();
    }
    for (w, e) in weights.iter_mut().zip(eq) {
        *w += e;
    }
}

fn power_point(x: Fr, n: usize) -> Vec<Fr> {
    (0..n).rev().map(|i| x.pow([1u64 << i])).collect()
}

fn univariate(coeffs: &[Fr], x: Fr) -> Fr {
    coeffs.iter().rev().fold(Fr::zero(), |acc, c| acc * x + c)
}

/// A polynomial and the weights under which its values on the hypercube are summed.
struct Claim {
    values: Vec<Fr>,
    weights: Vec<Fr>,
}

impl Claim {
    fn sumcheck(&mut self, rounds: usize, work: Difficulty, channel: &mut impl Channel) -> Vec<Fr> {
        let mut challenges = vec![];
        for _ in 0..rounds {
            for at in 0..3u64 {
                let at = Fr::from(at);
                let mut sum = Fr::zero();
                for i in 0..self.values.len() / 2 {
                    let v = self.values[2 * i] + at * (self.values[2 * i + 1] - self.values[2 * i]);
                    let w = self.weights[2 * i] + at * (self.weights[2 * i + 1] - self.weights[2 * i]);
                    sum += v * w;
                }
                channel.add_scalar(sum);
            }
            let r = channel.scalar();
            channel.work(work);
            for table in [&mut self.values, &mut self.weights] {
                *table = (0..table.len() / 2)
                    .map(|i| table[2 * i] + r * (table[2 * i + 1] - table[2 * i]))
                    .collect();
            }
            challenges.push(r);
        }
        challenges
    }
}

fn fold_coefficients(coeffs: &[Fr], challenges: &[Fr]) -> Vec<Fr> {
    let mut c = coeffs.to_vec();
    for r in challenges {
        c = c.chunks(2).map(|pair| pair[0] + *r * pair[1]).collect();
    }
    c
}

fn prove<T: Committed, C, S>(
    cfg: &WhirConfig<F, C, S>,
    polynomial: &[Fr],
    points: &[Vec<Fr>],
    channel: &mut impl Channel,
) -> Vec<(T::Opening, Vec<Vec<F>>)> {
    let k = cfg.folding_factor;
    let mut num_variables = cfg.mv_parameters.num_variables;
    let mut domain_size = cfg.starting_domain.size;
    let mut coeffs = polynomial.to_vec();
    let mut tree = T::commit(leaves_of(&coeffs, domain_size, k, cfg.fold_optimisation));
    channel.add_hash(tree.root());
    let ood: Vec<Fr> = (0..cfg.committment_ood_samples).map(|_| channel.scalar()).collect();
    for x in &ood {
        channel.add_scalar(univariate(&coeffs, *x));
    }
    let gen = channel.scalar();
    let mut claim = Claim {
        values: hypercube_values(&coeffs),
        weights: vec![Fr::zero(); 1 << num_variables],
    };
    let mut scale = Fr::from(1);
    for point in ood.iter().map(|x| power_point(*x, num_variables)).chain(points.iter().cloned()) {
        add_equality(&mut claim.weights, &point, scale);
        scale *= gen;
    }
    let mut challenges = claim.sumcheck(k, cfg.starting_folding_pow_bits, channel);
    let mut openings = vec![];
    for round in &cfg.round_parameters {
        coeffs = fold_coefficients(&coeffs, &challenges);
        num_variables -= k;
        let next = T::commit(leaves_of(&coeffs, domain_size / 2, k, cfg.fold_optimisation));
        channel.add_hash(next.root());
        let ood: Vec<Fr> = (0..round.ood_samples).map(|_| channel.scalar()).collect();
        for x in &ood {
            channel.add_scalar(univariate(&coeffs, *x));
        }
        let folded = domain_size >> k;
        let indexes = sample_positions(channel.hash(), folded, round.num_queries);
        openings.push((tree.open(&indexes), indexes.iter().map(|i| tree.leaf(*i)).collect()));
        channel.work(round.pow_bits);
        let gen = channel.scalar();
        let folded_gen = Fr::get_root_of_unity(folded as u64).unwrap();
        let stir = indexes.iter().map(|i| folded_gen.pow([*i as u64]));
        let mut scale = Fr::from(1);
        for x in ood.iter().copied().chain(stir) {
            add_equality(&mut claim.weights, &power_point(x, num_variables), scale);
            scale *= gen;
        }
        challenges = claim.sumcheck(k, round.folding_pow_bits, channel);
        tree = next;
        domain_size /= 2;
    }
    coeffs = fold_coefficients(&coeffs, &challenges);
    for c in &coeffs {
        channel.add_scalar(*c);
    }
    let indexes = sample_positions(channel.hash(), domain_size >> k, cfg.final_queries);
    openings.push((tree.open(&indexes), indexes.iter().map(|i| tree.leaf(*i)).collect()));
    channel.work(cfg.final_pow_bits);
    claim.sumcheck(cfg.final_sumcheck_rounds, cfg.final_folding_pow_bits, channel);
    openings
}

fn statement_of(polynomial: &[Fr], points: &[Vec<Fr>]) -> Statement<F> {
    let list = CoefficientList::new(polynomial.iter().copied().map(to_field).collect());
    let points: Vec<MultilinearPoint<F>> = points
        .iter()
        .map(|point| MultilinearPoint(point.iter().copied().map(to_field).collect()))
        .collect();
    let evaluations = points.iter().map(|point| list.evaluate(point)).collect();
    Statement { points, evaluations }
}

fn random_points(num_points: usize, num_variables: usize, rng: &mut impl Rng) -> Vec<Vec<Fr>> {
    (0..num_points)
        .map(|_| (0..num_variables).map(|_| Fr::rand(rng)).collect())
        .collect()
}

fn evm_make_whir_things<C: MerkleConfig<F> + HashLen>(
    num_variables: usize,
    folding_factor: usize,
    security_level: usize,
    starting_log_inv_rate: usize,
    num_points: usize,
    soundness_type: SoundnessType,
    pow_bits: usize,
    fold_type: FoldType,
    mut rng: impl Rng,
) -> (Verifier<F, C, KeccakEVMPoW>, EVMFs<F>, Statement<F>, EVMWhirProof<F>) {
    let params: WhirConfig<F, C, KeccakEVMPoW> = config(
        num_variables,
        folding_factor,
        security_level,
        starting_log_inv_rate,
        soundness_type,
        pow_bits,
        fold_type,
    );
    let polynomial: Vec<Fr> = (0..1usize << num_variables).map(|_| Fr::rand(&mut rng)).collect();
    let points = random_points(num_points, num_variables, &mut rng);
    let statement = statement_of(&polynomial, &points);
    let mut channel = EvmChannel(EVMFs::new());
    let proof = EVMWhirProof(prove::<EvmTree<C>, C, KeccakEVMPoW>(&params, &polynomial, &points, &mut channel));
    let verifier = Verifier::new(params);
    let mut evmfs_arthur = channel.0.to_arthur();
    let proof_transcript = evmfs_arthur.clone();
    assert!(verifier.evm_verify(&mut evmfs_arthur, &statement, &proof).is_ok());
    (verifier, proof_transcript, statement, proof)
}

#[test]
fn evm_test_whir() {
    let folding_factors = [1, 4];
    let mut rng = thread_rng();

    for folding_factor in folding_factors {
        let num_variables = folding_factor..=5 * folding_factor;
        // Polynomials in 12 to 16 variables have tests of their own; larger ones take too long.
        for num_variables in num_variables.filter(|n| *n <= 11) {
            evm_whir_cases(num_variables, folding_factor, &FOLD_TYPES, &SOUNDNESS_TYPES, &[0, 5, 10], &mut rng);
        }
    }
}

const FOLD_TYPES: [FoldType; 2] = [FoldType::Naive, FoldType::ProverHelps];

const SOUNDNESS_TYPES: [SoundnessType; 3] = [
    SoundnessType::ConjectureList,
    SoundnessType::ProvableList,
    SoundnessType::UniqueDecoding,
];

fn evm_whir_cases(
    num_variables: usize,
    folding_factor: usize,
    fold_types: &[FoldType],
    soundness_types: &[SoundnessType],
    pow_bits: &[usize],
    mut rng: impl Rng,
) {
    let num_points = [1];
    for fold_type in fold_types {
        for num_points in num_points {
            for soundness_type in soundness_types {
                for pow_bits in pow_bits {
                    evm_make_whir_things::<MerkleTreeEvmParams<F>>(
                        num_variables,
                        folding_factor,
                        32,
                        6,
                        num_points,
                        *soundness_type,
                        *pow_bits,
                        *fold_type,
                        &mut rng,
                    );
                }
            }
        }
    }
}

#[test]
fn evm_whir_of_twelve_variables_in_values() {
    evm_whir_cases(12, 4, &[FoldType::Naive], &SOUNDNESS_TYPES, &[0, 5, 10], thread_rng());
}

#[test]
fn evm_whir_of_twelve_variables_in_coefficients() {
    evm_whir_cases(12, 4, &[FoldType::ProverHelps], &SOUNDNESS_TYPES, &[0, 5, 10], thread_rng());
}

#[test]
fn evm_whir_of_thirteen_variables_in_values_conjectured_list() {
    evm_whir_cases(13, 4, &[FoldType::Naive], &[SoundnessType::ConjectureList], &[0, 5, 10], thread_rng());
}

#[test]
fn evm_whir_of_thirteen_variables_in_values_provable_list() {
    evm_whir_cases(13, 4, &[FoldType::Naive], &[SoundnessType::ProvableList], &[0, 5, 10], thread_rng());
}

#[test]
fn evm_whir_of_thirteen_variables_in_values_unique_decoding() {
    evm_whir_cases(13, 4, &[FoldType::Naive], &[SoundnessType::UniqueDecoding], &[0, 5, 10], thread_rng());
}

#[test]
fn evm_whir_of_thirteen_variables_in_coefficients_conjectured_list() {
    evm_whir_cases(13, 4, &[FoldType::ProverHelps], &[SoundnessType::ConjectureList], &[0, 5, 10], thread_rng());
}

#[test]
fn evm_whir_of_thirteen_variables_in_coefficients_provable_list() {
    evm_whir_cases(13, 4, &[FoldType::ProverHelps], &[SoundnessType::ProvableList], &[0, 5, 10], thread_rng());
}

#[test]
fn evm_whir_of_thirteen_variables_in_coefficients_unique_decoding() {
    evm_whir_cases(13, 4, &[FoldType::ProverHelps], &[SoundnessType::UniqueDecoding], &[0, 5, 10], thread_rng());
}

#[test]
fn evm_whir_of_fourteen_variables_in_values_conjectured_list() {
    evm_whir_cases(14, 4, &[FoldType::Naive], &[SoundnessType::ConjectureList], &[0, 5, 10], thread_rng());
}

#[test]
fn evm_whir_of_fourteen_variables_in_values_provable_list() {
    evm_whir_cases(14, 4, &[FoldType::Naive], &[SoundnessType::ProvableList], &[0, 5, 10], thread_rng());
}

#[test]
fn evm_whir_of_fourteen_variables_in_values_unique_decoding() {
    evm_whir_cases(14, 4, &[FoldType::Naive], &[SoundnessType::UniqueDecoding], &[0, 5, 10], thread_rng());
}

#[test]
fn evm_whir_of_fourteen_variables_in_coefficients_conjectured_list() {
    evm_whir_cases(14, 4, &[FoldType::ProverHelps], &[SoundnessType::ConjectureList], &[0, 5, 10], thread_rng());
}

#[test]
fn evm_whir_of_fourteen_variables_in_coefficients_provable_list() {
    evm_whir_cases(14, 4, &[FoldType::ProverHelps], &[SoundnessType::ProvableList], &[0, 5, 10], thread_rng());
}

#[test]
fn evm_whir_of_fourteen_variables_in_coefficients_unique_decoding() {
    evm_whir_cases(14, 4, &[FoldType::ProverHelps], &[SoundnessType::UniqueDecoding], &[0, 5, 10], thread_rng());
}

#[test]
fn evm_whir_of_fifteen_variables_in_values_conjectured_list_without_work() {
    evm_whir_cases(15, 4, &[FoldType::Naive], &[SoundnessType::ConjectureList], &[0], thread_rng());
}

#[test]
fn evm_whir_of_fifteen_variables_in_values_conjectured_list_with_little_work() {
    evm_whir_cases(15, 4, &[FoldType::Naive], &[SoundnessType::ConjectureList], &[5], thread_rng());
}

#[test]
fn evm_whir_of_fifteen_variables_in_values_conjectured_list_with_work() {
    evm_whir_cases(15, 4, &[FoldType::Naive], &[SoundnessType::ConjectureList], &[10], thread_rng());
}

#[test]
fn evm_whir_of_fifteen_variables_in_values_provable_list_without_work() {
    evm_whir_cases(15, 4, &[FoldType::Naive], &[SoundnessType::ProvableList], &[0], thread_rng());
}

#[test]
fn evm_whir_of_fifteen_variables_in_values_provable_list_with_little_work() {
    evm_whir_cases(15, 4, &[FoldType::Naive], &[SoundnessType::ProvableList], &[5], thread_rng());
}

#[test]
fn evm_whir_of_fifteen_variables_in_values_provable_list_with_work() {
    evm_whir_cases(15, 4, &[FoldType::Naive], &[SoundnessType::ProvableList], &[10], thread_rng());
}

#[test]
fn evm_whir_of_fifteen_variables_in_values_unique_decoding_without_work() {
    evm_whir_cases(15, 4, &[FoldType::Naive], &[SoundnessType::UniqueDecoding], &[0], thread_rng());
}

#[test]
fn evm_whir_of_fifteen_variables_in_values_unique_decoding_with_little_work() {
    evm_whir_cases(15, 4, &[FoldType::Naive], &[SoundnessType::UniqueDecoding], &[5], thread_rng());
}

#[test]
fn evm_whir_of_fifteen_variables_in_values_unique_decoding_with_work() {
    evm_whir_cases(15, 4, &[FoldType::Naive], &[SoundnessType::UniqueDecoding], &[10], thread_rng());
}

#[test]
fn evm_whir_of_fifteen_variables_in_coefficients_conjectured_list_without_work() {
    evm_whir_cases(15, 4, &[FoldType::ProverHelps], &[SoundnessType::ConjectureList], &[0], thread_rng());
}

#[test]
fn evm_whir_of_fifteen_variables_in_coefficients_conjectured_list_with_little_work() {
    evm_whir_cases(15, 4, &[FoldType::ProverHelps], &[SoundnessType::ConjectureList], &[5], thread_rng());
}

#[test]
fn evm_whir_of_fifteen_variables_in_coefficients_conjectured_list_with_work() {
    evm_whir_cases(15, 4, &[FoldType::ProverHelps], &[SoundnessType::ConjectureList], &[10], thread_rng());
}

#[test]
fn evm_whir_of_fifteen_variables_in_coefficients_provable_list_without_work() {
    evm_whir_cases(15, 4, &[FoldType::ProverHelps], &[SoundnessType::ProvableList], &[0], thread_rng());
}

#[test]
fn evm_whir_of_fifteen_variables_in_coefficients_provable_list_with_little_work() {
    evm_whir_cases(15, 4, &[FoldType::ProverHelps], &[SoundnessType::ProvableList], &[5], thread_rng());
}

#[test]
fn evm_whir_of_fifteen_variables_in_coefficients_provable_list_with_work() {
    evm_whir_cases(15, 4, &[FoldType::ProverHelps], &[SoundnessType::ProvableList], &[10], thread_rng());
}

#[test]
fn evm_whir_of_fifteen_variables_in_coefficients_unique_decoding_without_work() {
    evm_whir_cases(15, 4, &[FoldType::ProverHelps], &[SoundnessType::UniqueDecoding], &[0], thread_rng());
}

#[test]
fn evm_whir_of_fifteen_variables_in_coefficients_unique_decoding_with_little_work() {
    evm_whir_cases(15, 4, &[FoldType::ProverHelps], &[SoundnessType::UniqueDecoding], &[5], thread_rng());
}

#[test]
fn evm_whir_of_fifteen_variables_in_coefficients_unique_decoding_with_work() {
    evm_whir_cases(15, 4, &[FoldType::ProverHelps], &[SoundnessType::UniqueDecoding], &[10], thread_rng());
}

#[test]
fn evm_whir_of_sixteen_variables_in_values_conjectured_list_without_work() {
    evm_whir_cases(16, 4, &[FoldType::Naive], &[SoundnessType::ConjectureList], &[0], thread_rng());
}

#[test]
fn evm_whir_of_sixteen_variables_in_values_conjectured_list_with_little_work() {
    evm_whir_cases(16, 4, &[FoldType::Naive], &[SoundnessType::ConjectureList], &[5], thread_rng());
}

#[test]
fn evm_whir_of_sixteen_variables_in_values_conjectured_list_with_work() {
    evm_whir_cases(16, 4, &[FoldType::Naive], &[SoundnessType::ConjectureList], &[10], thread_rng());
}

#[test]
fn evm_whir_of_sixteen_variables_in_values_provable_list_without_work() {
    evm_whir_cases(16, 4, &[FoldType::Naive], &[SoundnessType::ProvableList], &[0], thread_rng());
}

#[test]
fn evm_whir_of_sixteen_variables_in_values_provable_list_with_little_work() {
    evm_whir_cases(16, 4, &[FoldType::Naive], &[SoundnessType::ProvableList], &[5], thread_rng());
}

#[test]
fn evm_whir_of_sixteen_variables_in_values_provable_list_with_work() {
    evm_whir_cases(16, 4, &[FoldType::Naive], &[SoundnessType::ProvableList], &[10], thread_rng());
}

#[test]
fn evm_whir_of_sixteen_variables_in_values_unique_decoding_without_work() {
    evm_whir_cases(16, 4, &[FoldType::Naive], &[SoundnessType::UniqueDecoding], &[0], thread_rng());
}

#[test]
fn evm_whir_of_sixteen_variables_in_values_unique_decoding_with_little_work() {
    evm_whir_cases(16, 4, &[FoldType::Naive], &[SoundnessType::UniqueDecoding], &[5], thread_rng());
}

#[test]
fn evm_whir_of_sixteen_variables_in_values_unique_decoding_with_work() {
    evm_whir_cases(16, 4, &[FoldType::Naive], &[SoundnessType::UniqueDecoding], &[10], thread_rng());
}

#[test]
fn evm_whir_of_sixteen_variables_in_coefficients_conjectured_list_without_work() {
    evm_whir_cases(16, 4, &[FoldType::ProverHelps], &[SoundnessType::ConjectureList], &[0], thread_rng());
}

#[test]
fn evm_whir_of_sixteen_variables_in_coefficients_conjectured_list_with_little_work() {
    evm_whir_cases(16, 4, &[FoldType::ProverHelps], &[SoundnessType::ConjectureList], &[5], thread_rng());
}

#[test]
fn evm_whir_of_sixteen_variables_in_coefficients_conjectured_list_with_work() {
    evm_whir_cases(16, 4, &[FoldType::ProverHelps], &[SoundnessType::ConjectureList], &[10], thread_rng());
}

#[test]
fn evm_whir_of_sixteen_variables_in_coefficients_provable_list_without_work() {
    evm_whir_cases(16, 4, &[FoldType::ProverHelps], &[SoundnessType::ProvableList], &[0], thread_rng());
}

#[test]
fn evm_whir_of_sixteen_variables_in_coefficients_provable_list_with_little_work() {
    evm_whir_cases(16, 4, &[FoldType::ProverHelps], &[SoundnessType::ProvableList], &[5], thread_rng());
}

#[test]
fn evm_whir_of_sixteen_variables_in_coefficients_provable_list_with_work() {
    evm_whir_cases(16, 4, &[FoldType::ProverHelps], &[SoundnessType::ProvableList], &[10], thread_rng());
}

#[test]
fn evm_whir_of_sixteen_variables_in_coefficients_unique_decoding_without_work() {
    evm_whir_cases(16, 4, &[FoldType::ProverHelps], &[SoundnessType::UniqueDecoding], &[0], thread_rng());
}

#[test]
fn evm_whir_of_sixteen_variables_in_coefficients_unique_decoding_with_little_work() {
    evm_whir_cases(16, 4, &[FoldType::ProverHelps], &[SoundnessType::UniqueDecoding], &[5], thread_rng());
}

#[test]
fn evm_whir_of_sixteen_variables_in_coefficients_unique_decoding_with_work() {
    evm_whir_cases(16, 4, &[FoldType::ProverHelps], &[SoundnessType::UniqueDecoding], &[10], thread_rng());
}

fn with_work(io: IOPattern, work: Difficulty) -> IOPattern {
    if work.bound.is_some() {
        io.challenge_bytes(32, "pow-queries").add_bytes(8, "pow-nonce")
    } else {
        io
    }
}

fn with_sumcheck(mut io: IOPattern, rounds: usize, work: Difficulty) -> IOPattern {
    for _ in 0..rounds {
        io = io.add_bytes(3 * 32, "sumcheck_poly").challenge_bytes(47, "folding_randomness");
        io = with_work(io, work);
    }
    io
}

fn with_root(mut io: IOPattern, ood_samples: usize) -> IOPattern {
    io = io.add_bytes(32, "merkle_digest");
    if ood_samples > 0 {
        io = io
            .challenge_bytes(47 * ood_samples, "ood_query")
            .add_bytes(32 * ood_samples, "ood_ans");
    }
    io
}

fn pattern<C, S>(cfg: &WhirConfig<F, C, S>) -> IOPattern {
    let mut io = with_root(IOPattern::<DefaultHash>::new("🌪️"), cfg.committment_ood_samples);
    io = io.challenge_bytes(47, "initial_combination_randomness");
    io = with_sumcheck(io, cfg.folding_factor, cfg.starting_folding_pow_bits);
    for round in &cfg.round_parameters {
        io = with_root(io, round.ood_samples).challenge_bytes(32, "stir_queries");
        io = with_work(io, round.pow_bits).challenge_bytes(47, "combination_randomness");
        io = with_sumcheck(io, cfg.folding_factor, round.folding_pow_bits);
    }
    io = io
        .add_bytes(32 << cfg.final_sumcheck_rounds, "final_coeffs")
        .challenge_bytes(32, "final_queries");
    io = with_work(io, cfg.final_pow_bits);
    with_sumcheck(io, cfg.final_sumcheck_rounds, cfg.final_folding_pow_bits)
}

/// A proof over ones with everything that its verification takes.
struct WhirThings {
    verifier: Verifier<F, Blake3Params, Blake3PoW>,
    io: IOPattern,
    transcript: Vec<u8>,
    statement: Statement<F>,
    proof: WhirProof<Paths, F>,
}

impl WhirThings {
    fn verify(&self) -> Result<(), ProofError> {
        let mut arthur = Arthur {
            inner: self.io.to_arthur(&self.transcript),
        };
        self.verifier.verify(&mut arthur, &self.statement, &self.proof)
    }
}

fn whir_things(
    num_variables: usize,
    folding_factor: usize,
    num_points: usize,
    soundness_type: SoundnessType,
    pow_bits: usize,
    fold_type: FoldType,
) -> WhirThings {
    let mut rng = ark_std::test_rng();
    let params: WhirConfig<F, Blake3Params, Blake3PoW> = config(
        num_variables,
        folding_factor,
        32,
        1,
        soundness_type,
        pow_bits,
        fold_type,
    );
    let polynomial = vec![Fr::from(1); 1 << num_variables];
    let points = random_points(num_points, num_variables, &mut rng);
    let statement = statement_of(&polynomial, &points);
    let io = pattern(&params);
    let mut channel = MerlinChannel(io.to_merlin(), PhantomData::<Blake3PoW>);
    let proof = WhirProof(prove::<Blake3Tree, Blake3Params, Blake3PoW>(
        &params,
        &polynomial,
        &points,
        &mut channel,
    ));
    WhirThings {
        verifier: Verifier::new(params),
        io,
        transcript: channel.0.transcript().to_vec(),
        statement,
        proof,
    }
}

fn make_whir_things(
    num_variables: usize,
    folding_factor: usize,
    num_points: usize,
    soundness_type: SoundnessType,
    pow_bits: usize,
    fold_type: FoldType,
) {
    let things = whir_things(
        num_variables,
        folding_factor,
        num_points,
        soundness_type,
        pow_bits,
        fold_type,
    );
    assert!(things.verify().is_ok());
}

#[test]
fn test_whir() {
    let folding_factors = [1, 2, 3, 4];
    let soundness_type = [
        SoundnessType::ConjectureList,
        SoundnessType::ProvableList,
        SoundnessType::UniqueDecoding,
    ];
    let fold_types = [FoldType::Naive, FoldType::ProverHelps];
    let num_points = [0, 1, 2];
    let pow_bits = [0, 5, 10];

    for folding_factor in folding_factors {
        let num_variables = folding_factor..=3 * folding_factor;
        for num_variables in num_variables {
            for fold_type in fold_types {
                for num_points in num_points {
                    for soundness_type in soundness_type {
                        for pow_bits in pow_bits {
                            make_whir_things(
                                num_variables,
                                folding_factor,
                                num_points,
                                soundness_type,
                                pow_bits,
                                fold_type,
                            );
                        }
                    }
                }
            }
        }
    }
}

#[test]
fn test_whir_single_poly() {
    let folding_factor = 1;
    let soundness_type = SoundnessType::UniqueDecoding;
    let fold_type = FoldType::ProverHelps;
    let num_points = 4;
    let pow_bits = 0;
    let num_variables = 3;
    make_whir_things(
        num_variables,
        folding_factor,
        num_points,
        soundness_type,
        pow_bits,
        fold_type,
    );
}

#[test]
fn masked_hashes_verify() {
    for fold_type in [FoldType::Naive, FoldType::ProverHelps] {
        evm_make_whir_things::<MaskedMerkleTreeEvmParams<F>>(
            6,
            2,
            32,
            3,
            2,
            SoundnessType::ConjectureList,
            0,
            fold_type,
            thread_rng(),
        );
    }
}

#[test]
fn evm_proofs_of_false_claims_are_invalid() {
    let (verifier, transcript, mut statement, proof) = evm_make_whir_things::<MerkleTreeEvmParams<F>>(
        5,
        2,
        32,
        3,
        1,
        SoundnessType::ConjectureList,
        0,
        FoldType::ProverHelps,
        thread_rng(),
    );
    let one = F::one();
    statement.evaluations[0] = statement.evaluations[0].plus(one);
    let r = verifier.evm_verify(&mut transcript.clone(), &statement, &proof);
    assert_eq!(r, Err(ProofError::InvalidProof));
    statement.evaluations[0] = statement.evaluations[0].minus(one);
    assert_eq!(verifier.evm_verify(&mut transcript.clone(), &statement, &proof), Ok(()));
    statement.points[0].0[0] = statement.points[0].0[0].plus(one);
    let r = verifier.evm_verify(&mut transcript.clone(), &statement, &proof);
    assert_eq!(r, Err(ProofError::InvalidProof));
}

#[test]
fn evm_proofs_with_wrong_openings_are_invalid() {
    let (verifier, transcript, statement, mut proof) = evm_make_whir_things::<MerkleTreeEvmParams<F>>(
        4,
        1,
        32,
        3,
        1,
        SoundnessType::ProvableList,
        0,
        FoldType::Naive,
        thread_rng(),
    );
    let verify = |proof: &EVMWhirProof<F>| verifier.evm_verify(&mut transcript.clone(), &statement, proof);
    assert_eq!(verify(&proof), Ok(()));

    // A leaf that was not committed to.
    let x = proof.0[1].1[0][0];
    proof.0[1].1[0][0] = x.plus(F::one());
    assert_eq!(verify(&proof), Err(ProofError::InvalidProof));
    proof.0[1].1[0][0] = x;

    // A leaf without its index.
    let leaf = proof.0[0].1.pop().unwrap();
    assert_eq!(verify(&proof), Err(ProofError::InvalidProof));
    proof.0[0].1.push(leaf);

    // A node number out of range.
    let depth = proof.0[0].0.depth;
    proof.0[0].0.depth = 200;
    assert_eq!(verify(&proof), Err(ProofError::InvalidProof));
    proof.0[0].0.depth = depth;

    // Too few hashes.
    let hashes = std::mem::take(&mut proof.0[0].0.decommitments);
    assert_eq!(verify(&proof), Err(ProofError::InvalidProof));
    proof.0[0].0.decommitments = hashes;
    assert_eq!(verify(&proof), Ok(()));

    // Rounds without an opening.
    assert_eq!(verify(&EVMWhirProof(vec![])), Err(ProofError::InvalidProof));
    proof.0.truncate(1);
    assert_eq!(verify(&proof), Err(ProofError::InvalidProof));
}

fn too_short() -> ProofError {
    ProofError::InvalidIO("the transcript is too short".to_string())
}

#[test]
fn evm_transcripts_that_end_early_are_refused() {
    let (verifier, transcript, statement, proof) = evm_make_whir_things::<MerkleTreeEvmParams<F>>(
        3,
        1,
        32,
        3,
        0,
        SoundnessType::UniqueDecoding,
        0,
        FoldType::ProverHelps,
        thread_rng(),
    );
    let bytes = transcript.transcript().clone();
    for len in [0, 31, 32, bytes.len() - 1] {
        let mut writer = EVMFs::new();
        writer.add_bytes(&bytes[..len]);
        let r = verifier.evm_verify(&mut writer.to_arthur(), &statement, &proof);
        assert_eq!(r, Err(too_short()));
    }
    // The first message of the sumcheck is no reduced number.
    let mut changed = bytes.clone();
    changed[32..64].fill(255);
    let mut writer = EVMFs::new();
    writer.add_bytes(&changed);
    let r = verifier.evm_verify(&mut writer.to_arthur(), &statement, &proof);
    assert_eq!(r, Err(ProofError::SerializationError));
}

/// How many bytes are left to read.
fn bytes_left(transcript: &mut EVMFs<F>) -> usize {
    let mut n = 0;
    while transcript.next_bytes(1).is_ok() {
        n += 1;
    }
    n
}

#[test]
fn where_the_transcript_stands_after_a_refusal() {
    let (verifier, transcript, mut statement, mut proof) = evm_make_whir_things::<MerkleTreeEvmParams<F>>(
        4,
        1,
        32,
        3,
        1,
        SoundnessType::ProvableList,
        0,
        FoldType::ProverHelps,
        thread_rng(),
    );
    let mut writer = EVMFs::new();
    writer.add_bytes(transcript.transcript());
    writer.add_bytes(&[9u8; 5]);
    let whole = writer.to_arthur();
    let total = whole.transcript().len();

    // What follows the proof is left, whether it is accepted or its equations fail.
    let mut evmfs = whole.clone();
    assert_eq!(verifier.evm_verify(&mut evmfs, &statement, &proof), Ok(()));
    assert_eq!(evmfs.next_bytes(5), Ok(vec![9u8; 5]));
    let value = statement.evaluations[0];
    statement.evaluations[0] = value.plus(F::one());
    let mut evmfs = whole.clone();
    assert_eq!(verifier.evm_verify(&mut evmfs, &statement, &proof), Err(ProofError::InvalidProof));
    assert_eq!(evmfs.next_bytes(5), Ok(vec![9u8; 5]));
    assert_eq!(evmfs.transcript().len(), total);
    statement.evaluations[0] = value;

    // An opening is refused after the root, the answers and the challenge of its round.
    let x = proof.0[0].1[0][0];
    proof.0[0].1[0][0] = x.plus(F::one());
    let mut evmfs = whole.clone();
    assert_eq!(verifier.evm_verify(&mut evmfs, &statement, &proof), Err(ProofError::InvalidProof));
    // Root and answers twice, and between them a polynomial.
    assert_eq!(bytes_left(&mut evmfs), total - 32 * (3 + 3 + 3));
    proof.0[0].1[0][0] = x;

    // A round without an opening is refused before its root is read.
    proof.0.truncate(1);
    let mut evmfs = whole.clone();
    assert_eq!(verifier.evm_verify(&mut evmfs, &statement, &proof), Err(ProofError::InvalidProof));
    assert_eq!(bytes_left(&mut evmfs), total - 32 * (3 + 3 + 3 + 3));

    // Nothing is read of a transcript that is too short, and an unreduced number is passed over.
    let mut short = EVMFs::<F>::new();
    short.add_bytes(&[1u8; 31]);
    let mut short = short.to_arthur();
    assert_eq!(short.next_scalar(), Err(too_short()));
    assert_eq!(bytes_left(&mut short), 31);
    let mut wide = EVMFs::<F>::new();
    wide.add_bytes(&[255u8; 40]);
    let mut wide = wide.to_arthur();
    assert_eq!(wide.next_scalar(), Err(ProofError::SerializationError));
    assert_eq!(bytes_left(&mut wide), 8);
}

#[test]
fn both_ways_to_answer_fold_to_the_same() {
    let (num_variables, k, rate) = (6, 2, 3);
    let (verifier, transcript, statement, proof) = evm_make_whir_things::<MerkleTreeEvmParams<F>>(
        num_variables,
        k,
        32,
        rate,
        1,
        SoundnessType::ConjectureList,
        0,
        FoldType::ProverHelps,
        thread_rng(),
    );
    let mut evmfs = transcript.clone();
    let commitment = verifier.parse_commitment(&mut evmfs).ok().unwrap();
    let parsed = verifier.parse_proof(&mut evmfs, &commitment, &statement, &proof.0).ok().unwrap();
    assert_eq!(bytes_left(&mut evmfs), 0);
    let helped = verifier.compute_folds_helped(&parsed).unwrap();
    assert_eq!(helped.len(), parsed.rounds.len() + 1);
    assert_eq!(helped.len(), 3);
    assert_eq!(verifier.compute_folds(&parsed).unwrap(), helped);

    // What is parsed does not depend on the points and the values.
    let other = Statement {
        points: vec![MultilinearPoint(vec![F::one(); num_variables])],
        evaluations: vec![F::one()],
    };
    let mut evmfs = transcript.clone();
    let commitment = verifier.parse_commitment(&mut evmfs).ok().unwrap();
    let again = verifier.parse_proof(&mut evmfs, &commitment, &other, &proof.0).ok().unwrap();
    assert_eq!(bytes_left(&mut evmfs), 0);
    assert_eq!(verifier.compute_folds(&again).unwrap(), helped);
    assert_eq!(again.final_randomness_indexes, parsed.final_randomness_indexes);

    // The values of the polynomials in the answers, on the cosets of the indexes.
    let size = 1usize << (num_variables + rate);
    let values = |r: usize, indexes: &[usize], answers: &[Vec<F>]| -> Vec<Vec<F>> {
        let size = size >> r;
        let gen = Fr::get_root_of_unity(size as u64).unwrap();
        let coset = |index: usize, answer: &[F]| -> Vec<F> {
            let coeffs: Vec<Fr> = answer.iter().map(|c| to_fr(*c)).collect();
            (0..1 << k)
                .map(|j| to_field(univariate(&coeffs, gen.pow([(index + j * (size >> k)) as u64]))))
                .collect()
        };
        indexes.iter().zip(answers).map(|(index, answer)| coset(*index, answer)).collect()
    };
    let rounds = parsed.rounds.iter().enumerate();
    let answers: Vec<Vec<Vec<F>>> = rounds
        .map(|(r, round)| values(r, &round.stir_challenges_indexes, round.stir_challenges_answers))
        .collect();
    let final_answers = values(
        parsed.rounds.len(),
        &parsed.final_randomness_indexes,
        parsed.final_randomness_answers,
    );
    let mut parsed = parsed;
    for (round, answers) in parsed.rounds.iter_mut().zip(&answers) {
        round.stir_challenges_answers = answers;
    }
    parsed.final_randomness_answers = &final_answers;
    assert_eq!(verifier.compute_folds_full(&parsed).unwrap(), helped);
    // Answers that are too short cannot be folded.
    let short = vec![vec![F::one()]];
    parsed.final_randomness_answers = &short;
    assert!(verifier.compute_folds_full(&parsed).is_none());
    assert!(verifier.compute_folds_helped(&parsed).is_none());
}

#[test]
fn both_ways_to_answer_are_accepted() {
    // The same polynomial and points, once with values and once with coefficients.
    for num_variables in [4, 8] {
        let polynomial: Vec<Fr> = (0..1u64 << num_variables).map(|i| Fr::from(i * i + 3)).collect();
        let points = vec![(0..num_variables as u64).map(|i| Fr::from(i + 7)).collect::<Vec<Fr>>()];
        let statement = statement_of(&polynomial, &points);
        for fold_type in [FoldType::Naive, FoldType::ProverHelps] {
            let params: WhirConfig<F, MerkleTreeEvmParams<F>, KeccakEVMPoW> =
                config(num_variables, 4, 32, 2, SoundnessType::ConjectureList, 0, fold_type);
            let mut channel = EvmChannel(EVMFs::new());
            let proof = EVMWhirProof(prove::<EvmTree<MerkleTreeEvmParams<F>>, _, _>(
                &params,
                &polynomial,
                &points,
                &mut channel,
            ));
            let verifier = Verifier::new(params);
            assert_eq!(verifier.evm_verify(&mut channel.0.to_arthur(), &statement, &proof), Ok(()));
        }
    }
}

#[test]
fn arthur_errors() {
    let mut things = whir_things(4, 2, 1, SoundnessType::ConjectureList, 5, FoldType::Naive);
    assert_eq!(things.verify(), Ok(()));

    let transcript = things.transcript.clone();
    things.transcript.pop();
    let text = "\"failed to fill whole buffer\"".to_string();
    assert_eq!(things.verify(), Err(ProofError::InvalidIO(text)));
    things.transcript = transcript.clone();

    // An answer of the prover that is no reduced number.
    things.transcript[32..64].fill(255);
    assert_eq!(things.verify(), Err(ProofError::SerializationError));
    things.transcript = transcript.clone();

    // Another answer: the sum no longer fits, or the work is not shown.
    things.transcript[32] ^= 1;
    assert_eq!(things.verify(), Err(ProofError::InvalidProof));
    things.transcript = transcript.clone();

    // A pattern of other messages.
    let io = things.io.clone();
    things.io = IOPattern::<DefaultHash>::new("🌪️").add_bytes(16, "merkle_digest");
    let text = "\"Invalid tag. Got Absorb(32), expected Absorb(16)\"".to_string();
    assert_eq!(things.verify(), Err(ProofError::InvalidIO(text)));
    things.io = io;

    // Another claim.
    things.statement.evaluations[0] = things.statement.evaluations[0].plus(F::one());
    assert_eq!(things.verify(), Err(ProofError::InvalidProof));
}

/// An opening that authenticates everything, and may name indexes.
struct Lenient(Option<Vec<usize>>);

impl MerkleOpening<Blake3Params, F> for Lenient {
    fn leaf_indexes(&self) -> Option<Vec<usize>> {
        self.0.clone()
    }

    fn verify(&self, _root: &KeccakDigest, _indexes: &Vec<usize>, _leaves: &Vec<Vec<F>>) -> bool {
        true
    }
}

#[test]
fn openings_of_other_indexes_are_refused() {
    let things = whir_things(4, 1, 1, SoundnessType::ConjectureList, 0, FoldType::Naive);
    assert_eq!(things.verify(), Ok(()));
    let verify = |named: &dyn Fn(usize, Vec<usize>) -> Option<Vec<usize>>| {
        let openings = things.proof.0.iter().enumerate();
        let openings = openings.map(|(r, (paths, answers))| {
            (Lenient(named(r, paths.0.leaf_indexes.clone())), answers.clone())
        });
        let mut arthur = Arthur {
            inner: things.io.to_arthur(&things.transcript),
        };
        things.verifier.verify(&mut arthur, &things.statement, &WhirProof(openings.collect()))
    };
    assert_eq!(verify(&|_, indexes| Some(indexes)), Ok(()));
    assert_eq!(verify(&|_, _| None), Ok(()));
    // Other indexes in any round, or in the final queries.
    let rounds = things.proof.0.len();
    for changed in 0..rounds {
        let r = verify(&|r, mut indexes| {
            if r == changed {
                indexes[0] ^= 1;
            }
            Some(indexes)
        });
        assert_eq!(r, Err(ProofError::InvalidProof));
        let r = verify(&|r, mut indexes| {
            if r == changed {
                indexes.pop();
            }
            Some(indexes)
        });
        assert_eq!(r, Err(ProofError::InvalidProof));
    }
}

#[test]
fn arthur_checks_the_work() {
    let mut things = whir_things(2, 1, 0, SoundnessType::UniqueDecoding, 20, FoldType::ProverHelps);
    assert_eq!(things.verify(), Ok(()));
    // After the root, three values and then the nonce of the first folding.
    things.transcript[32 + 96 + 7] ^= 1;
    assert_eq!(things.verify(), Err(ProofError::InvalidProof));
}

#[test]
fn test_evm_merkle() {
    for num_variables in (4..=20).step_by(2) {
        // number of variables in polynomial
        for folding_factor in 1..4 {
            evm_merkle_cases(num_variables, folding_factor);
        }
    }
}

fn evm_merkle_cases(num_variables: usize, folding_factor: usize) {
    let n = 2usize << (num_variables - folding_factor);
    // Every coefficient of the polynomial is one, so that all parts of it have the same values.
    let values = values_of(&vec![Fr::from(1); 1 << (num_variables - folding_factor)], n);
    let leaves = Word {
        elements: values.repeat(1 << folding_factor),
        n,
    };
    let merkle_tree = evm_tree::<MerkleTreeEvmParams<F>>(&leaves);
    for i in (1..20).step_by(4) {
        // number of indices to open
        let step = Uniform::new(0, merkle_tree.leaf_nodes.len() - 1);
        let mut rng = rand::thread_rng();
        let mut indices: Vec<_> = step.sample_iter(&mut rng).take(i).collect();
        indices = dedup(&indices);
        // get values for the leaves at the specified indexes
        let mut values = vec![];
        for i in &indices {
            values.push(leaves.leaf(*i));
        }
        let multiproof = generate_multiproof(&merkle_tree, indices.clone(), values.clone());
        let verify = verify_multiproof(&multiproof, merkle_tree.root(), indices.clone(), values);
        assert!(verify);
    }
}

#[test]
fn parameters_that_do_not_fit_together() {
    let make = || -> WhirConfig<F, MerkleTreeEvmParams<F>, KeccakEVMPoW> {
        config(6, 2, 32, 1, SoundnessType::ConjectureList, 0, FoldType::Naive)
    };
    assert!(make().is_wf());
    assert_eq!(make().n_rounds(), 2);
    let mut params = make();
    params.folding_factor = 0;
    assert!(!params.is_wf());
    let mut params = make();
    params.mv_parameters.num_variables = 7;
    assert!(!params.is_wf());
    let mut params = make();
    params.final_sumcheck_rounds = 64;
    assert!(!params.is_wf());
    let mut params = make();
    params.starting_domain.size = 8;
    assert!(!params.is_wf());
    params.final_queries = 0;
    params.round_parameters[1].num_queries = 0;
    assert!(params.is_wf());
    let mut params = make();
    params.round_parameters[0].num_queries = usize::MAX;
    assert!(!params.is_wf());
}
