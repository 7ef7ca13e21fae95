use whir::bn254::FieldBn256;
use whir::evm_merkle::{generate_multiproof, verify_multiproof, EVMMultiProof, MerkleOpening, MerkleTree};
use whir::field::PrimeField;
use whir::hasher::{
    EvmKeccakLeafHash, KeccakDigest, KeccakTwoToOneCRHScheme, MaskedEvmKeccakLeafHash, MaskedKeccakTwoToOneCRHScheme,
    MaskedMerkleTreeEvmParams, MerkleConfig, MerkleTreeEvmParams,
};

type F = FieldBn256;

fn hex(s: &str) -> [u8; 32] {
    let mut r = [0u8; 32];
    for i in 0..32 {
        r[i] = u8::from_str_radix(&s[2 * i..2 * i + 2], 16).unwrap();
    }
    r
}

#[test]
fn keccak_of_nothing_and_of_zeros() {
    let d = EvmKeccakLeafHash::<F>::evaluate(&[]);
    assert_eq!(d.0, hex("c5d2460186f7233c927e7db2dcc703c0e500b653ca82273b7bfad8045d85a470"));
    // keccak256 of 32 and of 64 zero bytes
    let d = EvmKeccakLeafHash::evaluate(&[F::zero()]);
    assert_eq!(d.0, hex("290decd9548b62a8d60345a988386fc84ba6bc95484008f6362f93160ef3e563"));
    let zero = KeccakDigest([0u8; 32]);
    let d = KeccakTwoToOneCRHScheme::evaluate(&zero, &zero);
    assert_eq!(d.0, hex("ad3228b676f7d3cd4284a5443f17f1962b36e491b30a40b2405849e597ba5fb5"));
}

#[test]
fn elements_are_hashed_most_significant_byte_first() {
    // keccak256 of the 32-byte word that holds one
    let d = EvmKeccakLeafHash::evaluate(&[F::one()]);
    assert_eq!(d.0, hex("b10e2d527612073b26eecdfd717e6a320cf44b4afac2b0732d9fcbe2b7fa0cf6"));
    let mut left = [0u8; 32];
    left[31] = 1;
    let mut right = [0u8; 32];
    right[31] = 2;
    let pair = KeccakTwoToOneCRHScheme::evaluate(&KeccakDigest(left), &KeccakDigest(right));
    let leaf = EvmKeccakLeafHash::evaluate(&[F::one(), F::from_u64(2)]);
    assert!(pair.same(&leaf));
    assert_ne!(leaf, EvmKeccakLeafHash::evaluate(&[F::from_u64(2), F::one()]));
    assert_ne!(leaf, EvmKeccakLeafHash::evaluate(&[F::one(), F::from_u64(2), F::zero()]));
    assert!(!pair.same(&d));
}

#[test]
fn masked_hashes_keep_twenty_bytes() {
    let leaf = [F::from_u64(5), F::from_u64(6)];
    let full = EvmKeccakLeafHash::evaluate(&leaf);
    let masked = MaskedEvmKeccakLeafHash::evaluate(&leaf);
    assert_eq!(masked.0[..20], full.0[..20]);
    assert_eq!(masked.0[20..], [0u8; 12]);
    let full_node = KeccakTwoToOneCRHScheme::evaluate(&full, &masked);
    let node = MaskedKeccakTwoToOneCRHScheme::evaluate(&full, &masked);
    assert_eq!(node.0[..20], full_node.0[..20]);
    assert_eq!(node.0[20..], [0u8; 12]);
    assert_eq!(MaskedKeccakTwoToOneCRHScheme::compress(&full, &masked), node);
    assert_eq!(<MaskedMerkleTreeEvmParams<F> as MerkleConfig<F>>::hash_leaf(&leaf), masked);
}

fn leaves(n: u64) -> Vec<Vec<F>> {
    (0..n).map(|i| vec![F::from_u64(i), F::from_u64(i * i)]).collect()
}

fn tree<C: MerkleConfig<F>>(leaves: &[Vec<F>]) -> MerkleTree {
    let n = leaves.len();
    let leaf_nodes: Vec<KeccakDigest> = leaves.iter().map(|leaf| C::hash_leaf(leaf)).collect();
    let mut nodes = vec![KeccakDigest([0u8; 32]); n];
    nodes.extend(leaf_nodes.iter());
    for i in (1..n).rev() {
        nodes[i] = C::hash_node(&nodes[2 * i], &nodes[2 * i + 1]);
    }
    MerkleTree {
        leaf_nodes,
        non_leaf_nodes: nodes[1..n].to_vec(),
    }
}

#[test]
fn honest_openings_are_accepted() {
    let all = leaves(8);
    let mt = tree::<MerkleTreeEvmParams<F>>(&all);
    for mask in 1usize..256 {
        let indices: Vec<usize> = (0..8).filter(|i| mask >> i & 1 == 1).collect();
        let values: Vec<Vec<F>> = indices.iter().map(|i| all[*i].clone()).collect();
        let proof = generate_multiproof::<F>(&mt, indices.clone(), values.clone());
        assert_eq!(proof.depth, 3);
        assert!(verify_multiproof(&proof, mt.root(), indices.clone(), values.clone()));
        assert!(MerkleOpening::<MerkleTreeEvmParams<F>, F>::verify(&proof, &mt.root(), &indices, &values));
    }
}

#[test]
fn openings_supply_what_is_not_known() {
    let all = leaves(8);
    let mt = tree::<MerkleTreeEvmParams<F>>(&all);
    let proof = generate_multiproof::<F>(&mt, vec![0, 1, 6], vec![]);
    // The sibling of leaf 6, then its uncle's sibling, then that of the parent of 0 and 1.
    assert_eq!(
        proof.decommitments,
        vec![mt.leaf_nodes[7], mt.non_leaf_nodes[5], mt.non_leaf_nodes[4]]
    );
    let proof = generate_multiproof::<F>(&mt, (0..8).collect(), vec![]);
    assert!(proof.decommitments.is_empty());
}

#[test]
fn openings_bind() {
    let all = leaves(8);
    let mt = tree::<MerkleTreeEvmParams<F>>(&all);
    let indices = vec![2, 5];
    let values = vec![all[2].clone(), all[5].clone()];
    let proof = generate_multiproof::<F>(&mt, indices.clone(), values.clone());
    let mut other = values.clone();
    other[0][1] = F::from_u64(77);
    assert!(!verify_multiproof(&proof, mt.root(), indices.clone(), other));
    assert!(!verify_multiproof(&proof, mt.leaf_nodes[0], indices.clone(), values.clone()));
    assert!(!verify_multiproof(&proof, mt.root(), vec![2, 4], values.clone()));
    let mut changed = proof.clone();
    changed.decommitments[0].0[0] ^= 1;
    assert!(!verify_multiproof(&changed, mt.root(), indices, values));
}

#[test]
fn malformed_openings_are_refused() {
    let all = leaves(4);
    let mt = tree::<MaskedMerkleTreeEvmParams<F>>(&all);
    let verify = |proof: &EVMMultiProof, indices: &Vec<usize>, values: &Vec<Vec<F>>| {
        MerkleOpening::<MaskedMerkleTreeEvmParams<F>, F>::verify(proof, &mt.root(), indices, values)
    };
    let (indices, values) = (vec![1], vec![all[1].clone()]);
    let proof = generate_multiproof::<F>(&mt, indices.clone(), values.clone());
    assert!(verify(&proof, &indices, &values));
    // Under full hashes the same opening leads elsewhere.
    assert!(!verify_multiproof(&proof, mt.root(), indices.clone(), values.clone()));
    assert!(!verify(&proof, &indices, &vec![]));
    assert!(!verify(&proof, &vec![], &vec![]));
    assert!(!verify(&proof, &vec![usize::MAX], &values));
    let mut short = proof.clone();
    short.decommitments.pop();
    assert!(!verify(&short, &indices, &values));
    let mut deep = proof.clone();
    deep.depth = u32::MAX;
    assert!(!verify(&deep, &indices, &values));
}
