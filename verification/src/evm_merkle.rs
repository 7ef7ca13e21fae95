//! Openings of several Merkle leaves at once.
//!
//! The nodes of a tree are numbered level by level from the root, which is node 1, so that the
//! children of node `i` are `2 * i` and `2 * i + 1`. A proof lists, from the highest number to
//! the lowest, those nodes that are needed to recompute the root and that the opened leaves do
//! not determine.
use crate::bits::{checked_two_to, two_to};
use crate::field::{rows, vals, PrimeField};
use crate::hasher::{KeccakDigest, MerkleConfig, MerkleTreeEvmParams};
use vstd::arithmetic::power2::{lemma_pow2, lemma_pow2_strictly_increases, pow2};
use vstd::prelude::*;

verus! {

/// The hashes of a Merkle tree.
pub struct MerkleTree {
    /// The hashes of the leaves, from left to right.
    pub leaf_nodes: Vec<KeccakDigest>,
    /// The hashes of the inner nodes, level by level; the first is the root.
    pub non_leaf_nodes: Vec<KeccakDigest>,
}

impl MerkleTree {
    /// The hash of node `i`.
    pub open spec fn node(&self, i: nat) -> Seq<u8> {
        if i < self.leaf_nodes@.len() {
            self.non_leaf_nodes@[i - 1]@
        } else {
            self.leaf_nodes@[i - self.leaf_nodes@.len()]@
        }
    }

    /// The tree is complete, over at least two leaves.
    pub open spec fn complete(&self, depth: nat) -> bool {
        &&& depth >= 1
        &&& self.leaf_nodes@.len() == pow2(depth)
        &&& self.non_leaf_nodes@.len() == pow2(depth) - 1
    }

    /// Node `i` holds the hash of its children.
    pub open spec fn joins<C: MerkleConfig<F>, F: PrimeField>(&self, i: nat) -> bool {
        self.node(i) == C::node_digest(self.node(2 * i), self.node(2 * i + 1))
    }

    /// Every inner node holds the hash of its children.
    pub open spec fn hashed<C: MerkleConfig<F>, F: PrimeField>(&self) -> bool {
        forall|i: nat| 1 <= i < self.leaf_nodes@.len() ==> #[trigger] self.joins::<C, F>(i)
    }

    /// The hash at the root.
    pub fn root(&self) -> (r: KeccakDigest)
        requires
            exists|depth: nat| self.complete(depth),
        ensures
            r@ == self.node(1),
    {
        proof {
            let depth = choose|depth: nat| self.complete(depth);
            assert(pow2(depth) >= 2) by {
                lemma_pow2(1);
                vstd::arithmetic::power2::lemma2_to64();
                if depth > 1 {
                    lemma_pow2_strictly_increases(1, depth);
                }
            }
        }
        self.non_leaf_nodes[0]
    }

    /// The hash of node `i`.
    fn get(&self, i: usize) -> (r: KeccakDigest)
        requires
            1 <= i < 2 * self.leaf_nodes@.len(),
            self.non_leaf_nodes@.len() == self.leaf_nodes@.len() - 1,
        ensures
            r@ == self.node(i as nat),
    {
        let n = self.leaf_nodes.len();
        if i < n {
            self.non_leaf_nodes[i - 1]
        } else {
            self.leaf_nodes[i - n]
        }
    }
}

/// An opening of several leaves of a tree with `depth` levels below the root.
#[derive(Clone)]
pub struct EVMMultiProof {
    pub depth: u32,
    pub decommitments: Vec<KeccakDigest>,
}

/// The bytes of each hash.
pub open spec fn digests(s: Seq<KeccakDigest>) -> Seq<Seq<u8>> {
    s.map_values(|d: KeccakDigest| d@)
}

/// Node `i` of a tree over `n` leaves is an opened leaf or lies above one.
pub open spec fn known(indices: Seq<usize>, n: nat, i: nat) -> bool
    decreases 2 * n - i,
{
    if i == 0 || i >= 2 * n {
        false
    } else if i >= n {
        exists|k: int| 0 <= k < indices.len() && #[trigger] indices[k] == i - n
    } else {
        known(indices, n, 2 * i) || known(indices, n, 2 * i + 1)
    }
}

/// The child of node `i` that a proof has to supply: the one that is not known, where the other
/// one is.
pub open spec fn supplied(tree: MerkleTree, indices: Seq<usize>, i: nat) -> Seq<Seq<u8>> {
    let n = tree.leaf_nodes@.len();
    let left = known(indices, n, 2 * i);
    let right = known(indices, n, 2 * i + 1);
    if left && !right {
        seq![tree.node(2 * i + 1)]
    } else if !left && right {
        seq![tree.node(2 * i)]
    } else {
        Seq::empty()
    }
}

/// What a proof supplies for the nodes from `i` down to the root.
pub open spec fn supplied_from(tree: MerkleTree, indices: Seq<usize>, i: nat) -> Seq<Seq<u8>>
    decreases i,
{
    if i == 0 {
        Seq::empty()
    } else {
        supplied(tree, indices, i) + supplied_from(tree, indices, (i - 1) as nat)
    }
}

/// `ark_std::log2`: the least exponent with which two reaches `x`, for positive `x`.
#[verifier::external_body]
fn log2(x: usize) -> (r: u32)
    requires
        x > 0,
    ensures
        pow2(r as nat) >= x,
        r > 0 ==> pow2((r - 1) as nat) < x,
{
    ark_std::log2(x)
}

/// Collects what a verifier needs besides the leaves at `indices` to recompute the root.
pub fn generate_multiproof<F: PrimeField>(
    mt: &MerkleTree,
    indices: Vec<usize>,
    values: Vec<Vec<F>>,
) -> (proof: EVMMultiProof)
    requires
        exists|depth: nat| mt.complete(depth),
        2 * mt.leaf_nodes@.len() <= usize::MAX,
        forall|k: int| 0 <= k < indices@.len() ==> indices@[k] < mt.leaf_nodes@.len(),
    ensures
        mt.complete(proof.depth as nat),
        digests(proof.decommitments@) == supplied_from(
            *mt,
            indices@,
            (mt.leaf_nodes@.len() - 1) as nat,
        ),
        exists|nodes: Seq<nat>| #[trigger]
            lists_decommitments(*mt, indices@, digests(proof.decommitments@), nodes),
        (forall|a: int, b: int| 0 <= a < b < indices@.len() ==> indices@[a] < indices@[b])
            ==> proof.decommitments@.len() == supply_needed(
            opening_numbers(proof.depth as nat, indices@, indices@.len()),
        ),
{
    let n = mt.leaf_nodes.len();
    let depth: u32 = log2(n);
    proof {
        let d = choose|d: nat| mt.complete(d);
        vstd::arithmetic::power2::lemma2_to64();
        if d < depth {
            if d < depth - 1 {
                lemma_pow2_strictly_increases(d, (depth - 1) as nat);
            }
        } else if d > depth {
            lemma_pow2_strictly_increases(depth as nat, d);
        }
    }
    let mut marks: Vec<bool> = vec![false; 2 * n];
    let mut k: usize = 0;
    while k < indices.len()
        invariant
            k <= indices@.len(),
            n == mt.leaf_nodes@.len(),
            2 * n <= usize::MAX,
            marks@.len() == 2 * n,
            forall|j: int| 0 <= j < indices@.len() ==> indices@[j] < n,
            forall|i: int|
                n <= i < 2 * n ==> (#[trigger] marks@[i] <==> exists|j: int|
                    0 <= j < k && #[trigger] indices@[j] == i - n),
        decreases indices@.len() - k,
    {
        let ghost before = marks@;
        let at = n + indices[k];
        marks.set(at, true);
        proof {
            assert forall|i: int| n <= i < 2 * n implies (#[trigger] marks@[i] <==> exists|j: int|
                0 <= j < k + 1 && #[trigger] indices@[j] == i - n) by {
                if i == at {
                    assert(indices@[k as int] == i - n);
                } else if before[i] {
                    let j = choose|j: int| 0 <= j < k && #[trigger] indices@[j] == i - n;
                    assert(0 <= j < k + 1 && indices@[j] == i - n);
                }
            }
        }
        k += 1;
    }
    let mut decommitments: Vec<KeccakDigest> = Vec::new();
    let mut i: usize = n - 1;
    assert(digests(decommitments@) =~= Seq::<Seq<u8>>::empty());
    while i > 0
        invariant
            i < n,
            n == mt.leaf_nodes@.len(),
            2 * n <= usize::MAX,
            mt.non_leaf_nodes@.len() == n - 1,
            marks@.len() == 2 * n,
            forall|j: int|
                i < j < 2 * n ==> (#[trigger] marks@[j] <==> known(indices@, n as nat, j as nat)),
            digests(decommitments@) + supplied_from(*mt, indices@, i as nat) == supplied_from(
                *mt,
                indices@,
                (n - 1) as nat,
            ),
        decreases i,
    {
        let left = marks[2 * i];
        let right = marks[2 * i + 1];
        let ghost before = digests(decommitments@);
        if left && !right {
            decommitments.push(mt.get(2 * i + 1));
        }
        if !left && right {
            decommitments.push(mt.get(2 * i));
        }
        proof {
            assert(digests(decommitments@) =~= before + supplied(*mt, indices@, i as nat));
            assert(before + (supplied(*mt, indices@, i as nat) + supplied_from(
                *mt,
                indices@,
                (i - 1) as nat,
            )) =~= (before + supplied(*mt, indices@, i as nat)) + supplied_from(
                *mt,
                indices@,
                (i - 1) as nat,
            ));
        }
        marks.set(i, left || right);
        i -= 1;
    }
    assert(digests(decommitments@) + supplied_from(*mt, indices@, 0) =~= digests(decommitments@));
    let opening = EVMMultiProof { depth, decommitments };
    proof {
        let supply = supplied_from(*mt, indices@, (n - 1) as nat);
        law_decommitments(*mt, indices@);
        let nodes = choose|nodes: Seq<nat>| #[trigger]
            lists_decommitments(*mt, indices@, supply, nodes);
        assert(digests(opening.decommitments@) == supply);
        assert(lists_decommitments(*mt, indices@, digests(opening.decommitments@), nodes));
        if forall|a: int, b: int| 0 <= a < b < indices@.len() ==> indices@[a] < indices@[b] {
            law_decommitments_are_taken(*mt, indices@, depth as nat);
        }
    }
    opening
}

/// An entry of the queue in which a root is recomputed: the number of a node and its hash.
pub type Entry = (nat, Seq<u8>);

/// The sum of the node numbers in a queue.
pub open spec fn weight(queue: Seq<Entry>) -> nat
    decreases queue.len(),
{
    if queue.len() == 0 {
        0
    } else {
        weight(queue.drop_last()) + queue.last().0
    }
}

/// Taking the front entry out of a queue takes its number out of the sum.
pub proof fn lemma_weight_front(queue: Seq<Entry>)
    requires
        queue.len() > 0,
    ensures
        weight(queue) == queue[0].0 + weight(queue.drop_first()),
    decreases queue.len(),
{
    if queue.len() == 1 {
        assert(queue.drop_last() =~= Seq::empty());
        assert(queue.drop_first() =~= Seq::empty());
    } else {
        lemma_weight_front(queue.drop_last());
        assert(queue.drop_last().drop_first() =~= queue.drop_first().drop_last());
    }
}

/// Putting an entry at the back of a queue adds its number to the sum.
pub proof fn lemma_weight_back(queue: Seq<Entry>, entry: Entry)
    ensures
        weight(queue.push(entry)) == weight(queue) + entry.0,
{
    assert(queue.push(entry).drop_last() =~= queue);
}

/// The front node is odd and its sibling is next in the queue.
pub open spec fn paired(queue: Seq<Entry>) -> bool {
    queue[0].0 % 2 == 1 && queue.len() > 1 && queue[1].0 == queue[0].0 - 1
}

/// The queue without the entries that the next step uses up.
pub open spec fn queue_rest(queue: Seq<Entry>) -> Seq<Entry> {
    if paired(queue) {
        queue.drop_first().drop_first()
    } else {
        queue.drop_first()
    }
}

/// The hashes of the children from which the next step computes a parent. Where the sibling of
/// the front node is not in the queue, it is `supply`.
pub open spec fn queue_children(queue: Seq<Entry>, supply: Seq<u8>) -> (Seq<u8>, Seq<u8>) {
    if paired(queue) {
        (queue[1].1, queue[0].1)
    } else if queue[0].0 % 2 == 0 {
        (queue[0].1, supply)
    } else {
        (supply, queue[0].1)
    }
}

/// The queue after the next step: the front node, with its sibling, is replaced by its parent at
/// the back.
pub open spec fn queue_step<C: MerkleConfig<F>, F: PrimeField>(
    queue: Seq<Entry>,
    supply: Seq<u8>,
) -> Seq<Entry> {
    let (left, right) = queue_children(queue, supply);
    queue_rest(queue).push((queue[0].0 / 2, C::node_digest(left, right)))
}

/// Each step makes the sum of the node numbers smaller.
pub proof fn lemma_weight_step<C: MerkleConfig<F>, F: PrimeField>(
    queue: Seq<Entry>,
    supply: Seq<u8>,
)
    requires
        queue.len() > 0,
        queue[0].0 >= 2,
    ensures
        weight(queue_step::<C, F>(queue, supply)) < weight(queue),
{
    lemma_weight_front(queue);
    if paired(queue) {
        lemma_weight_front(queue.drop_first());
    }
    let (left, right) = queue_children(queue, supply);
    lemma_weight_back(queue_rest(queue), (queue[0].0 / 2, C::node_digest(left, right)));
}

/// The hash that a queue and the hashes in `supply`, taken in order, lead to at the root; nothing
/// where `supply` does not suffice.
pub open spec fn queue_root<C: MerkleConfig<F>, F: PrimeField>(
    queue: Seq<Entry>,
    supply: Seq<Seq<u8>>,
) -> Option<Seq<u8>>
    decreases weight(queue),
{
    if queue.len() == 0 || queue[0].0 == 0 {
        None
    } else if queue[0].0 == 1 {
        Some(queue[0].1)
    } else if paired(queue) {
        proof {
            lemma_weight_step::<C, F>(queue, Seq::empty());
        }
        queue_root::<C, F>(queue_step::<C, F>(queue, Seq::empty()), supply)
    } else if supply.len() == 0 {
        None
    } else {
        proof {
            lemma_weight_step::<C, F>(queue, supply[0]);
        }
        queue_root::<C, F>(queue_step::<C, F>(queue, supply[0]), supply.drop_first())
    }
}

/// The queue with which the opening of `values` at `indices` starts: the leaves, the last one
/// first.
pub open spec fn opening_queue<C: MerkleConfig<F>, F: PrimeField>(
    depth: nat,
    indices: Seq<usize>,
    values: Seq<Seq<nat>>,
) -> Seq<Entry> {
    Seq::new(
        values.len(),
        |i: int|
            (
                pow2(depth) + indices[indices.len() - 1 - i] as nat,
                C::leaf_digest(values[values.len() - 1 - i]),
            ),
    )
}

/// Whether `proof` shows that `values` are the leaves at `indices` under `root`.
pub open spec fn opens<C: MerkleConfig<F>, F: PrimeField>(
    proof: EVMMultiProof,
    root: Seq<u8>,
    indices: Seq<usize>,
    values: Seq<Seq<nat>>,
) -> bool {
    queue_root::<C, F>(
        opening_queue::<C, F>(proof.depth as nat, indices, values),
        digests(proof.decommitments@),
    ) == Some(root)
}

/// The node numbers after the next step, which no hash influences.
pub open spec fn numbers_step(numbers: Seq<nat>) -> Seq<nat> {
    if numbers[0] % 2 == 1 && numbers.len() > 1 && numbers[1] == numbers[0] - 1 {
        numbers.drop_first().drop_first().push(numbers[0] / 2)
    } else {
        numbers.drop_first().push(numbers[0] / 2)
    }
}

/// The sum of node numbers.
pub open spec fn total(numbers: Seq<nat>) -> nat
    decreases numbers.len(),
{
    if numbers.len() == 0 {
        0
    } else {
        total(numbers.drop_last()) + numbers.last()
    }
}

/// Taking the first number away takes it out of the sum.
pub proof fn lemma_total_front(numbers: Seq<nat>)
    requires
        numbers.len() > 0,
    ensures
        total(numbers) == numbers[0] + total(numbers.drop_first()),
    decreases numbers.len(),
{
    if numbers.len() == 1 {
        assert(numbers.drop_last() =~= Seq::empty());
        assert(numbers.drop_first() =~= Seq::empty());
    } else {
        lemma_total_front(numbers.drop_last());
        assert(numbers.drop_last().drop_first() =~= numbers.drop_first().drop_last());
    }
}

/// Each step makes the sum of the node numbers smaller.
pub proof fn lemma_total_step(numbers: Seq<nat>)
    requires
        numbers.len() > 0,
        numbers[0] >= 2,
    ensures
        total(numbers_step(numbers)) < total(numbers),
{
    lemma_total_front(numbers);
    let rest = if numbers[0] % 2 == 1 && numbers.len() > 1 && numbers[1] == numbers[0] - 1 {
        lemma_total_front(numbers.drop_first());
        numbers.drop_first().drop_first()
    } else {
        numbers.drop_first()
    };
    assert(rest.push(numbers[0] / 2).drop_last() =~= rest);
}

/// How many hashes a proof has to supply for a queue of nodes with these numbers.
pub open spec fn supply_needed(numbers: Seq<nat>) -> nat
    decreases total(numbers),
{
    if numbers.len() == 0 || numbers[0] <= 1 {
        0
    } else {
        proof {
            lemma_total_step(numbers);
        }
        let paired = numbers[0] % 2 == 1 && numbers.len() > 1 && numbers[1] == numbers[0] - 1;
        supply_needed(numbers_step(numbers)) + if paired { 0nat } else { 1nat }
    }
}

/// The node numbers with which the opening of `count` values starts.
pub open spec fn opening_numbers(depth: nat, indices: Seq<usize>, count: nat) -> Seq<nat> {
    Seq::new(count, |i: int| pow2(depth) + indices[indices.len() - 1 - i] as nat)
}

/// A queue of nodes leads to a root exactly if enough hashes are supplied.
pub proof fn lemma_queue_root_defined<C: MerkleConfig<F>, F: PrimeField>(
    queue: Seq<Entry>,
    supply: Seq<Seq<u8>>,
)
    requires
        queue.len() > 0,
        forall|i: int| 0 <= i < queue.len() ==> (#[trigger] queue[i]).0 >= 1,
    ensures
        queue_root::<C, F>(queue, supply) is Some <==> supply_needed(
            queue.map_values(|e: Entry| e.0),
        ) <= supply.len(),
    decreases weight(queue),
{
    let numbers = queue.map_values(|e: Entry| e.0);
    if queue[0].0 >= 2 {
        lemma_total_step(numbers);
        let one = if paired(queue) || supply.len() == 0 {
            Seq::empty()
        } else {
            supply[0]
        };
        let next = queue_step::<C, F>(queue, one);
        lemma_weight_step::<C, F>(queue, one);
        assert(next.map_values(|e: Entry| e.0) =~= numbers_step(numbers));
        assert forall|i: int| 0 <= i < next.len() implies (#[trigger] next[i]).0 >= 1 by {
            if i < next.len() - 1 {
                assert(next[i] == queue_rest(queue)[i]);
            }
        }
        if paired(queue) {
            lemma_queue_root_defined::<C, F>(next, supply);
        } else if supply.len() > 0 {
            lemma_queue_root_defined::<C, F>(next, supply.drop_first());
        }
    }
}

/// The entries of an executable queue.
spec fn entries(queue: Seq<(usize, KeccakDigest)>) -> Seq<Entry> {
    queue.map_values(|e: (usize, KeccakDigest)| (e.0 as nat, e.1@))
}

/// Recomputes the root from a queue of nodes; nothing where the decommitments do not suffice.
fn fold_queue<C: MerkleConfig<F>, F: PrimeField>(
    start: Vec<(usize, KeccakDigest)>,
    decommitments: &Vec<KeccakDigest>,
) -> (r: Option<KeccakDigest>)
    ensures
        match r {
            Some(d) => queue_root::<C, F>(entries(start@), digests(decommitments@)) == Some(d@),
            None => queue_root::<C, F>(entries(start@), digests(decommitments@)) is None,
        },
{
    let mut queue = start;
    let mut head: usize = 0;
    let mut used: usize = 0;
    assert(entries(queue@).skip(0) =~= entries(queue@));
    assert(digests(decommitments@).skip(0) =~= digests(decommitments@));
    while head < queue.len()
        invariant
            head <= queue@.len(),
            used <= decommitments@.len(),
            queue_root::<C, F>(
                entries(queue@).skip(head as int),
                digests(decommitments@).skip(used as int),
            ) == queue_root::<C, F>(entries(start@), digests(decommitments@)),
        decreases weight(entries(queue@).skip(head as int)),
    {
        let ghost before = entries(queue@).skip(head as int);
        let ghost supply = digests(decommitments@).skip(used as int);
        let (index, hash) = queue[head];
        assert(before[0] == (index as nat, hash@));
        head += 1;
        if index == 0 {
            return None;
        }
        if index == 1 {
            return Some(hash);
        }
        if head < queue.len() {
            assert(before[1] == (queue@[head as int].0 as nat, queue@[head as int].1@));
        }
        if index % 2 == 1 && head < queue.len() && queue[head].0 == index - 1 {
            let sibling = queue[head].1;
            head += 1;
            let parent = C::hash_node(&sibling, &hash);
            queue.push((index / 2, parent));
            proof {
                lemma_weight_step::<C, F>(before, Seq::empty());
                assert(entries(queue@).skip(head as int) =~= queue_step::<C, F>(
                    before,
                    Seq::empty(),
                ));
            }
        } else {
            if used == decommitments.len() {
                return None;
            }
            let sibling = decommitments[used];
            assert(supply[0] == sibling@);
            used += 1;
            let parent = if index % 2 == 0 {
                C::hash_node(&hash, &sibling)
            } else {
                C::hash_node(&sibling, &hash)
            };
            queue.push((index / 2, parent));
            proof {
                lemma_weight_step::<C, F>(before, supply[0]);
                assert(entries(queue@).skip(head as int) =~= queue_step::<C, F>(before, supply[0]));
                assert(digests(decommitments@).skip(used as int) =~= supply.drop_first());
            }
        }
    }
    None
}

/// Hashes the opened leaves and queues them, the last one first.
fn queue_leaves<C: MerkleConfig<F>, F: PrimeField>(
    depth: u32,
    indices: &Vec<usize>,
    values: &Vec<Vec<F>>,
) -> (queue: Vec<(usize, KeccakDigest)>)
    requires
        values@.len() <= indices@.len(),
        pow2(depth as nat) <= usize::MAX,
        forall|k: int|
            indices@.len() - values@.len() <= k < indices@.len() ==> pow2(depth as nat) + #[trigger]
            indices@[k] <= usize::MAX,
    ensures
        entries(queue@) == opening_queue::<C, F>(depth as nat, indices@, rows(values@)),
{
    let first = two_to(depth as usize);
    let mut queue: Vec<(usize, KeccakDigest)> = Vec::new();
    let mut i: usize = 0;
    while i < values.len()
        invariant
            i <= values@.len(),
            values@.len() <= indices@.len(),
            first == pow2(depth as nat),
            forall|k: int|
                indices@.len() - values@.len() <= k < indices@.len() ==> pow2(depth as nat)
                    + #[trigger] indices@[k] <= usize::MAX,
            entries(queue@) == opening_queue::<C, F>(
                depth as nat,
                indices@,
                rows(values@),
            ).take(i as int),
        decreases values@.len() - i,
    {
        let tree_idx = first + indices[indices.len() - i - 1];
        let hash = C::hash_leaf(values[values.len() - i - 1].as_slice());
        let ghost before = entries(queue@);
        queue.push((tree_idx, hash));
        proof {
            let all = opening_queue::<C, F>(depth as nat, indices@, rows(values@));
            assert(rows(values@)[values@.len() - 1 - i] == vals(values@[values@.len() - 1 - i]@));
            assert(all[i as int] == (tree_idx as nat, hash@));
            assert(entries(queue@) =~= before.push((tree_idx as nat, hash@)));
            assert(all.take(i + 1) =~= all.take(i as int).push(all[i as int]));
        }
        i += 1;
    }
    assert(opening_queue::<C, F>(depth as nat, indices@, rows(values@)).take(i as int)
        =~= opening_queue::<C, F>(depth as nat, indices@, rows(values@)));
    queue
}

/// Whether the opening can be followed to a root: there is a leaf, each leaf has an index, the
/// node numbers are within range, and enough hashes are supplied.
pub open spec fn well_supplied(depth: nat, supplied: nat, indices: Seq<usize>, count: nat) -> bool {
    &&& 1 <= count <= indices.len()
    &&& pow2(depth) <= usize::MAX
    &&& forall|k: int|
        indices.len() - count <= k < indices.len() ==> pow2(depth) + #[trigger] indices[k]
            <= usize::MAX
    &&& supply_needed(opening_numbers(depth, indices, count)) <= supplied
}

/// Whether `multi_proof` shows that `values` are the leaves at `indices` under `root`, in a tree
/// of full Keccak-256 hashes.
pub fn verify_multiproof<F: PrimeField>(
    multi_proof: &EVMMultiProof,
    root: KeccakDigest,
    indices: Vec<usize>,
    values: Vec<Vec<F>>,
) -> (r: bool)
    requires
        well_supplied(
            multi_proof.depth as nat,
            multi_proof.decommitments@.len(),
            indices@,
            values@.len(),
        ),
    ensures
        r == opens::<MerkleTreeEvmParams<F>, F>(*multi_proof, root@, indices@, rows(values@)),
{
    let queue = queue_leaves::<MerkleTreeEvmParams<F>, F>(multi_proof.depth, &indices, &values);
    match fold_queue::<MerkleTreeEvmParams<F>, F>(queue, &multi_proof.decommitments) {
        Some(hash) => hash.same(&root),
        None => false,
    }
}

/// What authenticates several leaves of a tree that is hashed as `C` says. It may name the indexes
/// of its leaves. What the methods return has to be a function of their arguments.
pub trait MerkleOpening<C, F: PrimeField> {
    /// The indexes of the leaves, where the opening names them: what [`Self::leaf_indexes`]
    /// returns. An implementation in ordinary Rust leaves this as it is: some function of the
    /// opening.
    closed spec fn positions(&self) -> Option<Seq<usize>> {
        arbitrary::<spec_fn(&Self) -> Option<Seq<usize>>>()(self)
    }

    /// These are the leaves under `root`, at `indexes` where the opening names no indexes of its
    /// own: what [`Self::verify`] decides. An implementation in ordinary Rust leaves this as it is:
    /// some function of the arguments.
    closed spec fn authenticates(
        &self,
        root: Seq<u8>,
        indexes: Seq<usize>,
        leaves: Seq<Seq<nat>>,
    ) -> bool {
        arbitrary::<spec_fn(&Self, Seq<u8>, Seq<usize>, Seq<Seq<nat>>) -> bool>()(
            self,
            root,
            indexes,
            leaves,
        )
    }

    fn leaf_indexes(&self) -> (r: Option<Vec<usize>>)
        ensures
            match r {
                Some(indexes) => self.positions() == Some(indexes@),
                None => self.positions() is None,
            },
    ;

    fn verify(&self, root: &KeccakDigest, indexes: &Vec<usize>, leaves: &Vec<Vec<F>>) -> (r: bool)
        ensures
            r == self.authenticates(root@, indexes@, rows(leaves@)),
    ;
}

/// An opening shows that these are the leaves at `indexes` under `root`: it authenticates them, and
/// if it names indexes, these are the same ones.
pub open spec fn shown<C, F: PrimeField, P: MerkleOpening<C, F>>(
    opening: P,
    root: Seq<u8>,
    indexes: Seq<usize>,
    leaves: Seq<Seq<nat>>,
) -> bool {
    &&& opening.authenticates(root, indexes, leaves)
    &&& opening.positions() matches Some(own) ==> own == indexes
}

/// Whether the two lists are the same.
fn same_indexes(a: &Vec<usize>, b: &Vec<usize>) -> (r: bool)
    ensures
        r == (a@ == b@),
{
    if a.len() != b.len() {
        return false;
    }
    let mut i: usize = 0;
    while i < a.len()
        invariant
            i <= a@.len(),
            a@.len() == b@.len(),
            forall|j: int| 0 <= j < i ==> a@[j] == b@[j],
        decreases a@.len() - i,
    {
        if a[i] != b[i] {
            return false;
        }
        i += 1;
    }
    assert(a@ =~= b@);
    true
}

/// Whether an opening shows that these are the leaves at `indexes` under `root`.
pub fn shows<C, F: PrimeField, P: MerkleOpening<C, F>>(
    opening: &P,
    root: &KeccakDigest,
    indexes: &Vec<usize>,
    leaves: &Vec<Vec<F>>,
) -> (r: bool)
    ensures
        r == shown::<C, F, P>(*opening, root@, indexes@, rows(leaves@)),
{
    if !opening.verify(root, indexes, leaves) {
        return false;
    }
    match opening.leaf_indexes() {
        Some(own) => same_indexes(&own, indexes),
        None => true,
    }
}

/// An opening of one leaf for each index, with node numbers within range and enough hashes, that
/// leads to the root. It names no indexes.
impl<C: MerkleConfig<F>, F: PrimeField> MerkleOpening<C, F> for EVMMultiProof {
    open spec fn positions(&self) -> Option<Seq<usize>> {
        None
    }

    fn leaf_indexes(&self) -> (r: Option<Vec<usize>>) {
        None
    }

    open spec fn authenticates(
        &self,
        root: Seq<u8>,
        indexes: Seq<usize>,
        leaves: Seq<Seq<nat>>,
    ) -> bool {
        &&& leaves.len() == indexes.len()
        &&& well_supplied(self.depth as nat, self.decommitments@.len(), indexes, leaves.len())
        &&& opens::<C, F>(*self, root, indexes, leaves)
    }

    fn verify(&self, root: &KeccakDigest, indexes: &Vec<usize>, leaves: &Vec<Vec<F>>) -> (r: bool) {
        if leaves.len() != indexes.len() || leaves.len() == 0 {
            return false;
        }
        let first: usize = match checked_two_to(self.depth as usize) {
            Some(first) => first,
            None => {
                return false;
            },
        };
        let mut i: usize = 0;
        while i < indexes.len()
            invariant
                i <= indexes@.len(),
                first == pow2(self.depth as nat),
                forall|k: int| 0 <= k < i ==> first + #[trigger] indexes@[k] <= usize::MAX,
            decreases indexes@.len() - i,
        {
            if indexes[i] > usize::MAX - first {
                assert(pow2(self.depth as nat) + indexes@[i as int] > usize::MAX);
                return false;
            }
            i += 1;
        }
        let queue = queue_leaves::<C, F>(self.depth, indexes, leaves);
        proof {
            let start = opening_queue::<C, F>(self.depth as nat, indexes@, rows(leaves@));
            assert(start.map_values(|e: Entry| e.0) =~= opening_numbers(
                self.depth as nat,
                indexes@,
                leaves@.len(),
            ));
            vstd::arithmetic::power2::lemma_pow2_pos(self.depth as nat);
            lemma_queue_root_defined::<C, F>(start, digests(self.decommitments@));
        }
        match fold_queue::<C, F>(queue, &self.decommitments) {
            Some(hash) => hash.same(root),
            None => false,
        }
    }
}

/// The known nodes from `hi` down to `lo`, with their hashes in the tree.
spec fn known_down(tree: MerkleTree, indices: Seq<usize>, hi: nat, lo: nat) -> Seq<Entry>
    decreases hi,
{
    if hi < lo || hi == 0 {
        Seq::empty()
    } else {
        let rest = known_down(tree, indices, (hi - 1) as nat, lo);
        if known(indices, tree.leaf_nodes@.len(), hi) {
            seq![(hi, tree.node(hi))] + rest
        } else {
            rest
        }
    }
}

/// The nodes that `known_down` lists lie within its bounds.
proof fn lemma_known_down_bounds(tree: MerkleTree, indices: Seq<usize>, hi: nat, lo: nat)
    ensures
        forall|i: int|
            0 <= i < known_down(tree, indices, hi, lo).len() ==> lo <= (#[trigger] known_down(
                tree,
                indices,
                hi,
                lo,
            )[i]).0 <= hi,
    decreases hi,
{
    if hi >= lo && hi > 0 {
        lemma_known_down_bounds(tree, indices, (hi - 1) as nat, lo);
        let rest = known_down(tree, indices, (hi - 1) as nat, lo);
        let all = known_down(tree, indices, hi, lo);
        if known(indices, tree.leaf_nodes@.len(), hi) {
            assert forall|i: int| 0 <= i < all.len() implies lo <= (#[trigger] all[i]).0 <= hi by {
                if i > 0 {
                    assert(all[i] == rest[i - 1]);
                }
            }
        }
    }
}

/// One more node at the low end.
proof fn lemma_known_down_extend(tree: MerkleTree, indices: Seq<usize>, hi: nat, lo: nat)
    requires
        1 <= lo <= hi + 1,
    ensures
        known_down(tree, indices, hi, lo) == if lo <= hi && known(
            indices,
            tree.leaf_nodes@.len(),
            lo,
        ) {
            known_down(tree, indices, hi, lo + 1).push((lo, tree.node(lo)))
        } else {
            known_down(tree, indices, hi, lo + 1)
        },
    decreases hi,
{
    if lo <= hi {
        if lo < hi {
            lemma_known_down_extend(tree, indices, (hi - 1) as nat, lo);
        } else {
            assert(known_down(tree, indices, (hi - 1) as nat, lo) =~= Seq::empty());
            assert(known_down(tree, indices, hi, lo + 1) =~= Seq::empty());
        }
        assert(known_down(tree, indices, hi, lo) =~= if known(
            indices,
            tree.leaf_nodes@.len(),
            lo,
        ) {
            known_down(tree, indices, hi, lo + 1).push((lo, tree.node(lo)))
        } else {
            known_down(tree, indices, hi, lo + 1)
        });
    }
}

/// With the parents above `p` done, the known nodes below and what the proof supplies for them
/// lead to the root.
proof fn lemma_honest_queue<C: MerkleConfig<F>, F: PrimeField>(
    tree: MerkleTree,
    indices: Seq<usize>,
    p: nat,
)
    requires
        p < tree.leaf_nodes@.len(),
        tree.hashed::<C, F>(),
        known(indices, tree.leaf_nodes@.len(), 1),
    ensures
        queue_root::<C, F>(
            known_down(tree, indices, 2 * p + 1, p + 1),
            supplied_from(tree, indices, p),
        ) == Some(tree.node(1)),
    decreases p,
{
    let n = tree.leaf_nodes@.len();
    let queue = known_down(tree, indices, 2 * p + 1, p + 1);
    let supply = supplied_from(tree, indices, p);
    if p == 0 {
        assert(known_down(tree, indices, 0, 1) =~= Seq::empty());
        assert(queue =~= seq![(1nat, tree.node(1))]);
    } else {
        let q = (p - 1) as nat;
        lemma_honest_queue::<C, F>(tree, indices, q);
        let left = known(indices, n, 2 * p);
        let right = known(indices, n, 2 * p + 1);
        let below = known_down(tree, indices, (2 * p - 1) as nat, p + 1);
        assert(known(indices, n, p) == (left || right));
        assert(tree.joins::<C, F>(p));
        // Unfold the two nodes at the front, and the parent that goes to the back.
        let from_left = known_down(tree, indices, 2 * p, p + 1);
        assert(from_left == if left {
            seq![(2 * p, tree.node(2 * p))] + below
        } else {
            below
        });
        lemma_known_down_extend(tree, indices, (2 * p - 1) as nat, p);
        lemma_known_down_bounds(tree, indices, (2 * p - 1) as nat, p + 1);
        let next = known_down(tree, indices, 2 * q + 1, q + 1);
        assert(2 * q + 1 == 2 * p - 1);
        if left && right {
            assert(queue =~= seq![(2 * p + 1, tree.node(2 * p + 1)), (2 * p, tree.node(2 * p))]
                + below);
            assert(supply =~= supplied_from(tree, indices, q));
            assert(queue_step::<C, F>(queue, Seq::empty()) =~= next);
        } else if left {
            assert(queue =~= seq![(2 * p, tree.node(2 * p))] + below);
            assert(supply[0] == tree.node(2 * p + 1));
            assert(supply.drop_first() =~= supplied_from(tree, indices, q));
            assert(queue_step::<C, F>(queue, supply[0]) =~= next);
        } else if right {
            assert(queue =~= seq![(2 * p + 1, tree.node(2 * p + 1))] + below);
            assert(supply[0] == tree.node(2 * p));
            assert(supply.drop_first() =~= supplied_from(tree, indices, q));
            assert(!paired(queue)) by {
                if queue.len() > 1 {
                    assert(queue[1] == below[0]);
                }
            }
            assert(queue_step::<C, F>(queue, supply[0]) =~= next);
        } else {
            assert(queue =~= below);
            assert(supply =~= supplied_from(tree, indices, q));
            assert(queue =~= next);
        }
    }
}

/// The opened leaves, from the last one to the first.
proof fn lemma_known_leaves(tree: MerkleTree, indices: Seq<usize>, k: nat, hi: nat)
    requires
        k <= indices.len(),
        tree.leaf_nodes@.len() >= 1,
        forall|a: int, b: int| 0 <= a < b < indices.len() ==> indices[a] < indices[b],
        tree.leaf_nodes@.len() - 1 <= hi < 2 * tree.leaf_nodes@.len(),
        forall|a: int|
            0 <= a < indices.len() ==> (a < k <==> tree.leaf_nodes@.len() + #[trigger] indices[a]
                <= hi),
        forall|a: int| 0 <= a < indices.len() ==> indices[a] < tree.leaf_nodes@.len(),
    ensures
        known_down(tree, indices, hi, tree.leaf_nodes@.len()) == Seq::new(
            k,
            |i: int|
                (
                    tree.leaf_nodes@.len() + indices[k - 1 - i] as nat,
                    tree.node(tree.leaf_nodes@.len() + indices[k - 1 - i] as nat),
                ),
        ),
    decreases hi,
{
    let n = tree.leaf_nodes@.len();
    let listed = |k: nat| Seq::new(
        k,
        |i: int| (n + indices[k - 1 - i] as nat, tree.node(n + indices[k - 1 - i] as nat)),
    );
    if hi < n {
        if k > 0 {
            assert(n + indices[0] <= hi);
        }
        assert(known_down(tree, indices, hi, n) =~= listed(k));
    } else if known(indices, n, hi) {
        let a = choose|a: int| 0 <= a < indices.len() && #[trigger] indices[a] == hi - n;
        assert(a < k);
        if a < k - 1 {
            assert(indices[a] < indices[k - 1]);
        }
        let j = (k - 1) as nat;
        assert forall|b: int| 0 <= b < indices.len() implies (b < j <==> n + #[trigger] indices[b]
            <= hi - 1) by {
            if b < a {
                assert(indices[b] < indices[a]);
            }
        }
        lemma_known_leaves(tree, indices, j, (hi - 1) as nat);
        assert(listed(k) =~= seq![(hi, tree.node(hi))] + listed(j));
    } else {
        assert forall|b: int| 0 <= b < indices.len() implies (b < k <==> n + #[trigger] indices[b]
            <= hi - 1) by {
            if n + indices[b] == hi {
                assert(indices[b] == hi - n);
            }
        }
        lemma_known_leaves(tree, indices, k, (hi - 1) as nat);
        assert(known_down(tree, indices, hi, n) =~= listed(k));
    }
}

/// A node above a known one is known.
proof fn lemma_known_upwards(indices: Seq<usize>, n: nat, i: nat)
    requires
        1 <= i < 2 * n,
        known(indices, n, i),
    ensures
        known(indices, n, 1),
    decreases i,
{
    if i > 1 {
        assert(2 * (i / 2) == i || 2 * (i / 2) + 1 == i);
        assert(known(indices, n, i / 2));
        lemma_known_upwards(indices, n, i / 2);
    }
}

/// An honest opening is accepted: where the nodes of a tree hold the hashes of their children,
/// the proof that [`generate_multiproof`] makes for increasing indices shows that the leaves at
/// those indices lie under the root, and it supplies all that [`verify_multiproof`] asks for.
pub proof fn law_honest_opening<C: MerkleConfig<F>, F: PrimeField>(
    tree: MerkleTree,
    proof: EVMMultiProof,
    indices: Seq<usize>,
    values: Seq<Seq<nat>>,
)
    requires
        tree.complete(proof.depth as nat),
        tree.hashed::<C, F>(),
        digests(proof.decommitments@) == supplied_from(
            tree,
            indices,
            (tree.leaf_nodes@.len() - 1) as nat,
        ),
        indices.len() >= 1,
        values.len() == indices.len(),
        forall|a: int, b: int| 0 <= a < b < indices.len() ==> indices[a] < indices[b],
        forall|a: int| 0 <= a < indices.len() ==> indices[a] < tree.leaf_nodes@.len(),
        forall|a: int|
            0 <= a < indices.len() ==> #[trigger] tree.leaf_nodes@[indices[a] as int]@
                == C::leaf_digest(values[a]),
    ensures
        opens::<C, F>(proof, tree.node(1), indices, values),
        2 * tree.leaf_nodes@.len() <= usize::MAX ==> well_supplied(
            proof.depth as nat,
            proof.decommitments@.len(),
            indices,
            values.len(),
        ),
        2 * tree.leaf_nodes@.len() <= usize::MAX ==> MerkleOpening::<C, F>::authenticates(
            &proof,
            tree.node(1),
            indices,
            values,
        ),
{
    let n = tree.leaf_nodes@.len();
    let depth = proof.depth as nat;
    vstd::arithmetic::power2::lemma_pow2_pos(depth);
    let k = indices.len();
    let queue = opening_queue::<C, F>(depth, indices, values);
    assert(indices[0] == (n + indices[0]) - n);
    assert(known(indices, n, n + indices[0] as nat));
    lemma_known_upwards(indices, n, n + indices[0] as nat);
    lemma_known_leaves(tree, indices, k, (2 * n - 1) as nat);
    assert(queue =~= known_down(tree, indices, (2 * n - 1) as nat, n)) by {
        assert forall|i: int| 0 <= i < k implies #[trigger] queue[i] == known_down(
            tree,
            indices,
            (2 * n - 1) as nat,
            n,
        )[i] by {
            let a = k - 1 - i;
            assert(tree.leaf_nodes@[indices[a] as int]@ == C::leaf_digest(values[a]));
        }
    }
    lemma_honest_queue::<C, F>(tree, indices, (n - 1) as nat);
    lemma_queue_root_defined::<C, F>(queue, digests(proof.decommitments@));
    assert(queue.map_values(|e: Entry| e.0) =~= opening_numbers(depth, indices, k));
}

/// The hash that the next step of a queue takes from `supply`, if it takes one.
pub open spec fn next_supply(queue: Seq<Entry>, supply: Seq<Seq<u8>>) -> Seq<u8> {
    if paired(queue) {
        Seq::empty()
    } else {
        supply[0]
    }
}

/// What the next step of a queue leaves of `supply`.
pub open spec fn supply_rest(queue: Seq<Entry>, supply: Seq<Seq<u8>>) -> Seq<Seq<u8>> {
    if paired(queue) {
        supply
    } else {
        supply.drop_first()
    }
}

/// Following two queues, a step hashes two different pairs of children to the same hash.
pub open spec fn nodes_collide<C: MerkleConfig<F>, F: PrimeField>(
    one: Seq<Entry>,
    other: Seq<Entry>,
    supply_one: Seq<Seq<u8>>,
    supply_other: Seq<Seq<u8>>,
) -> bool
    decreases weight(one),
{
    if one.len() == 0 || one[0].0 <= 1 {
        false
    } else {
        let s = next_supply(one, supply_one);
        let t = next_supply(other, supply_other);
        let a = queue_children(one, s);
        let b = queue_children(other, t);
        proof {
            lemma_weight_step::<C, F>(one, s);
        }
        ||| a != b && C::node_digest(a.0, a.1) == C::node_digest(b.0, b.1)
        ||| nodes_collide::<C, F>(
            queue_step::<C, F>(one, s),
            queue_step::<C, F>(other, t),
            supply_rest(one, supply_one),
            supply_rest(other, supply_other),
        )
    }
}

/// Two openings at the same indices show two different inputs with the same hash: two leaves at
/// one index, or two pairs of children on the way to the root.
pub open spec fn openings_collide<C: MerkleConfig<F>, F: PrimeField>(
    one: EVMMultiProof,
    other: EVMMultiProof,
    indices: Seq<usize>,
    values_one: Seq<Seq<nat>>,
    values_other: Seq<Seq<nat>>,
) -> bool {
    ||| exists|a: int|
        0 <= a < values_one.len() && #[trigger] values_one[a] != values_other[a] && C::leaf_digest(
            values_one[a],
        ) == C::leaf_digest(values_other[a])
    ||| nodes_collide::<C, F>(
        opening_queue::<C, F>(one.depth as nat, indices, values_one),
        opening_queue::<C, F>(other.depth as nat, indices, values_other),
        digests(one.decommitments@),
        digests(other.decommitments@),
    )
}

/// The nodes of a queue come in falling order and span less than one level, so that the root can
/// only be the last one left.
spec fn level_order(queue: Seq<Entry>) -> bool {
    &&& queue.len() > 0
    &&& forall|i: int, j: int| 0 <= i < j < queue.len() ==> queue[i].0 > queue[j].0
    &&& queue.last().0 >= 1
    &&& queue.len() > 1 ==> queue[0].0 < 2 * queue.last().0
}

/// Steps keep the order.
proof fn lemma_level_order_step<C: MerkleConfig<F>, F: PrimeField>(
    queue: Seq<Entry>,
    supply: Seq<u8>,
)
    requires
        level_order(queue),
        queue[0].0 >= 2,
    ensures
        level_order(queue_step::<C, F>(queue, supply)),
{
    let rest = queue_rest(queue);
    let next = queue_step::<C, F>(queue, supply);
    let gone = if paired(queue) { 2int } else { 1int };
    assert(forall|i: int| 0 <= i < rest.len() ==> #[trigger] rest[i] == queue[i + gone]);
    assert forall|i: int, j: int| 0 <= i < j < next.len() implies next[i].0 > next[j].0 by {
        assert(next[i] == queue[i + gone]);
        if j < next.len() - 1 {
            assert(next[j] == queue[j + gone]);
        } else if i + gone < queue.len() - 1 {
            assert(queue[i + gone].0 > queue.last().0);
        }
    }
    if next.len() > 1 {
        assert(next[0] == queue[gone]);
        assert(queue[0].0 > queue[1].0);
        if gone == 2 {
            assert(queue[1].0 > queue[2].0);
        }
    }
}

/// Two queues over the same nodes that lead to the same root hold the same hashes, unless two
/// pairs of hashes collide on the way.
proof fn lemma_queue_binds<C: MerkleConfig<F>, F: PrimeField>(
    one: Seq<Entry>,
    other: Seq<Entry>,
    supply_one: Seq<Seq<u8>>,
    supply_other: Seq<Seq<u8>>,
)
    requires
        level_order(one),
        one.len() == other.len(),
        forall|i: int| 0 <= i < one.len() ==> (#[trigger] one[i]).0 == other[i].0,
        queue_root::<C, F>(one, supply_one) is Some,
        queue_root::<C, F>(one, supply_one) == queue_root::<C, F>(other, supply_other),
        !nodes_collide::<C, F>(one, other, supply_one, supply_other),
    ensures
        one == other,
    decreases weight(one),
{
    assert(one[0].0 == other[0].0);
    if one[0].0 == 1 {
        if one.len() > 1 {
            assert(one[0].0 > one.last().0);
        }
        assert(one =~= other);
    } else {
        if one.len() > 1 {
            assert(one[1].0 == other[1].0);
            assert(one[0].0 > one.last().0);
        }
        let s = next_supply(one, supply_one);
        let t = next_supply(other, supply_other);
        let a = queue_children(one, s);
        let b = queue_children(other, t);
        let one_next = queue_step::<C, F>(one, s);
        let other_next = queue_step::<C, F>(other, t);
        lemma_weight_step::<C, F>(one, s);
        lemma_level_order_step::<C, F>(one, s);
        assert forall|i: int| 0 <= i < one_next.len() implies (#[trigger] one_next[i]).0
            == other_next[i].0 by {
            if i < one_next.len() - 1 {
                assert(queue_rest(one)[i].0 == queue_rest(other)[i].0);
            }
        }
        lemma_queue_binds::<C, F>(
            one_next,
            other_next,
            supply_rest(one, supply_one),
            supply_rest(other, supply_other),
        );
        assert(one_next.last() == other_next.last());
        assert(C::node_digest(a.0, a.1) == C::node_digest(b.0, b.1));
        assert(a == b);
        assert forall|i: int| 0 <= i < one.len() implies one[i] == other[i] by {
            let gone = if paired(one) { 2int } else { 1int };
            if i >= gone {
                assert(one[i] == one_next[i - gone]);
                assert(other[i] == other_next[i - gone]);
            }
        }
        assert(one =~= other);
    }
}

/// An opening binds the opener: two openings that are accepted for the same increasing indices
/// under the same root, in trees of the same depth, show the same leaves, or else they show two
/// different inputs with the same hash.
pub proof fn law_opening_binds<C: MerkleConfig<F>, F: PrimeField>(
    one: EVMMultiProof,
    other: EVMMultiProof,
    root: Seq<u8>,
    indices: Seq<usize>,
    values_one: Seq<Seq<nat>>,
    values_other: Seq<Seq<nat>>,
)
    requires
        one.depth == other.depth,
        indices.len() >= 1,
        values_one.len() == indices.len(),
        values_other.len() == indices.len(),
        forall|a: int, b: int| 0 <= a < b < indices.len() ==> indices[a] < indices[b],
        forall|a: int| 0 <= a < indices.len() ==> indices[a] < pow2(one.depth as nat),
        opens::<C, F>(one, root, indices, values_one),
        opens::<C, F>(other, root, indices, values_other),
    ensures
        values_one == values_other || openings_collide::<C, F>(
            one,
            other,
            indices,
            values_one,
            values_other,
        ),
{
    if !openings_collide::<C, F>(one, other, indices, values_one, values_other) {
        let p = opening_queue::<C, F>(one.depth as nat, indices, values_one);
        let q = opening_queue::<C, F>(one.depth as nat, indices, values_other);
        vstd::arithmetic::power2::lemma_pow2_pos(one.depth as nat);
        assert(level_order(p)) by {
            assert(p[0].0 < 2 * p.last().0);
        }
        lemma_queue_binds::<C, F>(
            p,
            q,
            digests(one.decommitments@),
            digests(other.decommitments@),
        );
        assert forall|a: int| 0 <= a < values_one.len() implies values_one[a]
            == values_other[a] by {
            let i = values_one.len() - 1 - a;
            assert(p[i].1 == C::leaf_digest(values_one[a]));
            assert(q[i].1 == C::leaf_digest(values_other[a]));
        }
        assert(values_one =~= values_other);
    }
}

/// Of the proof that a tree gives for some of its leaves: other leaves are shown by it if and only
/// if they hash to the same leaf nodes, and, where no two different leaves hash to the same node,
/// if and only if they are the tree's leaves. This leaves out the case in which the two openings
/// meet different nodes with the same hash.
pub proof fn law_altered_leaf_refused<C: MerkleConfig<F>, F: PrimeField>(
    tree: MerkleTree,
    proof: EVMMultiProof,
    indices: Seq<usize>,
    values: Seq<Seq<nat>>,
    others: Seq<Seq<nat>>,
)
    requires
        tree.complete(proof.depth as nat),
        tree.hashed::<C, F>(),
        digests(proof.decommitments@) == supplied_from(
            tree,
            indices,
            (tree.leaf_nodes@.len() - 1) as nat,
        ),
        indices.len() >= 1,
        values.len() == indices.len(),
        others.len() == indices.len(),
        forall|a: int, b: int| 0 <= a < b < indices.len() ==> indices[a] < indices[b],
        forall|a: int| 0 <= a < indices.len() ==> indices[a] < tree.leaf_nodes@.len(),
        forall|a: int|
            0 <= a < indices.len() ==> #[trigger] tree.leaf_nodes@[indices[a] as int]@
                == C::leaf_digest(values[a]),
        !nodes_collide::<C, F>(
            opening_queue::<C, F>(proof.depth as nat, indices, values),
            opening_queue::<C, F>(proof.depth as nat, indices, others),
            digests(proof.decommitments@),
            digests(proof.decommitments@),
        ),
    ensures
        opens::<C, F>(proof, tree.node(1), indices, others) <==> (forall|a: int|
            0 <= a < indices.len() ==> C::leaf_digest(#[trigger] others[a]) == C::leaf_digest(
                values[a],
            )),
        !openings_collide::<C, F>(proof, proof, indices, values, others) ==> (opens::<C, F>(
            proof,
            tree.node(1),
            indices,
            others,
        ) <==> others == values),
        2 * tree.leaf_nodes@.len() <= usize::MAX ==> MerkleOpening::<C, F>::authenticates(
            &proof,
            tree.node(1),
            indices,
            others,
        ) == opens::<C, F>(proof, tree.node(1), indices, others),
{
    let p = opening_queue::<C, F>(proof.depth as nat, indices, values);
    let q = opening_queue::<C, F>(proof.depth as nat, indices, others);
    let supply = digests(proof.decommitments@);
    law_honest_opening::<C, F>(tree, proof, indices, values);
    if opens::<C, F>(proof, tree.node(1), indices, others) {
        vstd::arithmetic::power2::lemma_pow2_pos(proof.depth as nat);
        assert(level_order(p)) by {
            assert(p[0].0 < 2 * p.last().0);
        }
        lemma_queue_binds::<C, F>(p, q, supply, supply);
        assert forall|a: int| 0 <= a < indices.len() implies C::leaf_digest(#[trigger] others[a])
            == C::leaf_digest(values[a]) by {
            let i = values.len() - 1 - a;
            assert(p[i].1 == C::leaf_digest(values[a]));
            assert(q[i].1 == C::leaf_digest(others[a]));
        }
    }
    if forall|a: int|
        0 <= a < indices.len() ==> C::leaf_digest(#[trigger] others[a]) == C::leaf_digest(
            values[a],
        ) {
        assert forall|a: int| 0 <= a < indices.len() implies #[trigger] tree.leaf_nodes@[indices[a]
            as int]@ == C::leaf_digest(others[a]) by {
            assert(C::leaf_digest(others[a]) == C::leaf_digest(values[a]));
        }
        law_honest_opening::<C, F>(tree, proof, indices, others);
    }
    if !openings_collide::<C, F>(proof, proof, indices, values, others) {
        if opens::<C, F>(proof, tree.node(1), indices, others) {
            law_opening_binds::<C, F>(proof, proof, tree.node(1), indices, values, others);
        }
        if others != values {
            assert(!(others =~= values));
        }
    }
}

/// Node `k` is an opened leaf or one of its ancestors, where the leaves of a tree are the nodes
/// from `n` on: halving the number of a leaf leads to it.
pub open spec fn above_opened(indices: Seq<usize>, n: nat, k: nat) -> bool {
    exists|a: int, e: nat|
        0 <= a < indices.len() && k == #[trigger] ancestor(n + indices[a] as nat, e)
}

/// The node `e` levels above node `i`.
pub open spec fn ancestor(i: nat, e: nat) -> nat {
    i / pow2(e)
}

/// The node next to node `k` under the same parent.
pub open spec fn sibling(k: nat) -> nat {
    if k % 2 == 0 {
        k + 1
    } else {
        (k - 1) as nat
    }
}

/// A node is known exactly if it is an opened leaf or one of its ancestors.
proof fn lemma_known_above(indices: Seq<usize>, n: nat, k: nat)
    requires
        1 <= k < 2 * n,
        forall|a: int| 0 <= a < indices.len() ==> #[trigger] indices[a] < n,
    ensures
        known(indices, n, k) <==> above_opened(indices, n, k),
    decreases 2 * n - k,
{
    vstd::arithmetic::power2::lemma2_to64();
    if known(indices, n, k) {
        if k >= n {
            let a = choose|a: int| 0 <= a < indices.len() && #[trigger] indices[a] == k - n;
            assert(k == ancestor(n + indices[a] as nat, 0));
        } else {
            let child = if known(indices, n, 2 * k) {
                2 * k
            } else {
                2 * k + 1
            };
            lemma_known_above(indices, n, child);
            let (a, e) = choose|a: int, e: nat|
                0 <= a < indices.len() && child == #[trigger] ancestor(n + indices[a] as nat, e);
            lemma_ancestor_step(n + indices[a] as nat, e);
            assert(k == ancestor(n + indices[a] as nat, e + 1));
        }
    }
    if above_opened(indices, n, k) {
        let (a, e) = choose|a: int, e: nat|
            0 <= a < indices.len() && k == #[trigger] ancestor(n + indices[a] as nat, e);
        lemma_ancestor_known(indices, n, a, e);
    }
}

/// One level further up the number is halved.
proof fn lemma_ancestor_step(i: nat, e: nat)
    ensures
        ancestor(i, e + 1) == ancestor(i, e) / 2,
{
    vstd::arithmetic::power2::lemma_pow2_unfold(e + 1);
    vstd::arithmetic::power2::lemma_pow2_pos(e);
    vstd::arithmetic::div_mod::lemma_div_denominator(i as int, pow2(e) as int, 2);
    assert(pow2(e) * 2 == pow2(e + 1));
}

/// An ancestor of an opened leaf is known.
proof fn lemma_ancestor_known(indices: Seq<usize>, n: nat, a: int, e: nat)
    requires
        0 <= a < indices.len(),
        indices[a] < n,
        ancestor(n + indices[a] as nat, e) >= 1,
    ensures
        ancestor(n + indices[a] as nat, e) < 2 * n,
        known(indices, n, ancestor(n + indices[a] as nat, e)),
    decreases e,
{
    let leaf = n + indices[a] as nat;
    vstd::arithmetic::power2::lemma2_to64();
    if e == 0 {
        assert(pow2(0) == 1);
        vstd::arithmetic::div_mod::lemma_div_basics(leaf as int);
        assert(indices[a] == leaf - n);
    } else {
        let d = (e - 1) as nat;
        lemma_ancestor_step(leaf, d);
        lemma_ancestor_known(indices, n, a, d);
        let child = ancestor(leaf, d);
        let k = ancestor(leaf, e);
        assert(child == 2 * k || child == 2 * k + 1);
        assert(k < n);
    }
}

/// The nodes whose hashes a proof supplies, for the parents from `i` down to the root.
spec fn supplied_nodes(indices: Seq<usize>, n: nat, i: nat) -> Seq<nat>
    decreases i,
{
    if i == 0 {
        Seq::empty()
    } else {
        let rest = supplied_nodes(indices, n, (i - 1) as nat);
        let left = known(indices, n, 2 * i);
        let right = known(indices, n, 2 * i + 1);
        if left && !right {
            seq![2 * i + 1] + rest
        } else if !left && right {
            seq![2 * i] + rest
        } else {
            rest
        }
    }
}

/// The numbers of these nodes fall, and they are those of the unknown nodes with a known sibling.
proof fn lemma_supplied_nodes(tree: MerkleTree, indices: Seq<usize>, i: nat)
    ensures
        ({
            let n = tree.leaf_nodes@.len();
            let nodes = supplied_nodes(indices, n, i);
            let supply = supplied_from(tree, indices, i);
            &&& supply.len() == nodes.len()
            &&& forall|j: int| 0 <= j < nodes.len() ==> supply[j] == tree.node(#[trigger] nodes[j])
            &&& forall|j: int, l: int| 0 <= j < l < nodes.len() ==> nodes[j] > nodes[l]
            &&& forall|j: int| 0 <= j < nodes.len() ==> 2 <= #[trigger] nodes[j] <= 2 * i + 1
            &&& forall|k: nat|
                2 <= k <= 2 * i + 1 ==> (#[trigger] nodes.contains(k) <==> !known(indices, n, k)
                    && known(indices, n, sibling(k)))
        }),
    decreases i,
{
    let n = tree.leaf_nodes@.len();
    let nodes = supplied_nodes(indices, n, i);
    if i > 0 {
        let j = (i - 1) as nat;
        lemma_supplied_nodes(tree, indices, j);
        let rest = supplied_nodes(indices, n, j);
        let left = known(indices, n, 2 * i);
        let right = known(indices, n, 2 * i + 1);
        assert(sibling(2 * i) == 2 * i + 1);
        assert(sibling(2 * i + 1) == 2 * i);
        let supply = supplied_from(tree, indices, i);
        assert forall|l: int| 0 <= l < nodes.len() implies supply[l] == tree.node(
            #[trigger] nodes[l],
        ) by {
            if left == right {
                assert(supply =~= supplied_from(tree, indices, j));
                assert(nodes[l] == rest[l]);
            } else if l > 0 {
                assert(nodes[l] == rest[l - 1]);
            }
        }
        assert forall|k: nat| 2 <= k <= 2 * i + 1 implies (#[trigger] nodes.contains(k) <==> !known(
            indices,
            n,
            k,
        ) && known(indices, n, sibling(k))) by {
            if left != right {
                assert(nodes =~= seq![nodes[0]] + rest);
                if rest.contains(k) {
                    let l = choose|l: int| 0 <= l < rest.len() && rest[l] == k;
                    assert(nodes[l + 1] == k);
                }
                if nodes.contains(k) && k != nodes[0] {
                    let l = choose|l: int| 0 <= l < nodes.len() && nodes[l] == k;
                    assert(rest[l - 1] == k);
                }
                assert(nodes.contains(nodes[0]));
            }
            if k >= 2 * i {
                if rest.contains(k) {
                    let l = choose|l: int| 0 <= l < rest.len() && rest[l] == k;
                    assert(rest[l] <= 2 * j + 1);
                }
            } else {
                assert(k <= 2 * j + 1);
            }
        }
    } else {
        assert(supplied_from(tree, indices, 0).len() == 0);
    }
}

/// The hashes are those of the nodes with these numbers, which fall and are just the numbers of
/// the nodes that are neither opened leaves nor above one, while their siblings are.
pub open spec fn lists_decommitments(
    tree: MerkleTree,
    indices: Seq<usize>,
    hashes: Seq<Seq<u8>>,
    nodes: Seq<nat>,
) -> bool {
    let n = tree.leaf_nodes@.len();
    &&& hashes.len() == nodes.len()
    &&& forall|j: int| 0 <= j < nodes.len() ==> hashes[j] == tree.node(#[trigger] nodes[j])
    &&& forall|j: int, l: int| 0 <= j < l < nodes.len() ==> nodes[j] > nodes[l]
    &&& forall|k: nat| #[trigger]
        nodes.contains(k) <==> 2 <= k < 2 * n && !above_opened(indices, n, k) && above_opened(
            indices,
            n,
            sibling(k),
        )
}

/// What a proof supplies is the hashes of exactly those nodes that are not known while their
/// siblings are, from the highest number to the lowest, and none besides.
pub proof fn law_decommitments(tree: MerkleTree, indices: Seq<usize>)
    requires
        tree.leaf_nodes@.len() >= 1,
        forall|a: int| 0 <= a < indices.len() ==> #[trigger] indices[a] < tree.leaf_nodes@.len(),
    ensures
        exists|nodes: Seq<nat>| #[trigger]
            lists_decommitments(
                tree,
                indices,
                supplied_from(tree, indices, (tree.leaf_nodes@.len() - 1) as nat),
                nodes,
            ),
{
    let n = tree.leaf_nodes@.len();
    let i = (n - 1) as nat;
    let nodes = supplied_nodes(indices, n, i);
    lemma_supplied_nodes(tree, indices, i);
    assert forall|k: nat| #[trigger] nodes.contains(k) <==> 2 <= k < 2 * n && !above_opened(
        indices,
        n,
        k,
    ) && above_opened(indices, n, sibling(k)) by {
        if 2 <= k < 2 * n {
            lemma_known_above(indices, n, k);
            lemma_known_above(indices, n, sibling(k));
        } else if nodes.contains(k) {
            let l = choose|l: int| 0 <= l < nodes.len() && nodes[l] == k;
            assert(2 <= nodes[l] <= 2 * i + 1);
        }
    }
    assert(lists_decommitments(tree, indices, supplied_from(tree, indices, i), nodes));
}

/// The numbers of the entries.
spec fn numbers_of(queue: Seq<Entry>) -> Seq<nat> {
    queue.map_values(|e: Entry| e.0)
}

/// For the parents from `p` down, just as many hashes are supplied as are taken.
proof fn lemma_supply_is_needed(tree: MerkleTree, indices: Seq<usize>, p: nat)
    requires
        p < tree.leaf_nodes@.len(),
    ensures
        supply_needed(numbers_of(known_down(tree, indices, 2 * p + 1, p + 1))) == supplied_from(
            tree,
            indices,
            p,
        ).len(),
    decreases p,
{
    let n = tree.leaf_nodes@.len();
    let queue = known_down(tree, indices, 2 * p + 1, p + 1);
    let numbers = numbers_of(queue);
    if p == 0 {
        assert(known_down(tree, indices, 0, 1) =~= Seq::empty());
        assert(numbers.len() == 0 || numbers[0] == 1);
    } else {
        let q = (p - 1) as nat;
        lemma_supply_is_needed(tree, indices, q);
        let left = known(indices, n, 2 * p);
        let right = known(indices, n, 2 * p + 1);
        let below = known_down(tree, indices, (2 * p - 1) as nat, p + 1);
        assert(known(indices, n, p) == (left || right));
        let from_left = known_down(tree, indices, 2 * p, p + 1);
        assert(from_left == if left {
            seq![(2 * p, tree.node(2 * p))] + below
        } else {
            below
        });
        lemma_known_down_extend(tree, indices, (2 * p - 1) as nat, p);
        lemma_known_down_bounds(tree, indices, (2 * p - 1) as nat, p + 1);
        let next = known_down(tree, indices, 2 * q + 1, q + 1);
        assert(2 * q + 1 == 2 * p - 1);
        if left && right {
            assert(queue =~= seq![(2 * p + 1, tree.node(2 * p + 1)), (2 * p, tree.node(2 * p))]
                + below);
            assert(numbers[0] == 2 * p + 1 && numbers[1] == 2 * p);
            assert(numbers_step(numbers) =~= numbers_of(next));
        } else if left {
            assert(queue =~= seq![(2 * p, tree.node(2 * p))] + below);
            assert(numbers[0] == 2 * p);
            assert(numbers_step(numbers) =~= numbers_of(next));
        } else if right {
            assert(queue =~= seq![(2 * p + 1, tree.node(2 * p + 1))] + below);
            assert(numbers[0] == 2 * p + 1);
            assert(numbers.len() > 1 ==> numbers[1] != 2 * p) by {
                if queue.len() > 1 {
                    assert(queue[1] == below[0]);
                }
            }
            assert(numbers_step(numbers) =~= numbers_of(next));
        } else {
            assert(queue =~= below);
            assert(queue =~= next);
        }
    }
}

/// A proof supplies just as many hashes as the check of the opening takes from it, so that none is
/// left over.
pub proof fn law_decommitments_are_taken(tree: MerkleTree, indices: Seq<usize>, depth: nat)
    requires
        tree.complete(depth),
        forall|a: int, b: int| 0 <= a < b < indices.len() ==> indices[a] < indices[b],
        forall|a: int| 0 <= a < indices.len() ==> indices[a] < tree.leaf_nodes@.len(),
    ensures
        supplied_from(tree, indices, (tree.leaf_nodes@.len() - 1) as nat).len() == supply_needed(
            opening_numbers(depth, indices, indices.len()),
        ),
{
    let n = tree.leaf_nodes@.len();
    vstd::arithmetic::power2::lemma_pow2_pos(depth);
    lemma_known_leaves(tree, indices, indices.len(), (2 * n - 1) as nat);
    lemma_supply_is_needed(tree, indices, (n - 1) as nat);
    assert(numbers_of(known_down(tree, indices, (2 * n - 1) as nat, n)) =~= opening_numbers(
        depth,
        indices,
        indices.len(),
    ));
}

/// The nodes of a tree: the inner ones, from the root on, and then the leaves.
pub proof fn law_node(tree: MerkleTree, depth: nat, i: int)
    requires
        tree.complete(depth),
    ensures
        0 <= i < tree.non_leaf_nodes@.len() ==> tree.node((i + 1) as nat)
            == tree.non_leaf_nodes@[i]@,
        0 <= i < tree.leaf_nodes@.len() ==> tree.node((pow2(depth) + i) as nat)
            == tree.leaf_nodes@[i]@,
{
}

/// How the root is recomputed. The node at the front of the queue is taken out: the root is done; a
/// left child is hashed with the next hash of the proof on its right; a right child is hashed with
/// its sibling on the left, where that is next in the queue, and else with the next hash of the
/// proof. Its parent goes to the back. Without a node or a hash there is no root.
pub proof fn law_root_recomputed<C: MerkleConfig<F>, F: PrimeField>(
    k: nat,
    hash: Seq<u8>,
    queue: Seq<Entry>,
    given: Seq<u8>,
    supply: Seq<Seq<u8>>,
)
    requires
        k >= 1,
    ensures
        ({
            let all = seq![(k, hash)] + queue;
            let more = seq![given] + supply;
            let pair = queue.len() > 0 && queue[0].0 == k - 1;
            &&& queue_root::<C, F>(Seq::empty(), supply) is None
            &&& k == 1 ==> queue_root::<C, F>(all, supply) == Some(hash)
            &&& k > 1 && k % 2 == 0 ==> queue_root::<C, F>(all, more) == queue_root::<C, F>(
                queue.push((k / 2, C::node_digest(hash, given))),
                supply,
            )
            &&& k > 1 && k % 2 == 1 && pair ==> queue_root::<C, F>(all, supply) == queue_root::<
                C,
                F,
            >(
                queue.drop_first().push((k / 2, C::node_digest(queue[0].1, hash))),
                supply,
            )
            &&& k > 1 && k % 2 == 1 && !pair ==> queue_root::<C, F>(all, more) == queue_root::<
                C,
                F,
            >(queue.push((k / 2, C::node_digest(given, hash))), supply)
            &&& k > 1 && !(k % 2 == 1 && pair) ==> queue_root::<C, F>(all, Seq::empty()) is None
        }),
{
    let all = seq![(k, hash)] + queue;
    let more = seq![given] + supply;
    assert(all.drop_first() =~= queue);
    assert(more.drop_first() =~= supply);
    assert(all.drop_first().drop_first() =~= queue.drop_first());
    if queue.len() > 0 {
        assert(all[1] == queue[0]);
    }
}

/// An opening shows the root exactly if recomputing it gives this root, from the leaves with the
/// highest indices down, leaf `i` of a tree with `depth` levels being node `2^depth + i`.
pub proof fn law_opening_starts<C: MerkleConfig<F>, F: PrimeField>(
    proof: EVMMultiProof,
    root: Seq<u8>,
    indices: Seq<usize>,
    values: Seq<Seq<nat>>,
)
    requires
        indices.len() >= values.len(),
    ensures
        opens::<C, F>(proof, root, indices, values) <==> queue_root::<C, F>(
            Seq::new(
                values.len(),
                |i: int|
                    (
                        pow2(proof.depth as nat) + indices[indices.len() - 1 - i] as nat,
                        C::leaf_digest(values[values.len() - 1 - i]),
                    ),
            ),
            proof.decommitments@.map_values(|d: KeccakDigest| d@),
        ) == Some(root),
        MerkleOpening::<C, F>::authenticates(&proof, root, indices, values) <==> {
            &&& values.len() == indices.len()
            &&& values.len() > 0
            &&& pow2(proof.depth as nat) <= usize::MAX
            &&& forall|k: int|
                0 <= k < indices.len() ==> pow2(proof.depth as nat) + #[trigger] indices[k]
                    <= usize::MAX
            &&& opens::<C, F>(proof, root, indices, values)
        },
        MerkleOpening::<C, F>::positions(&proof) is None,
{
    let depth = proof.depth as nat;
    let queue = opening_queue::<C, F>(depth, indices, values);
    assert(queue =~= Seq::new(
        values.len(),
        |i: int|
            (
                pow2(depth) + indices[indices.len() - 1 - i] as nat,
                C::leaf_digest(values[values.len() - 1 - i]),
            ),
    ));
    if values.len() > 0 {
        vstd::arithmetic::power2::lemma_pow2_pos(depth);
        lemma_queue_root_defined::<C, F>(queue, digests(proof.decommitments@));
        assert(queue.map_values(|e: Entry| e.0) =~= opening_numbers(depth, indices, values.len()));
    }
}

} // verus!
