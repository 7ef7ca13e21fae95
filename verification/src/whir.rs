//! What is proved, and the parts of a proof that are not in the transcript.
use crate::evm_merkle::EVMMultiProof;
use crate::field::{vals, PrimeField};
use crate::poly::MultilinearPoint;
use vstd::prelude::*;

verus! {

/// The claim that the committed polynomial takes these values at these points.
#[derive(Debug, Clone)]
pub struct Statement<F> {
    pub points: Vec<MultilinearPoint<F>>,
    pub evaluations: Vec<F>,
}

/// The coordinates of each point.
pub open spec fn point_coords<F: PrimeField>(points: Seq<MultilinearPoint<F>>) -> Seq<Seq<nat>> {
    points.map_values(|x: MultilinearPoint<F>| x.coords())
}

impl<F: PrimeField> Statement<F> {
    /// The coordinates of the points.
    pub open spec fn coords(&self) -> Seq<Seq<nat>> {
        point_coords(self.points@)
    }

    /// The claimed values.
    pub open spec fn values(&self) -> Seq<nat> {
        vals(self.evaluations@)
    }

    /// The points have `n` coordinates each.
    pub open spec fn over(&self, n: nat) -> bool {
        forall|i: int| 0 <= i < self.points@.len() ==> (#[trigger] self.points@[i]).0@.len() == n
    }

    /// Whether the points have `n` coordinates each.
    pub fn is_over(&self, n: usize) -> (r: bool)
        ensures
            r == self.over(n as nat),
    {
        let mut i: usize = 0;
        while i < self.points.len()
            invariant
                i <= self.points@.len(),
                forall|j: int| 0 <= j < i ==> (#[trigger] self.points@[j]).0@.len() == n,
            decreases self.points@.len() - i,
        {
            if self.points[i].0.len() != n {
                return false;
            }
            i += 1;
        }
        true
    }
}

/// An opening of the queried leaves for each round, with the leaves.
pub struct WhirProof<P, F>(pub Vec<(P, Vec<Vec<F>>)>);

/// The same with openings that an EVM contract can check.
pub struct EVMWhirProof<F>(pub Vec<(EVMMultiProof, Vec<Vec<F>>)>);

/// The bytes that a list of leaves takes: a count, and for each leaf a count and its elements.
pub open spec fn leaves_size(leaves: Seq<nat>, width: nat) -> nat
    decreases leaves.len(),
{
    if leaves.len() == 0 {
        8
    } else {
        leaves_size(leaves.drop_last(), width) + 8 + leaves.last() * width
    }
}

/// How many elements each leaf has.
pub open spec fn leaf_lens<F>(leaves: Seq<Vec<F>>) -> Seq<nat> {
    leaves.map_values(|leaf: Vec<F>| leaf@.len())
}

/// The bytes that the first `n` rounds of a proof take, where the opening of round `i` takes
/// `openings[i]` bytes.
pub open spec fn rounds_size<P, F>(
    rounds: Seq<(P, Vec<Vec<F>>)>,
    openings: Seq<usize>,
    width: nat,
    n: nat,
) -> nat
    decreases n,
{
    if n == 0 {
        8
    } else {
        rounds_size(rounds, openings, width, (n - 1) as nat) + openings[n - 1] as nat + leaves_size(
            leaf_lens(rounds[n - 1].1@),
            width,
        )
    }
}

/// Sizes only grow with more leaves.
proof fn lemma_leaves_size_grows(leaves: Seq<nat>, width: nat, n: int)
    requires
        0 <= n <= leaves.len(),
    ensures
        leaves_size(leaves.take(n), width) <= leaves_size(leaves, width),
    decreases leaves.len(),
{
    if n < leaves.len() {
        lemma_leaves_size_grows(leaves.drop_last(), width, n);
        assert(leaves.drop_last().take(n) =~= leaves.take(n));
        assert(leaves.last() * width >= 0) by (nonlinear_arith);
    } else {
        assert(leaves.take(n) =~= leaves);
    }
}

/// Sizes only grow with more rounds.
proof fn lemma_rounds_size_grows<P, F>(
    rounds: Seq<(P, Vec<Vec<F>>)>,
    openings: Seq<usize>,
    width: nat,
    m: nat,
    n: nat,
)
    requires
        m <= n,
    ensures
        rounds_size(rounds, openings, width, m) <= rounds_size(rounds, openings, width, n),
    decreases n,
{
    if m < n {
        lemma_rounds_size_grows(rounds, openings, width, m, (n - 1) as nat);
    }
}

/// One more leaf of `k` elements, at any place among any number of leaves, takes eight bytes for
/// its count and `width` bytes for each element; the list itself takes eight.
pub proof fn law_leaf_adds(leaves: Seq<nat>, width: nat, i: int, k: nat)
    requires
        0 <= i <= leaves.len(),
    ensures
        leaves_size(Seq::empty(), width) == 8,
        leaves_size(leaves.insert(i, k), width) == leaves_size(leaves, width) + 8 + k * width,
    decreases leaves.len(),
{
    let more = leaves.insert(i, k);
    if i == leaves.len() {
        assert(more.drop_last() =~= leaves);
    } else {
        law_leaf_adds(leaves.drop_last(), width, i, k);
        assert(more.drop_last() =~= leaves.drop_last().insert(i, k));
        assert(more.last() == leaves.last());
    }
}

/// The first rounds take what they take, whatever the later ones are.
proof fn lemma_rounds_size_prefix<P, F>(
    rounds: Seq<(P, Vec<Vec<F>>)>,
    openings: Seq<usize>,
    others: Seq<(P, Vec<Vec<F>>)>,
    other_openings: Seq<usize>,
    width: nat,
    n: nat,
)
    requires
        forall|i: int| 0 <= i < n ==> #[trigger] rounds[i] == others[i],
        forall|i: int| 0 <= i < n ==> #[trigger] openings[i] == other_openings[i],
    ensures
        rounds_size(rounds, openings, width, n) == rounds_size(others, other_openings, width, n),
    decreases n,
{
    if n > 0 {
        lemma_rounds_size_prefix(
            rounds,
            openings,
            others,
            other_openings,
            width,
            (n - 1) as nat,
        );
        assert(rounds[n - 1] == others[n - 1]);
        assert(openings[n - 1] == other_openings[n - 1]);
    }
}

/// A proof without rounds takes eight bytes, and one more round without leaves takes the bytes of
/// its opening and eight for the count of its leaves.
pub proof fn law_round_adds<P, F>(
    rounds: Seq<(P, Vec<Vec<F>>)>,
    openings: Seq<usize>,
    width: nat,
    opening: usize,
    round: (P, Vec<Vec<F>>),
)
    requires
        openings.len() == rounds.len(),
        round.1@.len() == 0,
    ensures
        rounds_size(rounds, openings, width, 0) == 8,
        rounds_size(rounds.push(round), openings.push(opening), width, rounds.len() + 1)
            == rounds_size(rounds, openings, width, rounds.len()) + opening + 8,
{
    let n = rounds.len();
    lemma_rounds_size_prefix(
        rounds.push(round),
        openings.push(opening),
        rounds,
        openings,
        width,
        n,
    );
    assert(rounds.push(round)[n as int] == round);
    assert(openings.push(opening)[n as int] == opening);
    assert(leaf_lens(round.1@) =~= Seq::<nat>::empty());
    law_leaf_adds(Seq::empty(), width, 0, 0);
}

/// One more leaf in round `r`, behind the others, takes eight bytes and `width` for each of its
/// elements, however many leaves and rounds there are; and the size of an opening counts as it is.
pub proof fn law_proof_leaf_adds<P, F>(
    rounds: Seq<(P, Vec<Vec<F>>)>,
    openings: Seq<usize>,
    width: nat,
    r: int,
    more: Vec<Vec<F>>,
    leaf: Vec<F>,
    opening: usize,
    n: nat,
)
    requires
        0 <= r < n <= rounds.len(),
        openings.len() == rounds.len(),
        more@ == rounds[r].1@.push(leaf),
    ensures
        rounds_size(rounds.update(r, (rounds[r].0, more)), openings, width, n) == rounds_size(
            rounds,
            openings,
            width,
            n,
        ) + 8 + leaf@.len() * width,
        rounds_size(rounds, openings.update(r, opening), width, n) + openings[r] == rounds_size(
            rounds,
            openings,
            width,
            n,
        ) + opening,
    decreases n,
{
    let longer = rounds.update(r, (rounds[r].0, more));
    let changed = openings.update(r, opening);
    if r < n - 1 {
        law_proof_leaf_adds(rounds, openings, width, r, more, leaf, opening, (n - 1) as nat);
        assert(longer[n - 1] == rounds[n - 1]);
        assert(changed[n - 1] == openings[n - 1]);
    } else {
        lemma_rounds_size_prefix(longer, openings, rounds, openings, width, (n - 1) as nat);
        lemma_rounds_size_prefix(rounds, changed, rounds, openings, width, (n - 1) as nat);
        let lens = leaf_lens(rounds[r].1@);
        assert(leaf_lens(more@) =~= lens.insert(lens.len() as int, leaf@.len()));
        law_leaf_adds(lens, width, lens.len() as int, leaf@.len());
        assert(longer[n - 1] == (rounds[r].0, more));
        assert(changed[n - 1] == opening);
    }
}

/// What a statement claims: value `i` at the point with the coordinates of point `i`; and it is
/// about polynomials in `n` variables exactly if every point has `n` coordinates.
pub proof fn law_statement<F: PrimeField>(statement: Statement<F>, n: nat, i: int, j: int)
    ensures
        statement.coords().len() == statement.points@.len(),
        statement.values().len() == statement.evaluations@.len(),
        0 <= i < statement.points@.len() ==> statement.coords()[i].len()
            == statement.points@[i].0@.len(),
        0 <= i < statement.points@.len() && 0 <= j < statement.points@[i].0@.len()
            ==> statement.coords()[i][j] == statement.points@[i].0@[j].val(),
        0 <= i < statement.evaluations@.len() ==> statement.values()[i]
            == statement.evaluations@[i].val(),
        statement.over(n) && 0 <= i < statement.points@.len() ==> statement.coords()[i].len() == n,
        !statement.over(n) ==> exists|k: int|
            0 <= k < statement.coords().len() && (#[trigger] statement.coords()[k]).len() != n,
{
    if !statement.over(n) {
        let k = choose|k: int|
            0 <= k < statement.points@.len() && (#[trigger] statement.points@[k]).0@.len() != n;
        assert(statement.coords()[k].len() != n);
    }
}

/// The bytes that a list of leaves takes.
fn leaves_bytes<F: PrimeField>(leaves: &Vec<Vec<F>>) -> (r: usize)
    requires
        leaves_size(leaf_lens(leaves@), F::byte_len()) <= usize::MAX,
    ensures
        r == leaves_size(leaf_lens(leaves@), F::byte_len()),
{
    let width: usize = F::encoded_len();
    let ghost lens = leaf_lens(leaves@);
    let mut size: usize = 8;
    let mut i: usize = 0;
    while i < leaves.len()
        invariant
            i <= leaves@.len(),
            width == F::byte_len(),
            lens == leaf_lens(leaves@),
            leaves_size(lens, width as nat) <= usize::MAX,
            size == leaves_size(lens.take(i as int), width as nat),
        decreases leaves@.len() - i,
    {
        proof {
            lemma_leaves_size_grows(lens, width as nat, i + 1);
            assert(lens.take(i + 1).drop_last() =~= lens.take(i as int));
            assert(lens.take(i + 1).last() == leaves@[i as int]@.len());
            assert(leaves@[i as int]@.len() * width >= 0) by (nonlinear_arith);
        }
        size = size + 8 + leaves[i].len() * width;
        i += 1;
    }
    assert(lens.take(i as int) =~= lens);
    size
}

/// The size of a proof in bytes: the transcript, and the openings and leaves with a count before
/// each list. `openings` are the sizes of the openings.
pub fn whir_proof_size<P, F: PrimeField>(
    transcript: &[u8],
    whir_proof: &WhirProof<P, F>,
    openings: &Vec<usize>,
) -> (r: usize)
    requires
        openings@.len() == whir_proof.0@.len(),
        transcript@.len() + rounds_size(
            whir_proof.0@,
            openings@,
            F::byte_len(),
            whir_proof.0@.len(),
        ) <= usize::MAX,
    ensures
        r == transcript@.len() + rounds_size(
            whir_proof.0@,
            openings@,
            F::byte_len(),
            whir_proof.0@.len(),
        ),
{
    let ghost rounds = whir_proof.0@;
    let mut size: usize = 8;
    let mut i: usize = 0;
    while i < whir_proof.0.len()
        invariant
            i <= rounds.len(),
            rounds == whir_proof.0@,
            openings@.len() == rounds.len(),
            rounds_size(rounds, openings@, F::byte_len(), rounds.len()) <= usize::MAX,
            size == rounds_size(rounds, openings@, F::byte_len(), i as nat),
        decreases rounds.len() - i,
    {
        proof {
            lemma_rounds_size_grows(
                rounds,
                openings@,
                F::byte_len(),
                (i + 1) as nat,
                rounds.len(),
            );
        }
        size = size + openings[i] + leaves_bytes(&whir_proof.0[i].1);
        i += 1;
    }
    transcript.len() + size
}

} // verus!
