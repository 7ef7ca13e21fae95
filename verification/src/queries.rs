//! The positions at which a verifier looks into a committed word.
use rand::{Rng, SeedableRng};
use vstd::prelude::*;

verus! {

/// `rand_chacha::ChaCha20Rng`: a generator of random numbers that a seed determines.
#[verifier::external_type_specification]
#[verifier::external_body]
pub struct ExChaCha20Rng(rand_chacha::ChaCha20Rng);

/// The seed of a generator.
pub uninterp spec fn chacha_seed(generator: rand_chacha::ChaCha20Rng) -> Seq<u8>;

/// The bounds below which numbers were drawn from a generator so far.
pub uninterp spec fn chacha_bounds(generator: rand_chacha::ChaCha20Rng) -> Seq<usize>;

/// The number that the last of these draws from a generator with this seed gives, on a machine
/// with words of `word_bits` bits.
pub uninterp spec fn chacha_draw(seed: Seq<u8>, bounds: Seq<usize>, word_bits: u32) -> usize;

/// `rand::SeedableRng::from_seed` of `rand_chacha::ChaCha20Rng`: a generator from which nothing
/// was drawn.
#[verifier::external_body]
fn chacha_from_seed(seed: [u8; 32]) -> (generator: rand_chacha::ChaCha20Rng)
    ensures
        chacha_seed(generator) == seed@,
        chacha_bounds(generator) == Seq::<usize>::empty(),
{
    rand_chacha::ChaCha20Rng::from_seed(seed)
}

/// `rand::Rng::gen_range` of `rand_chacha::ChaCha20Rng`, from zero up to a positive bound: a
/// number below the bound, which the seed, the bounds of the draws so far and the size of a machine
/// word determine.
#[verifier::external_body]
fn chacha_gen_range(generator: &mut rand_chacha::ChaCha20Rng, bound: usize) -> (x: usize)
    requires
        bound > 0,
    ensures
        x < bound,
        x == chacha_draw(
            chacha_seed(*old(generator)),
            chacha_bounds(*old(generator)).push(bound),
            usize::BITS,
        ),
        chacha_seed(*final(generator)) == chacha_seed(*old(generator)),
        chacha_bounds(*final(generator)) == chacha_bounds(*old(generator)).push(bound),
{
    generator.gen_range(0..bound)
}

/// Number `i` below `bound` that the seed gives. A drawn number lies below its bound, so that the
/// remainder is the number itself.
pub open spec fn draw(seed: Seq<u8>, bound: usize, i: nat) -> usize {
    (chacha_draw(seed, Seq::new(i + 1, |j: int| bound), usize::BITS) % bound) as usize
}

/// The first `n` numbers below `bound` that the seed gives.
pub open spec fn draws(seed: Seq<u8>, bound: usize, n: nat) -> Seq<usize> {
    Seq::new(n, |i: int| draw(seed, bound, i as nat))
}

/// Each number is greater than the one before it.
pub open spec fn increasing(s: Seq<usize>) -> bool {
    forall|i: int, j: int| 0 <= i < j < s.len() ==> s[i] < s[j]
}

/// The numbers increase and lie below `bound`.
pub open spec fn increasing_below(s: Seq<usize>, bound: nat) -> bool {
    increasing(s) && forall|i: int| 0 <= i < s.len() ==> #[trigger] s[i] < bound
}

/// `x` in its place among increasing numbers.
pub open spec fn placed(s: Seq<usize>, x: usize) -> Seq<usize>
    decreases s.len(),
{
    if s.len() == 0 || s.last() < x {
        s.push(x)
    } else if s.last() == x {
        s
    } else {
        placed(s.drop_last(), x).push(s.last())
    }
}

/// The numbers that occur in `s`, in increasing order.
pub open spec fn distinct(s: Seq<usize>) -> Seq<usize>
    decreases s.len(),
{
    if s.len() == 0 {
        s
    } else {
        placed(distinct(s.drop_last()), s.last())
    }
}

/// Placing a number keeps the others and the order.
proof fn lemma_placed(s: Seq<usize>, x: usize)
    requires
        increasing(s),
    ensures
        increasing(placed(s, x)),
        placed(s, x).len() <= s.len() + 1,
        forall|y: usize| #[trigger] placed(s, x).contains(y) <==> s.contains(y) || y == x,
    decreases s.len(),
{
    if s.len() == 0 || s.last() < x {
        let t = s.push(x);
        assert(t[t.len() - 1] == x);
        assert forall|y: usize| #[trigger] t.contains(y) <==> s.contains(y) || y == x by {
            if s.contains(y) {
                let i = choose|i: int| 0 <= i < s.len() && s[i] == y;
                assert(t[i] == y);
            }
        }
    } else if s.last() == x {
        assert(s[s.len() - 1] == x);
    } else {
        let (r, z) = (s.drop_last(), s.last());
        lemma_placed(r, x);
        let q = placed(r, x);
        let t = q.push(z);
        assert(t[t.len() - 1] == z);
        assert(s[s.len() - 1] == z);
        assert forall|i: int| 0 <= i < q.len() implies q[i] < z by {
            assert(q.contains(q[i]));
            if q[i] != x {
                let j = choose|j: int| 0 <= j < r.len() && r[j] == q[i];
                assert(s[j] < s[s.len() - 1]);
            }
        }
        assert forall|y: usize| #[trigger] t.contains(y) <==> s.contains(y) || y == x by {
            if t.contains(y) {
                let i = choose|i: int| 0 <= i < t.len() && t[i] == y;
                if i < q.len() {
                    assert(q.contains(y));
                    if y != x {
                        let j = choose|j: int| 0 <= j < r.len() && r[j] == y;
                        assert(s[j] == y);
                    }
                }
            }
            if s.contains(y) || y == x {
                if y != z {
                    if s.contains(y) {
                        let j = choose|j: int| 0 <= j < s.len() && s[j] == y;
                        assert(r[j] == y);
                    }
                    assert(q.contains(y));
                    let i = choose|i: int| 0 <= i < q.len() && q[i] == y;
                    assert(t[i] == y);
                }
            }
        }
    }
}

/// The distinct numbers are increasing, and they are the numbers that occur.
pub proof fn law_distinct(s: Seq<usize>)
    ensures
        increasing(distinct(s)),
        distinct(s).len() <= s.len(),
        forall|y: usize| #[trigger] distinct(s).contains(y) <==> s.contains(y),
    decreases s.len(),
{
    if s.len() > 0 {
        let (r, x) = (s.drop_last(), s.last());
        law_distinct(r);
        lemma_placed(distinct(r), x);
        assert(s[s.len() - 1] == x);
        assert forall|y: usize| #[trigger] distinct(s).contains(y) <==> s.contains(y) by {
            if s.contains(y) && y != x {
                let j = choose|j: int| 0 <= j < s.len() && s[j] == y;
                assert(r[j] == y);
            }
            if r.contains(y) {
                let j = choose|j: int| 0 <= j < r.len() && r[j] == y;
                assert(s[j] == y);
            }
        }
    }
}

/// Increasing numbers are determined by which numbers occur: there is only one sequence that
/// [`distinct`] can be.
pub proof fn law_increasing_unique(s: Seq<usize>, t: Seq<usize>)
    requires
        increasing(s),
        increasing(t),
        forall|y: usize| s.contains(y) <==> t.contains(y),
    ensures
        s == t,
    decreases s.len(),
{
    if s.len() == 0 {
        if t.len() > 0 {
            assert(t.contains(t[0]));
        }
        assert(s =~= t);
    } else {
        assert(s.contains(s.last()));
        let i = choose|i: int| 0 <= i < t.len() && t[i] == s.last();
        assert(t.contains(t.last()));
        let j = choose|j: int| 0 <= j < s.len() && s[j] == t.last();
        assert(s.last() == t.last());
        let (s1, t1) = (s.drop_last(), t.drop_last());
        assert forall|y: usize| s1.contains(y) <==> t1.contains(y) by {
            if s1.contains(y) {
                let a = choose|a: int| 0 <= a < s1.len() && s1[a] == y;
                assert(s[a] == y && s[a] < s.last());
                assert(s.contains(y));
                let b = choose|b: int| 0 <= b < t.len() && t[b] == y;
                assert(t1[b] == y);
            }
            if t1.contains(y) {
                let b = choose|b: int| 0 <= b < t1.len() && t1[b] == y;
                assert(t[b] == y && t[b] < t.last());
                assert(t.contains(y));
                let a = choose|a: int| 0 <= a < s.len() && s[a] == y;
                assert(s1[a] == y);
            }
        }
        law_increasing_unique(s1, t1);
        assert(s =~= s1.push(s.last()));
        assert(t =~= t1.push(t.last()));
    }
}

/// Puts `x` in its place among increasing numbers.
fn place(s: &mut Vec<usize>, x: usize)
    ensures
        final(s)@ == placed(old(s)@, x),
{
    let ghost start = s@;
    let mut i: usize = s.len();
    assert(start.take(i as int) =~= start);
    assert(start.skip(i as int) =~= Seq::<usize>::empty());
    assert(placed(start, x) + start.skip(i as int) =~= placed(start, x));
    while i > 0 && s[i - 1] > x
        invariant
            s@ == start,
            i <= s@.len(),
            placed(start.take(i as int), x) + start.skip(i as int) == placed(start, x),
        decreases i,
    {
        proof {
            let t = start.take(i as int);
            assert(t.drop_last() =~= start.take(i - 1));
            assert(placed(start.take(i - 1), x).push(t.last()) + start.skip(i as int) =~= placed(
                start.take(i - 1),
                x,
            ) + start.skip(i - 1));
        }
        i -= 1;
    }
    if i > 0 && s[i - 1] == x {
        assert(start.take(i as int) + start.skip(i as int) =~= start);
        return ;
    }
    s.insert(i, x);
    assert(s@ =~= start.take(i as int).push(x) + start.skip(i as int));
}

/// The numbers that occur in `v`, in increasing order.
pub fn dedup(v: &Vec<usize>) -> (r: Vec<usize>)
    ensures
        r@ == distinct(v@),
{
    let mut r: Vec<usize> = Vec::new();
    let mut i: usize = 0;
    while i < v.len()
        invariant
            i <= v@.len(),
            r@ == distinct(v@.take(i as int)),
        decreases v@.len() - i,
    {
        place(&mut r, v[i]);
        i += 1;
        assert(v@.take(i as int).drop_last() =~= v@.take(i - 1));
    }
    assert(v@.take(i as int) =~= v@);
    r
}

/// The positions below `bound` that `n` draws with the seed give.
pub open spec fn query_positions(seed: Seq<u8>, bound: usize, n: nat) -> Seq<usize> {
    distinct(draws(seed, bound, n))
}

/// The positions of `n` draws increase, are at most `n`, at least one where anything was drawn, and
/// lie below the bound.
pub proof fn law_positions(seed: Seq<u8>, bound: usize, n: nat)
    requires
        n > 0 ==> bound > 0,
    ensures
        ({
            let positions = query_positions(seed, bound, n);
            &&& increasing_below(positions, bound as nat)
            &&& positions.len() <= n
            &&& n > 0 ==> positions.len() > 0
        }),
{
    let drawn = draws(seed, bound, n);
    let positions = query_positions(seed, bound, n);
    law_distinct(drawn);
    assert forall|i: int| 0 <= i < positions.len() implies #[trigger] positions[i] < bound by {
        assert(distinct(drawn).contains(positions[i]));
        let j = choose|j: int| 0 <= j < drawn.len() && drawn[j] == positions[i];
        vstd::arithmetic::div_mod::lemma_mod_bound(
            chacha_draw(seed, Seq::new((j + 1) as nat, |k: int| bound), usize::BITS) as int,
            bound as int,
        );
    }
    if n > 0 {
        assert(drawn.contains(drawn[0]));
        assert(positions.contains(drawn[0]));
    }
}

/// The number that a generator with this seed gives after `i` draws below the same bound.
pub open spec fn generated(seed: Seq<u8>, bound: usize, i: nat) -> usize {
    chacha_draw(seed, Seq::new(i + 1, |j: int| bound), usize::BITS)
}

/// A number is a queried position if and only if it is one of the `n` numbers that the seeded
/// generator gives in turn below the bound, each of them after as many draws with the same bound.
pub proof fn law_positions_are_draws(seed: Seq<u8>, bound: usize, n: nat, x: usize)
    requires
        n > 0 ==> bound > 0,
    ensures
        query_positions(seed, bound, n).contains(x) <==> exists|i: nat|
            i < n && x == #[trigger] generated(seed, bound, i) % bound,
        forall|i: nat|
            i < n ==> query_positions(seed, bound, n).contains(
                (#[trigger] generated(seed, bound, i) % bound) as usize,
            ),
        forall|i: nat| #[trigger]
            generated(seed, bound, i) == chacha_draw(
                seed,
                Seq::new(i + 1, |j: int| bound),
                usize::BITS,
            ),
{
    let drawn = draws(seed, bound, n);
    law_distinct(drawn);
    assert forall|i: nat| i < n implies query_positions(seed, bound, n).contains(
        (#[trigger] generated(seed, bound, i)
            % bound) as usize,
    ) by {
        assert(drawn[i as int] == (chacha_draw(
            seed,
            Seq::new(i + 1, |j: int| bound),
            usize::BITS,
        ) % bound) as usize);
        assert(drawn.contains(drawn[i as int]));
        assert(distinct(drawn).contains(drawn[i as int]));
    }
    if query_positions(seed, bound, n).contains(x) {
        assert(drawn.contains(x));
        let k = choose|k: int| 0 <= k < drawn.len() && drawn[k] == x;
        let i = k as nat;
        let y = generated(seed, bound, i);
        vstd::arithmetic::div_mod::lemma_mod_bound(y as int, bound as int);
        assert(i < n && x == y % bound);
    }
}

/// Draws `n` positions below `bound` and drops those that were drawn before.
pub fn sample_positions(seed: [u8; 32], bound: usize, n: usize) -> (r: Vec<usize>)
    requires
        n > 0 ==> bound > 0,
    ensures
        r@ == query_positions(seed@, bound, n as nat),
        increasing_below(r@, bound as nat),
        r@.len() <= n,
        forall|x: usize|
            #![trigger r@.contains(x)]
            r@.contains(x) <==> exists|i: nat|
                i < n && x == #[trigger] generated(seed@, bound, i),
{
    let mut generator = chacha_from_seed(seed);
    let mut drawn: Vec<usize> = Vec::new();
    let mut i: usize = 0;
    while i < n
        invariant
            i <= n,
            n > 0 ==> bound > 0,
            chacha_seed(generator) == seed@,
            chacha_bounds(generator) == Seq::new(i as nat, |j: int| bound),
            drawn@ == draws(seed@, bound, i as nat),
            drawn@.len() == i,
            forall|k: nat|
                k < i ==> drawn@[k as int] == #[trigger] generated(seed@, bound, k),
        decreases n - i,
    {
        let x: usize = chacha_gen_range(&mut generator, bound);
        proof {
            assert(Seq::new(i as nat, |j: int| bound).push(bound) =~= Seq::new(
                (i + 1) as nat,
                |j: int| bound,
            ));
        }
        drawn.push(x);
        proof {
            vstd::arithmetic::div_mod::lemma_small_mod(x as nat, bound as nat);
            assert(x == draw(seed@, bound, i as nat));
        }
        i += 1;
        assert(drawn@ =~= draws(seed@, bound, i as nat));
    }
    let r = dedup(&drawn);
    proof {
        law_positions(seed@, bound, n as nat);
        law_distinct(drawn@);
        assert forall|x: usize| #![trigger r@.contains(x)] r@.contains(x) <==> exists|i: nat|
            i < n && x == #[trigger] generated(seed@, bound, i) by {
            if r@.contains(x) {
                assert(distinct(drawn@).contains(x));
                let k = choose|k: int| 0 <= k < drawn@.len() && drawn@[k] == x;
                let i = k as nat;
                assert(i < n && x == generated(seed@, bound, i));
            }
            if exists|i: nat|
                i < n && x == #[trigger] generated(seed@, bound, i) {
                let i = choose|i: nat|
                    i < n && x == #[trigger] generated(seed@, bound, i);
                assert(drawn@[i as int] == x);
                assert(drawn@.contains(x));
                assert(distinct(drawn@).contains(x));
            }
        }
    }
    r
}

} // verus!
