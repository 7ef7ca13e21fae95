//! Powers of two in machine words.
use vstd::arithmetic::power2::{
    lemma2_to64, lemma_pow2_pos, lemma_pow2_strictly_increases, lemma_pow2_unfold, pow2,
};
use vstd::prelude::*;

verus! {

/// Two to the power `n`, where a word holds it.
pub fn checked_two_to(n: usize) -> (r: Option<usize>)
    ensures
        r is Some <==> pow2(n as nat) <= usize::MAX,
        r matches Some(x) ==> x == pow2(n as nat),
{
    let mut r: usize = 1;
    let mut i: usize = 0;
    proof {
        lemma2_to64();
    }
    while i < n
        invariant
            i <= n,
            r == pow2(i as nat),
        decreases n - i,
    {
        proof {
            lemma_pow2_unfold((i + 1) as nat);
            if i + 1 < n {
                lemma_pow2_strictly_increases((i + 1) as nat, n as nat);
            }
        }
        if r > usize::MAX / 2 {
            return None;
        }
        r = 2 * r;
        i += 1;
    }
    Some(r)
}

/// Two to the power `n`.
pub fn two_to(n: usize) -> (r: usize)
    requires
        pow2(n as nat) <= usize::MAX,
    ensures
        r == pow2(n as nat),
        r > 0,
{
    proof {
        lemma_pow2_pos(n as nat);
    }
    match checked_two_to(n) {
        Some(r) => r,
        None => 0,
    }
}

} // verus!
