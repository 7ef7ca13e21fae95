//! The parameters of the protocol.
use crate::bits::checked_two_to;
use crate::field::PrimeField;
use crate::transcript::Difficulty;
use std::marker::PhantomData;
use vstd::arithmetic::div_mod::{
    lemma_div_by_multiple, lemma_div_denominator, lemma_fundamental_div_mod,
    lemma_mod_multiples_basic,
};
use vstd::arithmetic::power2::{lemma2_to64, lemma_pow2_pos, lemma_pow2_unfold, pow2};
use vstd::prelude::*;

verus! {

/// How the answers to queries are folded.
#[derive(Clone, Copy, Debug, PartialEq, Eq)]
pub enum FoldType {
    /// An answer holds the values on a coset.
    Naive,
    /// An answer holds the coefficients of the polynomial that takes the values on a coset.
    ProverHelps,
}

/// The shape of the committed polynomial.
#[derive(Clone, Copy, Debug)]
pub struct MultivariateParameters {
    pub num_variables: usize,
}

/// The powers of a generator over which the polynomial is evaluated.
#[derive(Clone, Copy, Debug)]
pub struct Domain<F> {
    pub size: usize,
    pub group_gen: F,
    pub group_gen_inv: F,
}

/// The parameters of a round.
#[derive(Clone, Copy, Debug)]
pub struct RoundConfig {
    pub pow_bits: Difficulty,
    pub folding_pow_bits: Difficulty,
    pub num_queries: usize,
    pub ood_samples: usize,
}

/// The parameters of the protocol, for trees that are hashed as `C` says and proofs of work that
/// `S` checks.
pub struct WhirConfig<F, C, S> {
    pub mv_parameters: MultivariateParameters,
    pub committment_ood_samples: usize,
    pub starting_domain: Domain<F>,
    pub starting_folding_pow_bits: Difficulty,
    pub folding_factor: usize,
    pub round_parameters: Vec<RoundConfig>,
    pub fold_optimisation: FoldType,
    pub final_queries: usize,
    pub final_pow_bits: Difficulty,
    pub final_sumcheck_rounds: usize,
    pub final_folding_pow_bits: Difficulty,
    pub strategies: PhantomData<(C, S)>,
}

impl<F: PrimeField, C, S> WhirConfig<F, C, S> {
    /// How many rounds there are between the first and the last folding.
    pub open spec fn rounds(&self) -> nat {
        self.round_parameters@.len()
    }

    /// How many points each folding takes together.
    pub open spec fn coset_size(&self) -> nat {
        pow2(self.folding_factor as nat)
    }

    /// The size of the domain in round `r`.
    pub open spec fn domain_size(&self, r: nat) -> nat {
        self.starting_domain.size as nat / pow2(r)
    }

    /// How many cosets the domain of round `r` falls into.
    pub open spec fn folded_size(&self, r: nat) -> nat {
        self.domain_size(r) / self.coset_size()
    }

    /// The foldings and the final polynomial account for every variable, what is counted fits
    /// into a word, and there are positions to query wherever there are queries.
    pub open spec fn wf(&self) -> bool {
        &&& self.folding_factor >= 1
        &&& self.coset_size() <= usize::MAX
        &&& pow2(self.final_sumcheck_rounds as nat) <= usize::MAX
        &&& self.mv_parameters.num_variables == self.folding_factor * (self.rounds() + 1)
            + self.final_sumcheck_rounds
        &&& forall|r: int|
            0 <= r < self.rounds() ==> {
                let round = #[trigger] self.round_parameters@[r];
                &&& round.num_queries + round.ood_samples <= usize::MAX
                &&& round.num_queries > 0 ==> self.folded_size(r as nat) > 0
            }
        &&& self.final_queries > 0 ==> self.folded_size(self.rounds()) > 0
    }

    /// How many rounds there are between the first and the last folding.
    pub fn n_rounds(&self) -> (n: usize)
        ensures
            n == self.rounds(),
    {
        self.round_parameters.len()
    }

    /// Whether the parameters fit together.
    pub fn is_wf(&self) -> (r: bool)
        ensures
            r == self.wf(),
    {
        if self.folding_factor == 0 {
            return false;
        }
        let coset_size: usize = match checked_two_to(self.folding_factor) {
            Some(size) => size,
            None => {
                return false;
            },
        };
        if checked_two_to(self.final_sumcheck_rounds).is_none() {
            return false;
        }
        let n: usize = self.round_parameters.len();
        let k: usize = self.folding_factor;
        let fs: usize = self.final_sumcheck_rounds;
        let vars: usize = self.mv_parameters.num_variables;
        if vars < fs {
            return false;
        }
        let folded: usize = vars - fs;
        proof {
            let (m, d) = (n + 1, k as int);
            lemma_fundamental_div_mod(folded as int, d);
            if folded == d * m {
                assert(d * m == m * d) by (nonlinear_arith);
                lemma_div_by_multiple(m, d);
                lemma_mod_multiples_basic(m, d);
            }
            assert(k * (self.rounds() + 1) >= 0) by (nonlinear_arith);
        }
        if folded % k != 0 || folded / k == 0 || folded / k - 1 != n {
            return false;
        }
        let mut domain_size: usize = self.starting_domain.size;
        let mut i: usize = 0;
        proof {
            lemma2_to64();
            lemma_pow2_pos(k as nat);
        }
        while i < n
            invariant
                i <= n,
                n == self.rounds(),
                coset_size == self.coset_size(),
                coset_size > 0,
                domain_size == self.domain_size(i as nat),
                forall|r: int|
                    0 <= r < i ==> {
                        let round = #[trigger] self.round_parameters@[r];
                        &&& round.num_queries + round.ood_samples <= usize::MAX
                        &&& round.num_queries > 0 ==> self.folded_size(r as nat) > 0
                    },
            decreases n - i,
        {
            let round = &self.round_parameters[i];
            if round.num_queries > usize::MAX - round.ood_samples {
                return false;
            }
            if round.num_queries > 0 && domain_size / coset_size == 0 {
                return false;
            }
            proof {
                lemma_pow2_unfold((i + 1) as nat);
                lemma_pow2_pos(i as nat);
                lemma_div_denominator(
                    self.starting_domain.size as int,
                    pow2(i as nat) as int,
                    2,
                );
            }
            domain_size = domain_size / 2;
            i += 1;
        }
        self.final_queries == 0 || domain_size / coset_size > 0
    }
}

} // verus!
