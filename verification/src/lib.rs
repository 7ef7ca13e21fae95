//! The verifier of WHIR, a protocol that shows values of a committed multilinear polynomial.
use vstd::prelude::*;

pub mod algebra;
pub mod arthur;
pub mod arthur_honest;
pub mod bits;
pub mod bn254;
pub mod bytes;
pub mod complete;
pub mod cube;
pub mod encoding;
pub mod evm_fs;
pub mod evm_honest;
pub mod evm_merkle;
pub mod field;
pub mod fold;
pub mod folding;
pub mod hasher;
pub mod honest;
pub mod parameters;
pub mod poly;
pub mod protocol;
pub mod queries;
pub mod reading;
pub mod simulation;
pub mod soundness;
pub mod sponge;
pub mod spoken;
pub mod statements;
pub mod sumcheck;
pub mod transcript;
pub mod whir;
pub mod whir_verifier;

verus! {

} // verus!
