# whir

A verified verifier for WHIR, a protocol that shows values of a committed multilinear polynomial.

- `src/` is the library, written and proved in Verus. `field`, `bn254`, `poly`, `fold` and
  `sumcheck` are the algebra; `hasher` and `evm_merkle` are the Merkle trees; `transcript`,
  `arthur`, `evm_fs` and `queries` are what a verifier reads and draws; `parameters`, `protocol`
  and `whir` say what a proof is and when it is accepted; `whir_verifier` is the verifier.
  `cube`, `honest`, `spoken`, `complete`, `evm_honest` and `arthur_honest` prove completeness: what
  a prover that follows the protocol writes is accepted, over either transcript. `statements`,
  `folding` and `simulation` prove what a verdict depends on: an altered value is refused, the two
  ways to answer a query fold to the same, and transcripts that deliver the same are judged alike.
- `app/` connects the library to the trees of `ark_crypto_primitives`, the domains of `ark_poly`,
  the transcripts of `nimue`, and JSON.
- `tests/` runs the library, with a prover of its own.
