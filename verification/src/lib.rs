//! Sum-check prover and verifier for multilinear polynomials over a prime
//! field, with the bookkeeping scratchpads that make each round linear in the
//! current table size, a Fiat-Shamir transcript, and the GKR circuit-layer
//! reductions built on top of them.

pub mod circuit;
pub mod field;
pub mod gkr;
pub mod matmul;
pub mod poly;
pub mod scratchpad;
pub mod soundness;
pub mod sumcheck;
pub mod transcript;
pub mod verify;

pub use circuit::{CircuitLayer, GateMul, GateUni};
pub use field::Fp;
pub use gkr::{sumcheck_prove_gkr_layer, sumcheck_prove_gkr_square_layer};
pub use matmul::{matrix_to_mle, Matrix};
pub use poly::MultiLinearPoly;
pub use scratchpad::{GkrScratchpad, SumcheckMultilinearProdHelper, SumcheckMultilinearProdScratchpad};
pub use soundness::prove_and_verify_product;
pub use sumcheck::sumcheck_multilinear_prod;
pub use transcript::Transcript;
pub use verify::Verifier;
