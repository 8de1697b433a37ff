//! Prover side of a distributed zero-knowledge proof for batches of
//! multiplication gates: exact arithmetic modulo the Mersenne prime
//! 2^61 - 1, dense polynomials with Lagrange interpolation, and the
//! multi-round folding ("FLIOP") protocol that compresses many parallel
//! circuit instances into a short pair of secret-shared proofs.

pub mod codec;
pub mod encoding;
pub mod euclid;
pub mod field;
pub mod interpolation;
pub mod poly;
pub mod prover;
pub mod prover3;
pub mod transcript;
