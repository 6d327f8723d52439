//! Lattice arithmetic and key encapsulation for the module-lattice KEM
//! with module rank three: reduction modulo `q = 3329`, the number-theoretic
//! transform, noise sampling, polynomial and vector serialization, the
//! IND-CPA encryption primitive and the IND-CCA2 wrapper built on it.
//!
//! Every function carries a contract over sequences of coefficients and
//! bytes. The laws that relate the functions are proof functions: the two
//! round trips of the transform (`ntt_proofs`), what the transform computes
//! (`ntt_evaluation`), that multiplying transforms multiplies polynomials
//! (`ntt_product`), and that decryption inverts encryption where the noise is
//! small (`indcpa_proofs`), from which the round trip of the mechanism
//! follows (`kem`).

pub mod params;
pub mod reduce;
pub mod ntt;
pub mod ntt_proofs;
pub mod ntt_evaluation;
pub mod ntt_product;
pub mod residues;
pub mod poly;
pub mod cbd;
pub mod polyvec;
pub mod symmetric;
pub mod hash;
pub mod indcpa;
pub mod indcpa_proofs;
pub mod kem;
pub mod kyber;
