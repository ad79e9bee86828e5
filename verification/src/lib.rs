//! A Merkle Mountain Range over caller-supplied hash functions, and the
//! byte layouts of the authority's consensus proofs.

pub mod be;
pub mod bits;
pub mod hash;
pub mod layout;
pub mod mem;
pub mod model;
pub mod prover;
