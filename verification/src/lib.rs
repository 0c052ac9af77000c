//! A STARK proving toolkit: a mixed-matrix commitment scheme (MMCS), a
//! FRI-based polynomial commitment scheme, a Fiat-Shamir challenger, and a
//! uni-STARK prover/verifier, all over a small two-adic prime field.

pub mod field;
pub mod matrix;
pub mod symmetric;
pub mod merkle_tree;
pub mod challenger;
pub mod dft;
pub mod fri;
pub mod pcs;
pub mod air;
pub mod uni_stark;

