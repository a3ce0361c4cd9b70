//! A word-sized TFHE: LWE, GLWE and GGSW ciphertexts over the torus Z/2^64,
//! the negacyclic ring Z_{2^64}[X]/(X^N + 1), and programmable bootstrapping.
use vstd::prelude::*;

pub mod arith;
pub mod ggsw;
pub mod glwe;
pub mod lwe;
pub mod poly;
pub mod rng;
pub mod utils;

verus! {

/// Plaintext modulus.
pub const P: usize = 16;

/// Number of decomposition layers.
pub const ELL: usize = 2;

/// GLWE dimension.
#[allow(non_upper_case_globals)]
pub const k: usize = 1;

/// Degree `N` of the irreducible polynomial X^N + 1.
pub const N: usize = 1024;

/// Dimension `n` of LWE ciphertexts.
pub const LWE_DIM: usize = 1024;

} // verus!
