//! Arithmetic primitives for lattice-based public-key cryptography:
//! an LWE public-key encryption scheme over `Z_q`, polynomial arithmetic
//! in power-of-two cyclotomic rings, and a residue-number-system (CRT)
//! representation of large-modulus integers.

pub mod arith;
pub mod utils;
pub mod polynomial;
pub mod pub_lwe;
pub mod rns;
