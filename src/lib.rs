//! Unsigned integers of any size, held as little-endian 64-bit limbs, with
//! addition, left shift and multiplication by a 64-bit scalar.
pub mod bigint;
pub mod laws;
pub mod limbs;

pub use bigint::{carry_add, internal_add, BigInt};
