//! Arbitrary-precision unsigned integer arithmetic.
//!
//! A [`BigUint`] is a non-negative integer of unbounded magnitude, stored as a
//! normalized little-endian sequence of 32-bit limbs.  The crate provides the
//! full arithmetic, bitwise, comparison, radix-conversion and number-theoretic
//! tool set, each operation specified against the mathematical value of its
//! operands.

mod arith;
mod bigint;
mod bitops;
mod laws;
mod limbs;
mod radix;
mod theory;

pub use bigint::BigUint;
pub use bigint::ParseBigIntError;
pub use bigint::ToBigUint;
