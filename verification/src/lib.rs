//! Fixed-capacity, allocation-free-style unsigned big-integer arithmetic.
//!
//! A `BigNumber` is a fixed-length sequence of `NUMBER_SIZE` limbs in base
//! `BASE`, limb 0 least significant.  The crate provides construction,
//! comparison, modular (fixed-width truncating) addition and multiplication,
//! saturating subtraction, exact floor division, cyclic limb rotation and a
//! leading-zero-bit count, each with a contract over the represented value.

use vstd::prelude::*;

pub mod arith;
pub mod big_number;
pub mod laws;
pub mod product;
pub mod quotient;
pub mod value;

pub use big_number::BigNumber;
pub use big_number::BigNumberError;

verus! {

/// Number of limbs in every `BigNumber`.
pub const NUMBER_SIZE: usize = 2550;

/// The radix: every reduced limb lies in `[0, BASE)`.
pub const BASE: u32 = 65536;

} // verus!
