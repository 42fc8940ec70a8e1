//! Fixed-width unsigned big integers made of `N` little-endian 64-bit limbs,
//! with addition, subtraction and schoolbook multiplication into a
//! double-width result.
pub mod biguint;

pub use biguint::{BigDigit, BigUint, DoubleBigDigit, DoubleBigUint, BIG_DIGIT_BITS};

use vstd::prelude::*;

verus! {

/// A 256-bit unsigned integer: four 64-bit limbs.
pub type BigUint256 = BigUint<4>;

} // verus!
