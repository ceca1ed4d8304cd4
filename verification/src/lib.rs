//! Deterministic fixed-point arithmetic on fixed-width unsigned integers.

use vstd::prelude::*;

pub mod approximations;
pub mod limbs;
pub mod muldiv;
pub mod precise_number;
pub mod uint;
pub mod wide_int;

verus! {

/// Twelve decimal places in 256 bits.
pub type PreciseNumber = precise_number::pn_256_128_d12::PreciseNumber;

/// Nine decimal places in 128 bits.
pub type PreciseNumber128D9 = precise_number::pn_128_64_d9::PreciseNumber;

/// Eighteen decimal places in 256 bits.
pub type PreciseNumber256D18 = precise_number::pn_256_128_d18::PreciseNumber;

} // verus!
