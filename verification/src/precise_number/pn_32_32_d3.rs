//! Fixed-point numbers with three decimal places in 32 bits.

use crate::precise_number::pn_impl::{FixedPoint, PreciseConfig};
use crate::precise_number::pn_sqrt::{cordic_gap, lemma_cordic_gap_digit};
use vstd::arithmetic::power::pow;
use vstd::prelude::*;

verus! {

/// The scaled value of the number one.
pub const ONE_CONST: u32 = 1_000;

/// Half of the scale.
pub const ROUNDING_CORRECTION: u32 = 1_000 / 2;

/// The smallest scaled difference that is not negligible.
pub const PRECISION: u32 = 1;

/// The largest scaled value that a square root is taken of.
pub const MAXIMUM_SQRT_BASE: u32 = 1_000;

/// Three decimal places in a `u32`, whole numbers in a `u32`.
#[derive(Clone, Copy, Debug, PartialEq, Eq)]
pub struct Bits32Decimals3 {}

impl PreciseConfig for Bits32Decimals3 {
    type Inner = u32;

    type Outer = u32;

    open spec fn decimals() -> nat {
        3
    }

    open spec fn scale() -> nat {
        1_000
    }

    open spec fn precision() -> nat {
        1
    }

    open spec fn max_sqrt_base() -> nat {
        1_000
    }

    open spec fn cordic_speed() -> nat {
        32
    }

    proof fn lemma_config() {
        reveal_with_fuel(pow, 4);
    }

    fn one() -> (r: u32) {
        ONE_CONST
    }

    fn rounding_correction() -> (r: u32) {
        ROUNDING_CORRECTION
    }

    fn precision_threshold() -> (r: u32) {
        PRECISION
    }

    fn maximum_sqrt_base() -> (r: u32) {
        MAXIMUM_SQRT_BASE
    }

    fn speed_factor() -> (r: u32) {
        32
    }
}

/// The gap of the scale, the number of ones among the bits of 0x3e8: the
/// square root of this configuration ends less than 7 of the smallest units
/// below the true root.
pub proof fn lemma_scale_gap()
    ensures
        cordic_gap(1_000, 32) == 6,
{
    assert(1_000 == 0x3e8);
    lemma_cordic_gap_digit(0x3e, 8, 28);
    lemma_cordic_gap_digit(0x3, 14, 24);
    reveal_with_fuel(cordic_gap, 5);
}

/// A fixed-point number of this configuration.
pub type PreciseNumber = FixedPoint<Bits32Decimals3>;

impl FixedPoint<Bits32Decimals3> {
    /// The width of the scaled value in bits.
    pub const NUM_BITS: u32 = 32;
}

} // verus!
