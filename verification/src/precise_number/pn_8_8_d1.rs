//! Fixed-point numbers with one decimal place in eight bits.

use crate::precise_number::pn_impl::{FixedPoint, PreciseConfig};
use crate::precise_number::pn_sqrt::cordic_gap;
use vstd::arithmetic::power::pow;
use vstd::prelude::*;

verus! {

/// The scaled value of the number one.
pub const ONE_CONST: u8 = 10;

/// Half of the scale.
pub const ROUNDING_CORRECTION: u8 = 10 / 2;

/// The smallest scaled difference that is not negligible.
pub const PRECISION: u8 = 1;

/// The largest scaled value that a square root is taken of.
pub const MAXIMUM_SQRT_BASE: u8 = 10;

/// One decimal place in a `u8`, whole numbers in a `u8`.
#[derive(Clone, Copy, Debug, PartialEq, Eq)]
pub struct Bits8Decimals1 {}

impl PreciseConfig for Bits8Decimals1 {
    type Inner = u8;

    type Outer = u8;

    open spec fn decimals() -> nat {
        1
    }

    open spec fn scale() -> nat {
        10
    }

    open spec fn precision() -> nat {
        1
    }

    open spec fn max_sqrt_base() -> nat {
        10
    }

    open spec fn cordic_speed() -> nat {
        8
    }

    proof fn lemma_config() {
        reveal_with_fuel(pow, 2);
    }

    fn one() -> (r: u8) {
        ONE_CONST
    }

    fn rounding_correction() -> (r: u8) {
        ROUNDING_CORRECTION
    }

    fn precision_threshold() -> (r: u8) {
        PRECISION
    }

    fn maximum_sqrt_base() -> (r: u8) {
        MAXIMUM_SQRT_BASE
    }

    fn speed_factor() -> (r: u32) {
        8
    }
}

/// The gap of the scale, the number of ones among the bits of 0xa: the
/// square root of this configuration ends less than 3 of the smallest units
/// below the true root.
pub proof fn lemma_scale_gap()
    ensures
        cordic_gap(10, 8) == 2,
{
    assert(10 == 0xa);
    reveal_with_fuel(cordic_gap, 5);
}

/// A fixed-point number of this configuration.
pub type PreciseNumber = FixedPoint<Bits8Decimals1>;

impl FixedPoint<Bits8Decimals1> {
    /// The width of the scaled value in bits.
    pub const NUM_BITS: u32 = 8;
}

} // verus!
