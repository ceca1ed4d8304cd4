//! Fixed-point numbers with four decimal places in 64 bits.

use crate::precise_number::pn_impl::{FixedPoint, PreciseConfig};
use crate::precise_number::pn_sqrt::{cordic_gap, lemma_cordic_gap_digit};
use crate::precise_number::pn_sqrt_laws::newton_in_reach;
use crate::uint::{lemma_pow2_limbs, two_128};
use crate::wide_int::WideInt;
use vstd::arithmetic::power::pow;
use vstd::prelude::*;

verus! {

/// The scaled value of the number one.
pub const ONE_CONST: u64 = 10_000;

/// Half of the scale.
pub const ROUNDING_CORRECTION: u64 = 10_000 / 2;

/// The smallest scaled difference that is not negligible.
pub const PRECISION: u64 = 3;

/// The largest scaled value that a square root is taken of.
pub const MAXIMUM_SQRT_BASE: u64 = 0xffff_ffff * ONE_CONST;

/// Four decimal places in a `u64`, whole numbers in a `u32`.
#[derive(Clone, Copy, Debug, PartialEq, Eq)]
pub struct Bits64Decimals4 {}

impl PreciseConfig for Bits64Decimals4 {
    type Inner = u64;

    type Outer = u32;

    open spec fn decimals() -> nat {
        4
    }

    open spec fn scale() -> nat {
        10_000
    }

    open spec fn precision() -> nat {
        3
    }

    open spec fn max_sqrt_base() -> nat {
        42_949_672_950_000
    }

    open spec fn cordic_speed() -> nat {
        64
    }

    proof fn lemma_config() {
        reveal_with_fuel(pow, 5);
    }

    fn one() -> (r: u64) {
        ONE_CONST
    }

    fn rounding_correction() -> (r: u64) {
        ROUNDING_CORRECTION
    }

    fn precision_threshold() -> (r: u64) {
        PRECISION
    }

    fn maximum_sqrt_base() -> (r: u64) {
        MAXIMUM_SQRT_BASE
    }

    fn speed_factor() -> (r: u32) {
        64
    }
}

/// The gap of the scale, the number of ones among the bits of 0x2710: the
/// square root of this configuration ends less than 6 of the smallest units
/// below the true root.
pub proof fn lemma_scale_gap()
    ensures
        cordic_gap(10_000, 64) == 5,
{
    assert(10_000 == 0x2710);
    lemma_cordic_gap_digit(0x271, 0, 60);
    lemma_cordic_gap_digit(0x27, 1, 56);
    lemma_cordic_gap_digit(0x2, 7, 52);
    reveal_with_fuel(cordic_gap, 5);
}

/// Newton's method settles in this configuration, and ends at the square root
/// rounded down or one above it.
pub proof fn lemma_newton_in_reach()
    ensures
        newton_in_reach(
            Bits64Decimals4::scale(),
            Bits64Decimals4::precision(),
            Bits64Decimals4::max_sqrt_base(),
            <<Bits64Decimals4 as PreciseConfig>::Inner as WideInt>::limit(),
        ),
        Bits64Decimals4::precision() * Bits64Decimals4::precision() * (Bits64Decimals4::precision() * Bits64Decimals4::precision()) <= 4
            * Bits64Decimals4::scale(),
{
    Bits64Decimals4::lemma_config();
    lemma_pow2_limbs();
    let (scale, precision, max) = (10_000nat, 3nat, 42_949_672_950_000nat);
    assert(precision * precision * (precision * precision) <= 4 * scale) by (nonlinear_arith)
        requires
            precision == 3,
            scale == 10_000,
    ;
    assert(max <= two_128() * scale) by (nonlinear_arith)
        requires
            max == 42_949_672_950_000nat,
            scale == 10_000,
    ;
}

/// A fixed-point number of this configuration.
pub type PreciseNumber = FixedPoint<Bits64Decimals4>;

impl FixedPoint<Bits64Decimals4> {
    /// The width of the scaled value in bits.
    pub const NUM_BITS: u32 = 64;
}

} // verus!
