//! Fixed-point numbers with nine decimal places in 128 bits.

use crate::precise_number::pn_impl::{FixedPoint, PreciseConfig};
use crate::precise_number::pn_sqrt::{cordic_gap, lemma_cordic_gap_digit};
use crate::precise_number::pn_sqrt_laws::newton_in_reach;
use crate::uint::{lemma_pow2_limbs, two_128};
use crate::wide_int::WideInt;
use vstd::arithmetic::power::pow;
use vstd::prelude::*;

verus! {

/// The scaled value of the number one.
pub const ONE_CONST: u128 = 1_000_000_000;

/// Half of the scale.
pub const ROUNDING_CORRECTION: u128 = 1_000_000_000 / 2;

/// The smallest scaled difference that is not negligible.
pub const PRECISION: u128 = 10;

/// The largest scaled value that a square root is taken of.
pub const MAXIMUM_SQRT_BASE: u128 = 0xffff_ffff_ffff_ffff * ONE_CONST;

/// Nine decimal places in a `u128`, whole numbers in a `u64`.
#[derive(Clone, Copy, Debug, PartialEq, Eq)]
pub struct Bits128Decimals9 {}

impl PreciseConfig for Bits128Decimals9 {
    type Inner = u128;

    type Outer = u64;

    open spec fn decimals() -> nat {
        9
    }

    open spec fn scale() -> nat {
        1_000_000_000
    }

    open spec fn precision() -> nat {
        10
    }

    open spec fn max_sqrt_base() -> nat {
        18_446_744_073_709_551_615_000_000_000
    }

    open spec fn cordic_speed() -> nat {
        128
    }

    proof fn lemma_config() {
        reveal_with_fuel(pow, 10);
    }

    fn one() -> (r: u128) {
        ONE_CONST
    }

    fn rounding_correction() -> (r: u128) {
        ROUNDING_CORRECTION
    }

    fn precision_threshold() -> (r: u128) {
        PRECISION
    }

    fn maximum_sqrt_base() -> (r: u128) {
        MAXIMUM_SQRT_BASE
    }

    fn speed_factor() -> (r: u32) {
        128
    }
}

/// The gap of the scale, the number of ones among the bits of 0x3b9a_ca00: the
/// square root of this configuration ends less than 14 of the smallest units
/// below the true root.
pub proof fn lemma_scale_gap()
    ensures
        cordic_gap(1_000_000_000, 128) == 13,
{
    assert(1_000_000_000 == 0x3b9a_ca00);
    lemma_cordic_gap_digit(0x3b9_aca0, 0, 124);
    lemma_cordic_gap_digit(0x3b_9aca, 0, 120);
    lemma_cordic_gap_digit(0x3_b9ac, 10, 116);
    lemma_cordic_gap_digit(0x3b9a, 12, 112);
    lemma_cordic_gap_digit(0x3b9, 10, 108);
    lemma_cordic_gap_digit(0x3b, 9, 104);
    lemma_cordic_gap_digit(0x3, 11, 100);
    reveal_with_fuel(cordic_gap, 5);
}

/// Newton's method settles in this configuration, and ends at the square root
/// rounded down or one above it.
pub proof fn lemma_newton_in_reach()
    ensures
        newton_in_reach(
            Bits128Decimals9::scale(),
            Bits128Decimals9::precision(),
            Bits128Decimals9::max_sqrt_base(),
            <<Bits128Decimals9 as PreciseConfig>::Inner as WideInt>::limit(),
        ),
        Bits128Decimals9::precision() * Bits128Decimals9::precision() * (Bits128Decimals9::precision() * Bits128Decimals9::precision()) <= 4
            * Bits128Decimals9::scale(),
{
    Bits128Decimals9::lemma_config();
    lemma_pow2_limbs();
    let (scale, precision, max) = (1_000_000_000nat, 10nat, 18_446_744_073_709_551_615_000_000_000nat);
    assert(precision * precision * (precision * precision) <= 4 * scale) by (nonlinear_arith)
        requires
            precision == 10,
            scale == 1_000_000_000,
    ;
    assert(max <= two_128() * scale) by (nonlinear_arith)
        requires
            max == 18_446_744_073_709_551_615_000_000_000nat,
            scale == 1_000_000_000,
    ;
}

/// A fixed-point number of this configuration.
pub type PreciseNumber = FixedPoint<Bits128Decimals9>;

impl FixedPoint<Bits128Decimals9> {
    /// The width of the scaled value in bits.
    pub const NUM_BITS: u32 = 128;
}

} // verus!
