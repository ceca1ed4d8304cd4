//! Fixed-point numbers with twelve decimal places in 256 bits.

use crate::precise_number::pn_impl::{FixedPoint, PreciseConfig};
use crate::precise_number::pn_sqrt::{cordic_gap, lemma_cordic_gap_digit};
use crate::precise_number::pn_sqrt_laws::newton_in_reach;
use crate::wide_int::WideInt;
use crate::uint::{lemma_limbs_val_4, lemma_pow2_limbs, two_128, U256};
use vstd::arithmetic::power::pow;
use vstd::prelude::*;

verus! {

/// Twelve decimal places in a [`U256`], whole numbers in a `u128`.
#[derive(Clone, Copy, Debug, PartialEq, Eq)]
pub struct Bits256Decimals12 {}

impl PreciseConfig for Bits256Decimals12 {
    type Inner = U256;

    type Outer = u128;

    open spec fn decimals() -> nat {
        12
    }

    open spec fn scale() -> nat {
        1_000_000_000_000
    }

    open spec fn precision() -> nat {
        100
    }

    open spec fn max_sqrt_base() -> nat {
        340_282_366_920_938_463_463_374_607_431_768_211_455_000_000_000_000nat
    }

    open spec fn cordic_speed() -> nat {
        256
    }

    proof fn lemma_config() {
        lemma_pow2_limbs();
        reveal_with_fuel(pow, 13);
    }

    fn one() -> (r: U256) {
        let r = U256([1000000000000, 0, 0, 0]);
        proof {
            lemma_limbs_val_4(r.0@);
            lemma_pow2_limbs();
        }
        r
    }

    fn rounding_correction() -> (r: U256) {
        let r = U256([500000000000, 0, 0, 0]);
        proof {
            lemma_limbs_val_4(r.0@);
            lemma_pow2_limbs();
        }
        r
    }

    fn precision_threshold() -> (r: U256) {
        let r = U256([100, 0, 0, 0]);
        proof {
            lemma_limbs_val_4(r.0@);
            lemma_pow2_limbs();
        }
        r
    }

    fn maximum_sqrt_base() -> (r: U256) {
        let r = U256([18446743073709551616, 18446744073709551615, 999999999999, 0]);
        proof {
            lemma_limbs_val_4(r.0@);
            lemma_pow2_limbs();
        }
        r
    }

    fn speed_factor() -> (r: u32) {
        256
    }
}

/// The gap of the scale, the number of ones among the bits of 0xe8_d4a5_1000: the
/// square root of this configuration ends less than 14 of the smallest units
/// below the true root.
pub proof fn lemma_scale_gap()
    ensures
        cordic_gap(1_000_000_000_000, 256) == 13,
{
    assert(1_000_000_000_000 == 0xe8_d4a5_1000);
    lemma_cordic_gap_digit(0xe_8d4a_5100, 0, 252);
    lemma_cordic_gap_digit(0xe8d4_a510, 0, 248);
    lemma_cordic_gap_digit(0xe8d_4a51, 0, 244);
    lemma_cordic_gap_digit(0xe8_d4a5, 1, 240);
    lemma_cordic_gap_digit(0xe_8d4a, 5, 236);
    lemma_cordic_gap_digit(0xe8d4, 10, 232);
    lemma_cordic_gap_digit(0xe8d, 4, 228);
    lemma_cordic_gap_digit(0xe8, 13, 224);
    lemma_cordic_gap_digit(0xe, 8, 220);
    reveal_with_fuel(cordic_gap, 5);
}

/// Newton's method settles in this configuration, and ends at the square root
/// rounded down or one above it.
pub proof fn lemma_newton_in_reach()
    ensures
        newton_in_reach(
            Bits256Decimals12::scale(),
            Bits256Decimals12::precision(),
            Bits256Decimals12::max_sqrt_base(),
            <<Bits256Decimals12 as PreciseConfig>::Inner as WideInt>::limit(),
        ),
        Bits256Decimals12::precision() * Bits256Decimals12::precision() * (Bits256Decimals12::precision() * Bits256Decimals12::precision()) <= 4
            * Bits256Decimals12::scale(),
{
    Bits256Decimals12::lemma_config();
    lemma_pow2_limbs();
    let (scale, precision, max) = (1_000_000_000_000nat, 100nat, 340_282_366_920_938_463_463_374_607_431_768_211_455_000_000_000_000nat);
    assert(precision * precision * (precision * precision) <= 4 * scale) by (nonlinear_arith)
        requires
            precision == 100,
            scale == 1_000_000_000_000,
    ;
    assert(max <= two_128() * scale) by (nonlinear_arith)
        requires
            max == 340_282_366_920_938_463_463_374_607_431_768_211_455_000_000_000_000nat,
            scale == 1_000_000_000_000,
    ;
}

/// A fixed-point number of this configuration.
pub type PreciseNumber = FixedPoint<Bits256Decimals12>;

impl FixedPoint<Bits256Decimals12> {
    /// The width of the scaled value in bits.
    pub const NUM_BITS: u32 = 256;
}

} // verus!
