//! Fixed-point numbers with 18 decimal places in 256 bits.

use crate::precise_number::pn_impl::{FixedPoint, PreciseConfig};
use crate::precise_number::pn_sqrt::{cordic_gap, lemma_cordic_gap_digit};
use crate::precise_number::pn_sqrt_laws::newton_in_reach;
use crate::wide_int::WideInt;
use crate::uint::{lemma_limbs_val_4, lemma_pow2_limbs, two_128, U256};
use vstd::arithmetic::power::pow;
use vstd::prelude::*;

verus! {

/// Eighteen decimal places in a [`U256`], whole numbers in a `u128`.
#[derive(Clone, Copy, Debug, PartialEq, Eq)]
pub struct Bits256Decimals18 {}

impl PreciseConfig for Bits256Decimals18 {
    type Inner = U256;

    type Outer = u128;

    open spec fn decimals() -> nat {
        18
    }

    open spec fn scale() -> nat {
        1_000_000_000_000_000_000
    }

    open spec fn precision() -> nat {
        100
    }

    open spec fn max_sqrt_base() -> nat {
        340_282_366_920_938_463_463_374_607_431_768_211_455_000_000_000_000nat
    }

    open spec fn cordic_speed() -> nat {
        256
    }

    proof fn lemma_config() {
        lemma_pow2_limbs();
        reveal_with_fuel(pow, 19);
    }

    fn one() -> (r: U256) {
        let r = U256([1000000000000000000, 0, 0, 0]);
        proof {
            lemma_limbs_val_4(r.0@);
            lemma_pow2_limbs();
        }
        r
    }

    fn rounding_correction() -> (r: U256) {
        let r = U256([500000000000000000, 0, 0, 0]);
        proof {
            lemma_limbs_val_4(r.0@);
            lemma_pow2_limbs();
        }
        r
    }

    fn precision_threshold() -> (r: U256) {
        let r = U256([100, 0, 0, 0]);
        proof {
            lemma_limbs_val_4(r.0@);
            lemma_pow2_limbs();
        }
        r
    }

    fn maximum_sqrt_base() -> (r: U256) {
        let r = U256([18446743073709551616, 18446744073709551615, 999999999999, 0]);
        proof {
            lemma_limbs_val_4(r.0@);
            lemma_pow2_limbs();
        }
        r
    }

    fn speed_factor() -> (r: u32) {
        256
    }
}

/// The gap of the scale, the number of ones among the bits of 0xde0_b6b3_a764_0000: the
/// square root of this configuration ends less than 25 of the smallest units
/// below the true root.
pub proof fn lemma_scale_gap()
    ensures
        cordic_gap(1_000_000_000_000_000_000, 256) == 24,
{
    assert(1_000_000_000_000_000_000 == 0xde0_b6b3_a764_0000);
    lemma_cordic_gap_digit(0xde_0b6b_3a76_4000, 0, 252);
    lemma_cordic_gap_digit(0xd_e0b6_b3a7_6400, 0, 248);
    lemma_cordic_gap_digit(0xde0b_6b3a_7640, 0, 244);
    lemma_cordic_gap_digit(0xde0_b6b3_a764, 0, 240);
    lemma_cordic_gap_digit(0xde_0b6b_3a76, 4, 236);
    lemma_cordic_gap_digit(0xd_e0b6_b3a7, 6, 232);
    lemma_cordic_gap_digit(0xde0b_6b3a, 7, 228);
    lemma_cordic_gap_digit(0xde0_b6b3, 10, 224);
    lemma_cordic_gap_digit(0xde_0b6b, 3, 220);
    lemma_cordic_gap_digit(0xd_e0b6, 11, 216);
    lemma_cordic_gap_digit(0xde0b, 6, 212);
    lemma_cordic_gap_digit(0xde0, 11, 208);
    lemma_cordic_gap_digit(0xde, 0, 204);
    lemma_cordic_gap_digit(0xd, 14, 200);
    reveal_with_fuel(cordic_gap, 5);
}

/// Newton's method settles in this configuration, and ends at the square root
/// rounded down or one above it.
pub proof fn lemma_newton_in_reach()
    ensures
        newton_in_reach(
            Bits256Decimals18::scale(),
            Bits256Decimals18::precision(),
            Bits256Decimals18::max_sqrt_base(),
            <<Bits256Decimals18 as PreciseConfig>::Inner as WideInt>::limit(),
        ),
        Bits256Decimals18::precision() * Bits256Decimals18::precision() * (Bits256Decimals18::precision() * Bits256Decimals18::precision()) <= 4
            * Bits256Decimals18::scale(),
{
    Bits256Decimals18::lemma_config();
    lemma_pow2_limbs();
    let (scale, precision, max) = (1_000_000_000_000_000_000nat, 100nat, 340_282_366_920_938_463_463_374_607_431_768_211_455_000_000_000_000nat);
    assert(precision * precision * (precision * precision) <= 4 * scale) by (nonlinear_arith)
        requires
            precision == 100,
            scale == 1_000_000_000_000_000_000,
    ;
    assert(max <= two_128() * scale) by (nonlinear_arith)
        requires
            max == 340_282_366_920_938_463_463_374_607_431_768_211_455_000_000_000_000nat,
            scale == 1_000_000_000_000_000_000,
    ;
}

/// A fixed-point number of this configuration.
pub type PreciseNumber = FixedPoint<Bits256Decimals18>;

impl FixedPoint<Bits256Decimals18> {
    /// The width of the scaled value in bits.
    pub const NUM_BITS: u32 = 256;
}

} // verus!
