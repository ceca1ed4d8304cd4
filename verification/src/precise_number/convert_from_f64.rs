//! The integer part of a double-precision float, taken from its bits.

use crate::precise_number::pn_impl::{fit, opt_view, FixedPoint, PreciseConfig};
use crate::uint::U256;
use crate::wide_int::{opt_nat, WideInt};
use vstd::arithmetic::div_mod::{
    lemma_fundamental_div_mod, lemma_fundamental_div_mod_converse, lemma_mod_multiples_vanish,
};
use vstd::arithmetic::power2::{
    lemma2_to64, lemma2_to64_rest, lemma_pow2_adds, lemma_pow2_pos, lemma_pow2_strictly_increases,
    pow2,
};
use vstd::bits::{lemma_u64_pow2_no_overflow, lemma_u64_shl_is_mul, lemma_u64_shr_is_div};
use vstd::prelude::*;

verus! {

/// The bits of the negative zero.
pub const NEGATIVE_ZERO_BITS: u64 = 0x8000_0000_0000_0000;

/// The bits of the exponent field.
pub const EXP_MASK: u64 = 0x7ff0_0000_0000_0000;

/// The bits of the stored mantissa.
pub const MAN_MASK: u64 = 0x000f_ffff_ffff_ffff;

/// The exponent field of the number one: the bias of the exponent.
pub const EXP_BIAS: u64 = 1023;

/// Whether the sign bit of the float is set.
pub open spec fn f64_sign(bits: u64) -> bool {
    bits >= 0x8000_0000_0000_0000
}

/// The exponent field of the float: eleven bits.
pub open spec fn f64_exponent_field(bits: u64) -> nat {
    ((bits as nat) / 0x10_0000_0000_0000) % 0x800
}

/// The stored mantissa of the float: its lowest 52 bits.
pub open spec fn f64_fraction(bits: u64) -> nat {
    (bits as nat) % 0x10_0000_0000_0000
}

/// The magnitude of a finite float, rounded down to a whole number. A float
/// with the exponent field zero is zero or subnormal and below one. Any other
/// finite float is its 53-bit mantissa, the stored one below an implicit
/// leading one, times two to the power of the exponent field less 1075.
pub open spec fn f64_integer_part(bits: u64) -> nat {
    let e = f64_exponent_field(bits);
    let mantissa = 0x10_0000_0000_0000 + f64_fraction(bits);
    if e == 0 {
        0
    } else if e >= 1075 {
        mantissa * pow2((e - 1075) as nat)
    } else {
        mantissa / pow2((1075 - e) as nat)
    }
}

/// The integer part of the float with these bits in a type of `limit` values:
/// nothing for a negative float other than the negative zero, for a NaN, for
/// an infinity, and for an integer part that does not fit.
pub open spec fn decoded_value(bits: u64, limit: nat) -> Option<nat> {
    if f64_sign(bits) && bits != NEGATIVE_ZERO_BITS {
        None
    } else if f64_exponent_field(bits) == 0x7ff {
        None
    } else {
        fit(f64_integer_part(bits) as int, limit)
    }
}

/// The integer part of the float with the bits `bits`, by placing the bits of
/// its mantissa; `None` for a negative float other than the negative zero, a
/// NaN, an infinity, and an integer part that does not fit the type.
pub fn decode_f64_bits<T: WideInt>(bits: u64) -> (r: Option<T>)
    ensures
        opt_nat(r) == decoded_value(bits, T::limit()),
{
    proof {
        T::lemma_limit();
        lemma2_to64();
        lemma2_to64_rest();
    }
    if bits > NEGATIVE_ZERO_BITS {
        return None;
    }
    let exponent_field: u64 = (bits & EXP_MASK) >> 52;
    let fraction: u64 = bits & MAN_MASK;
    assert(exponent_field == (bits / 0x10_0000_0000_0000) % 0x800 && fraction == bits
        % 0x10_0000_0000_0000) by (bit_vector)
        requires
            exponent_field == (bits & 0x7ff0_0000_0000_0000u64) >> 52,
            fraction == bits & 0x000f_ffff_ffff_ffffu64,
    ;
    if exponent_field == 0x7ff {
        return None;
    }
    if exponent_field == 0 {
        // zero and the subnormal numbers
        return Some(T::zero());
    }
    let mantissa: u64 = (1u64 << 52) | fraction;
    assert(mantissa == 0x10_0000_0000_0000 + fraction) by (bit_vector)
        requires
            mantissa == (1u64 << 52) | fraction,
            fraction < 0x10_0000_0000_0000,
    ;
    if exponent_field < EXP_BIAS {
        // below one
        proof {
            if exponent_field < 1022 {
                lemma_pow2_strictly_increases(53, (1075 - exponent_field) as nat);
            }
            lemma_small_quotient(mantissa as nat, pow2((1075 - exponent_field) as nat));
        }
        return Some(T::zero());
    }
    if exponent_field >= EXP_BIAS + 52 {
        let bit_range_start: u32 = (exponent_field - (EXP_BIAS + 52)) as u32;
        T::from_u64_shifted(mantissa, bit_range_start)
    } else {
        let right_shift: u64 = EXP_BIAS + 52 - exponent_field;
        proof {
            lemma_u64_shr_is_div(mantissa, right_shift);
            lemma_pow2_pos(right_shift as nat);
            lemma_quotient_le(mantissa as nat, pow2(right_shift as nat));
        }
        let shifted: u64 = mantissa >> right_shift;
        T::from_u128(shifted as u128)
    }
}

/// The integer part of the float with the bits `bits` as a 256-bit integer.
pub fn u256_from_f64_bits(bits: u64) -> (r: Option<U256>)
    ensures
        opt_nat(r) == decoded_value(bits, pow2(256)),
{
    decode_f64_bits::<U256>(bits)
}

impl<C: PreciseConfig> FixedPoint<C> {
    /// The fixed-point number whose scaled value is the integer part of the
    /// float with the bits `bits`.
    pub fn new_from_inner_f64(bits: u64) -> (r: Option<Self>)
        ensures
            opt_view(r) == decoded_value(bits, Self::limit()),
    {
        match decode_f64_bits::<C::Inner>(bits) {
            Some(value) => Some(FixedPoint { value }),
            None => None,
        }
    }
}

/// The bits of the float rounded towards zero to a whole number: a float below
/// one in magnitude becomes a zero of its sign, a float of 2^52 or more in
/// magnitude, a NaN or an infinity stays, and any other float loses the bits of
/// its mantissa that stand below the binary point.
pub open spec fn f64_trunc(bits: u64) -> u64 {
    let e = f64_exponent_field(bits);
    if e < 1023 {
        if f64_sign(bits) {
            NEGATIVE_ZERO_BITS
        } else {
            0
        }
    } else if e >= 1075 {
        bits
    } else {
        (bits - bits % (pow2((1075 - e) as nat) as u64)) as u64
    }
}

/// The bits of the float with the bits `bits` rounded towards zero to a whole
/// number.
pub fn trunc_f64_bits(bits: u64) -> (r: u64)
    ensures
        r == f64_trunc(bits),
{
    let exponent_field: u64 = (bits & EXP_MASK) >> 52;
    assert(exponent_field == (bits / 0x10_0000_0000_0000) % 0x800) by (bit_vector)
        requires
            exponent_field == (bits & 0x7ff0_0000_0000_0000u64) >> 52,
    ;
    if exponent_field < EXP_BIAS {
        if bits >= NEGATIVE_ZERO_BITS {
            NEGATIVE_ZERO_BITS
        } else {
            0
        }
    } else if exponent_field >= EXP_BIAS + 52 {
        bits
    } else {
        let fraction_bits: u64 = EXP_BIAS + 52 - exponent_field;
        proof {
            lemma_u64_pow2_no_overflow(fraction_bits as nat);
            lemma_u64_shl_is_mul(1, fraction_bits);
            lemma_pow2_pos(fraction_bits as nat);
        }
        let unit: u64 = 1u64 << fraction_bits;
        assert(bits % unit <= bits) by (nonlinear_arith)
            requires
                unit > 0,
        ;
        bits - bits % unit
    }
}

/// The integer part of a float that is not negative is that of the float
/// rounded towards zero: decoding ignores what stands below the binary point.
pub proof fn lemma_decode_ignores_fraction(bits: u64, limit: nat)
    requires
        !f64_sign(bits),
    ensures
        decoded_value(f64_trunc(bits), limit) == decoded_value(bits, limit),
{
    let e = f64_exponent_field(bits);
    let fraction = f64_fraction(bits);
    let high = (bits as nat) / 0x10_0000_0000_0000;
    lemma2_to64();
    lemma2_to64_rest();
    if e == 0 {
    } else if e < 1023 {
        if e < 1022 {
            lemma_pow2_strictly_increases(53, (1075 - e) as nat);
        }
        lemma_small_quotient(0x10_0000_0000_0000 + fraction, pow2((1075 - e) as nat));
    } else if e < 1075 {
        let k = (1075 - e) as nat;
        let unit = pow2(k);
        let rest = pow2((52 - k) as nat);
        lemma_pow2_pos(k);
        lemma_pow2_adds(k, (52 - k) as nat);
        if k < 52 {
            lemma_pow2_strictly_increases(k, 52);
        }
        let mantissa = 0x10_0000_0000_0000 + fraction;
        let truncated = f64_trunc(bits);
        // the bits of the fraction are those of the whole float and of the mantissa
        lemma_mod_multiples_vanish((high * rest) as int, fraction as int, unit as int);
        lemma_mod_multiples_vanish(rest as int, fraction as int, unit as int);
        assert((unit * (high * rest) + fraction) == bits) by (nonlinear_arith)
            requires
                unit * rest == 0x10_0000_0000_0000,
                bits == high * 0x10_0000_0000_0000 + fraction,
        ;
        assert(unit * rest + fraction == mantissa);
        let cut = fraction % unit;
        assert(cut <= fraction) by (nonlinear_arith)
            requires
                cut == fraction % unit,
                unit > 0,
        ;
        assert(bits % (unit as u64) == cut);
        assert(mantissa % unit == cut);
        assert(truncated == high * 0x10_0000_0000_0000 + (fraction - cut));
        lemma_fundamental_div_mod_converse(
            truncated as int,
            0x10_0000_0000_0000,
            high as int,
            fraction - cut,
        );
        assert(f64_exponent_field(truncated) == e);
        assert(f64_fraction(truncated) == fraction - cut);
        // so the mantissa loses its remainder by the unit, and the quotient stays
        lemma_fundamental_div_mod(mantissa as int, unit as int);
        lemma_fundamental_div_mod_converse(
            mantissa - cut,
            unit as int,
            (mantissa / unit) as int,
            0,
        );
    }
}

/// A number divided by a larger one gives zero.
proof fn lemma_small_quotient(n: nat, d: nat)
    requires
        n < d,
    ensures
        n / d == 0,
{
    assert(n / d == 0) by (nonlinear_arith)
        requires
            0 <= n < d,
    ;
}

/// A quotient by a positive number is at most the dividend.
proof fn lemma_quotient_le(n: nat, d: nat)
    requires
        d > 0,
    ensures
        n / d <= n,
{
    assert(n / d <= n) by (nonlinear_arith)
        requires
            d > 0,
    ;
}

} // verus!
