//! The fixed-width unsigned integers that carry a fixed-point number's scaled
//! value, seen as natural numbers.

use vstd::arithmetic::power2::{
    lemma2_to64, lemma2_to64_rest, lemma_pow2_adds, lemma_pow2_strictly_increases, pow2,
};
use vstd::bits::{lemma_u64_pow2_no_overflow, lemma_u64_shl_is_mul};
use vstd::prelude::*;

verus! {

/// A fixed-width unsigned integer with checked arithmetic. Every contract
/// speaks of the natural number a value stands for, [`WideInt::as_nat`].
pub trait WideInt: Sized + Copy {
    /// The width of the type in bits.
    spec fn bits() -> nat;

    /// The number of values of the type, two to the power of [`WideInt::bits`].
    spec fn limit() -> nat;

    /// The natural number that the value stands for.
    spec fn as_nat(self) -> nat;

    /// The type has two to the power of its width values, and a byte at least.
    proof fn lemma_limit()
        ensures
            Self::limit() == pow2(Self::bits()),
            Self::bits() >= 8,
            Self::limit() >= 256,
    ;

    /// Every value stands for a number below the limit.
    proof fn lemma_as_nat_bound(self)
        ensures
            self.as_nat() < Self::limit(),
    ;

    /// The width of the type in bits.
    fn num_bits() -> (r: u32)
        ensures
            r == Self::bits(),
    ;

    /// The value zero.
    fn zero() -> (r: Self)
        ensures
            r.as_nat() == 0,
    ;

    /// The value `x` in this type, if it fits.
    fn from_u128(x: u128) -> (r: Option<Self>)
        ensures
            match r {
                Some(v) => v.as_nat() == x && x < Self::limit(),
                None => x >= Self::limit(),
            },
    ;

    /// The value as a `u128`, if it fits.
    fn to_u128(self) -> (r: Option<u128>)
        ensures
            r == if self.as_nat() <= u128::MAX {
                Some(self.as_nat() as u128)
            } else {
                None
            },
    ;

    /// The sum; `None` where it does not fit.
    fn checked_add(self, rhs: Self) -> (r: Option<Self>)
        ensures
            match r {
                Some(v) => v.as_nat() == self.as_nat() + rhs.as_nat() < Self::limit(),
                None => self.as_nat() + rhs.as_nat() >= Self::limit(),
            },
    ;

    /// The difference; `None` where `rhs` is the larger.
    fn checked_sub(self, rhs: Self) -> (r: Option<Self>)
        ensures
            match r {
                Some(v) => v.as_nat() == self.as_nat() - rhs.as_nat(),
                None => self.as_nat() < rhs.as_nat(),
            },
    ;

    /// The product; `None` where it does not fit.
    fn checked_mul(self, rhs: Self) -> (r: Option<Self>)
        ensures
            match r {
                Some(v) => v.as_nat() == self.as_nat() * rhs.as_nat() < Self::limit(),
                None => self.as_nat() * rhs.as_nat() >= Self::limit(),
            },
    ;

    /// The floor of the quotient; `None` for a zero divisor only.
    fn checked_div(self, rhs: Self) -> (r: Option<Self>)
        ensures
            match r {
                Some(v) => rhs.as_nat() != 0 && v.as_nat() == self.as_nat() / rhs.as_nat(),
                None => rhs.as_nat() == 0,
            },
    ;

    /// Whether the value is less than `rhs`.
    fn less_than(self, rhs: Self) -> (r: bool)
        ensures
            r == (self.as_nat() < rhs.as_nat()),
    ;

    /// Whether the two values stand for the same number.
    fn equals(self, rhs: Self) -> (r: bool)
        ensures
            r == (self.as_nat() == rhs.as_nat()),
    ;

    /// Half of the value, rounded down.
    fn half(self) -> (r: Self)
        ensures
            r.as_nat() == self.as_nat() / 2,
    ;

    /// The value `mantissa` times two to the power of `shift`, if it fits.
    fn from_u64_shifted(mantissa: u64, shift: u32) -> (r: Option<Self>)
        ensures
            match r {
                Some(v) => v.as_nat() == mantissa * pow2(shift as nat) < Self::limit(),
                None => mantissa * pow2(shift as nat) >= Self::limit(),
            },
    ;
}

/// The value `mantissa` times two to the power of `shift` as a `u128`, if it
/// fits.
pub fn u128_from_u64_shifted(mantissa: u64, shift: u32) -> (r: Option<u128>)
    ensures
        match r {
            Some(v) => v == mantissa * pow2(shift as nat),
            None => mantissa * pow2(shift as nat) > u128::MAX,
        },
{
    let ghost m = mantissa as nat;
    proof {
        lemma2_to64();
        assert(0 * pow2(shift as nat) == 0) by (nonlinear_arith);
    }
    if mantissa == 0 {
        Some(0)
    } else if shift >= 128 {
        proof {
            lemma_pow2_adds(64, 64);
            if shift > 128 {
                lemma_pow2_strictly_increases(128, shift as nat);
            }
            assert(m * pow2(shift as nat) >= pow2(shift as nat)) by (nonlinear_arith)
                requires
                    m >= 1,
            ;
        }
        None
    } else if shift < 64 {
        proof {
            lemma_u64_pow2_no_overflow(shift as nat);
            lemma_u64_shl_is_mul(1, shift as u64);
        }
        let weight: u64 = 1u64 << shift;
        assert((mantissa as u128) * (weight as u128) < 0x1_0000_0000_0000_0000_0000_0000_0000_0000)
            by (nonlinear_arith)
            requires
                mantissa < 0x1_0000_0000_0000_0000,
                weight < 0x1_0000_0000_0000_0000,
        ;
        Some((mantissa as u128) * (weight as u128))
    } else {
        let high_shift: u32 = shift - 64;
        proof {
            lemma_u64_pow2_no_overflow(high_shift as nat);
            lemma_u64_shl_is_mul(1, high_shift as u64);
            lemma_pow2_adds(high_shift as nat, 64);
        }
        let weight: u64 = 1u64 << high_shift;
        let ghost base = 0x1_0000_0000_0000_0000nat;
        proof {
            assert(m * pow2(shift as nat) == (m * weight) * base) by (nonlinear_arith)
                requires
                    pow2(shift as nat) == weight * base,
            ;
        }
        match mantissa.checked_mul(weight) {
            Some(high) => Some((high as u128) * 0x1_0000_0000_0000_0000),
            None => {
                proof {
                    assert((m * weight) * base >= base * base) by (nonlinear_arith)
                        requires
                            m * weight >= base,
                    ;
                    assert(base * base == 0x1_0000_0000_0000_0000_0000_0000_0000_0000nat)
                        by (nonlinear_arith)
                        requires
                            base == 0x1_0000_0000_0000_0000nat,
                    ;
                }
                None
            },
        }
    }
}

/// What an optional wide integer stands for.
pub open spec fn opt_nat<T: WideInt>(r: Option<T>) -> Option<nat> {
    match r {
        Some(v) => Some(v.as_nat()),
        None => None,
    }
}


impl WideInt for u8 {
    open spec fn bits() -> nat {
        8
    }

    open spec fn limit() -> nat {
        0x100
    }

    open spec fn as_nat(self) -> nat {
        self as nat
    }

    proof fn lemma_limit() {
        lemma2_to64();
        lemma2_to64_rest();
    }

    proof fn lemma_as_nat_bound(self) {
    }

    fn num_bits() -> (r: u32) {
        8
    }

    fn zero() -> (r: Self) {
        0
    }

    fn from_u128(x: u128) -> (r: Option<Self>) {
        if x <= 0xff {
            Some(x as u8)
        } else {
            None
        }
    }

    fn to_u128(self) -> (r: Option<u128>) {
        Some(self as u128)
    }

    fn checked_add(self, rhs: Self) -> (r: Option<Self>) {
        u8::checked_add(self, rhs)
    }

    fn checked_sub(self, rhs: Self) -> (r: Option<Self>) {
        u8::checked_sub(self, rhs)
    }

    fn checked_mul(self, rhs: Self) -> (r: Option<Self>) {
        u8::checked_mul(self, rhs)
    }

    fn checked_div(self, rhs: Self) -> (r: Option<Self>) {
        u8::checked_div(self, rhs)
    }

    fn less_than(self, rhs: Self) -> (r: bool) {
        self < rhs
    }

    fn equals(self, rhs: Self) -> (r: bool) {
        self == rhs
    }

    fn half(self) -> (r: Self) {
        self / 2
    }

    fn from_u64_shifted(mantissa: u64, shift: u32) -> (r: Option<Self>) {
        match u128_from_u64_shifted(mantissa, shift) {
            Some(v) => Self::from_u128(v),
            None => None,
        }
    }
}

impl WideInt for u16 {
    open spec fn bits() -> nat {
        16
    }

    open spec fn limit() -> nat {
        0x1_0000
    }

    open spec fn as_nat(self) -> nat {
        self as nat
    }

    proof fn lemma_limit() {
        lemma2_to64();
        lemma2_to64_rest();
    }

    proof fn lemma_as_nat_bound(self) {
    }

    fn num_bits() -> (r: u32) {
        16
    }

    fn zero() -> (r: Self) {
        0
    }

    fn from_u128(x: u128) -> (r: Option<Self>) {
        if x <= 0xffff {
            Some(x as u16)
        } else {
            None
        }
    }

    fn to_u128(self) -> (r: Option<u128>) {
        Some(self as u128)
    }

    fn checked_add(self, rhs: Self) -> (r: Option<Self>) {
        u16::checked_add(self, rhs)
    }

    fn checked_sub(self, rhs: Self) -> (r: Option<Self>) {
        u16::checked_sub(self, rhs)
    }

    fn checked_mul(self, rhs: Self) -> (r: Option<Self>) {
        u16::checked_mul(self, rhs)
    }

    fn checked_div(self, rhs: Self) -> (r: Option<Self>) {
        u16::checked_div(self, rhs)
    }

    fn less_than(self, rhs: Self) -> (r: bool) {
        self < rhs
    }

    fn equals(self, rhs: Self) -> (r: bool) {
        self == rhs
    }

    fn half(self) -> (r: Self) {
        self / 2
    }

    fn from_u64_shifted(mantissa: u64, shift: u32) -> (r: Option<Self>) {
        match u128_from_u64_shifted(mantissa, shift) {
            Some(v) => Self::from_u128(v),
            None => None,
        }
    }
}

impl WideInt for u32 {
    open spec fn bits() -> nat {
        32
    }

    open spec fn limit() -> nat {
        0x1_0000_0000
    }

    open spec fn as_nat(self) -> nat {
        self as nat
    }

    proof fn lemma_limit() {
        lemma2_to64();
        lemma2_to64_rest();
    }

    proof fn lemma_as_nat_bound(self) {
    }

    fn num_bits() -> (r: u32) {
        32
    }

    fn zero() -> (r: Self) {
        0
    }

    fn from_u128(x: u128) -> (r: Option<Self>) {
        if x <= 0xffff_ffff {
            Some(x as u32)
        } else {
            None
        }
    }

    fn to_u128(self) -> (r: Option<u128>) {
        Some(self as u128)
    }

    fn checked_add(self, rhs: Self) -> (r: Option<Self>) {
        u32::checked_add(self, rhs)
    }

    fn checked_sub(self, rhs: Self) -> (r: Option<Self>) {
        u32::checked_sub(self, rhs)
    }

    fn checked_mul(self, rhs: Self) -> (r: Option<Self>) {
        u32::checked_mul(self, rhs)
    }

    fn checked_div(self, rhs: Self) -> (r: Option<Self>) {
        u32::checked_div(self, rhs)
    }

    fn less_than(self, rhs: Self) -> (r: bool) {
        self < rhs
    }

    fn equals(self, rhs: Self) -> (r: bool) {
        self == rhs
    }

    fn half(self) -> (r: Self) {
        self / 2
    }

    fn from_u64_shifted(mantissa: u64, shift: u32) -> (r: Option<Self>) {
        match u128_from_u64_shifted(mantissa, shift) {
            Some(v) => Self::from_u128(v),
            None => None,
        }
    }
}

impl WideInt for u64 {
    open spec fn bits() -> nat {
        64
    }

    open spec fn limit() -> nat {
        0x1_0000_0000_0000_0000
    }

    open spec fn as_nat(self) -> nat {
        self as nat
    }

    proof fn lemma_limit() {
        lemma2_to64();
        lemma2_to64_rest();
    }

    proof fn lemma_as_nat_bound(self) {
    }

    fn num_bits() -> (r: u32) {
        64
    }

    fn zero() -> (r: Self) {
        0
    }

    fn from_u128(x: u128) -> (r: Option<Self>) {
        if x <= 0xffff_ffff_ffff_ffff {
            Some(x as u64)
        } else {
            None
        }
    }

    fn to_u128(self) -> (r: Option<u128>) {
        Some(self as u128)
    }

    fn checked_add(self, rhs: Self) -> (r: Option<Self>) {
        u64::checked_add(self, rhs)
    }

    fn checked_sub(self, rhs: Self) -> (r: Option<Self>) {
        u64::checked_sub(self, rhs)
    }

    fn checked_mul(self, rhs: Self) -> (r: Option<Self>) {
        u64::checked_mul(self, rhs)
    }

    fn checked_div(self, rhs: Self) -> (r: Option<Self>) {
        u64::checked_div(self, rhs)
    }

    fn less_than(self, rhs: Self) -> (r: bool) {
        self < rhs
    }

    fn equals(self, rhs: Self) -> (r: bool) {
        self == rhs
    }

    fn half(self) -> (r: Self) {
        self / 2
    }

    fn from_u64_shifted(mantissa: u64, shift: u32) -> (r: Option<Self>) {
        match u128_from_u64_shifted(mantissa, shift) {
            Some(v) => Self::from_u128(v),
            None => None,
        }
    }
}

impl WideInt for u128 {
    open spec fn bits() -> nat {
        128
    }

    open spec fn limit() -> nat {
        0x1_0000_0000_0000_0000_0000_0000_0000_0000nat
    }

    open spec fn as_nat(self) -> nat {
        self as nat
    }

    proof fn lemma_limit() {
        lemma2_to64();
        lemma2_to64_rest();
        lemma_pow2_adds(64, 64);
        assert(0x1_0000_0000_0000_0000nat * 0x1_0000_0000_0000_0000nat
            == 0x1_0000_0000_0000_0000_0000_0000_0000_0000nat) by (nonlinear_arith);
    }

    proof fn lemma_as_nat_bound(self) {
    }

    fn num_bits() -> (r: u32) {
        128
    }

    fn zero() -> (r: Self) {
        0
    }

    fn from_u128(x: u128) -> (r: Option<Self>) {
        Some(x)
    }

    fn to_u128(self) -> (r: Option<u128>) {
        Some(self)
    }

    fn checked_add(self, rhs: Self) -> (r: Option<Self>) {
        u128::checked_add(self, rhs)
    }

    fn checked_sub(self, rhs: Self) -> (r: Option<Self>) {
        u128::checked_sub(self, rhs)
    }

    fn checked_mul(self, rhs: Self) -> (r: Option<Self>) {
        u128::checked_mul(self, rhs)
    }

    fn checked_div(self, rhs: Self) -> (r: Option<Self>) {
        u128::checked_div(self, rhs)
    }

    fn less_than(self, rhs: Self) -> (r: bool) {
        self < rhs
    }

    fn equals(self, rhs: Self) -> (r: bool) {
        self == rhs
    }

    fn half(self) -> (r: Self) {
        self / 2
    }

    fn from_u64_shifted(mantissa: u64, shift: u32) -> (r: Option<Self>) {
        match u128_from_u64_shifted(mantissa, shift) {
            Some(v) => Self::from_u128(v),
            None => None,
        }
    }
}

/// Whether the square of `value` is at most `bound`.
pub fn square_at_most<T: WideInt>(value: T, bound: T) -> (r: bool)
    ensures
        r == (value.as_nat() * value.as_nat() <= bound.as_nat()),
{
    proof {
        bound.lemma_as_nat_bound();
    }
    match value.checked_mul(value) {
        Some(square) => !bound.less_than(square),
        None => false,
    }
}

/// A wide integer with a companion type of twice its width, in which the
/// product of any two of its values fits.
pub trait Widen: WideInt {
    /// The type of twice the width.
    type Double: WideInt;

    /// The type of twice the width has the square of this type's number of
    /// values.
    proof fn lemma_double()
        ensures
            <Self::Double as WideInt>::limit() == Self::limit() * Self::limit(),
    ;

    /// The same number in the type of twice the width.
    fn widen(self) -> (r: Self::Double)
        ensures
            r.as_nat() == self.as_nat(),
    ;

    /// The same number in this type, where it fits.
    fn narrow(wide: Self::Double) -> (r: Option<Self>)
        ensures
            match r {
                Some(v) => v.as_nat() == wide.as_nat() < Self::limit(),
                None => wide.as_nat() >= Self::limit(),
            },
    ;
}

impl Widen for u8 {
    type Double = u16;

    proof fn lemma_double() {
    }

    fn widen(self) -> (r: u16) {
        self as u16
    }

    fn narrow(wide: u16) -> (r: Option<u8>) {
        if wide <= 0xff {
            Some(wide as u8)
        } else {
            None
        }
    }
}

impl Widen for u16 {
    type Double = u32;

    proof fn lemma_double() {
    }

    fn widen(self) -> (r: u32) {
        self as u32
    }

    fn narrow(wide: u32) -> (r: Option<u16>) {
        if wide <= 0xffff {
            Some(wide as u16)
        } else {
            None
        }
    }
}

impl Widen for u32 {
    type Double = u64;

    proof fn lemma_double() {
    }

    fn widen(self) -> (r: u64) {
        self as u64
    }

    fn narrow(wide: u64) -> (r: Option<u32>) {
        if wide <= 0xffff_ffff {
            Some(wide as u32)
        } else {
            None
        }
    }
}

impl Widen for u64 {
    type Double = u128;

    proof fn lemma_double() {
        assert(0x1_0000_0000_0000_0000nat * 0x1_0000_0000_0000_0000nat
            == 0x1_0000_0000_0000_0000_0000_0000_0000_0000nat) by (nonlinear_arith);
    }

    fn widen(self) -> (r: u128) {
        self as u128
    }

    fn narrow(wide: u128) -> (r: Option<u64>) {
        if wide <= 0xffff_ffff_ffff_ffff {
            Some(wide as u64)
        } else {
            None
        }
    }
}

} // verus!
