//! The fixed-point number and its checked arithmetic.

use crate::wide_int::{opt_nat, WideInt};
use vstd::arithmetic::div_mod::lemma_fundamental_div_mod_converse;
use vstd::arithmetic::power::pow;
use vstd::prelude::*;

verus! {

/// The constants of one fixed-point configuration: the integer type that holds
/// the scaled value, the native integer type that whole numbers are taken from
/// and given back in, and the scale.
pub trait PreciseConfig: Sized {
    /// The type of the scaled value.
    type Inner: WideInt;

    /// The native integer type of whole numbers.
    type Outer: WideInt;

    /// The number of decimal places.
    spec fn decimals() -> nat;

    /// The scaled value of the number one: ten to the power of the number of
    /// decimal places.
    spec fn scale() -> nat;

    /// The smallest scaled difference that is not negligible.
    spec fn precision() -> nat;

    /// The largest scaled value that a square root is taken of.
    spec fn max_sqrt_base() -> nat;

    /// The number of bits that the bit-by-bit square root adds to its first
    /// approximation.
    spec fn cordic_speed() -> nat;

    /// The constants are in range of the types: the scale and the precision fit
    /// the inner type, the outer type fits 128 bits, and the largest radicand is
    /// small enough for the steps of a square root not to overflow.
    proof fn lemma_config()
        ensures
            Self::scale() == pow(10, Self::decimals()),
            0 < Self::scale() < <Self::Inner as WideInt>::limit(),
            <Self::Outer as WideInt>::limit() <= 0x1_0000_0000_0000_0000_0000_0000_0000_0000,
            Self::precision() < <Self::Inner as WideInt>::limit(),
            2 * (Self::max_sqrt_base() * Self::scale() + Self::scale()) < <Self::Inner as WideInt>::limit(),
            (Self::max_sqrt_base() + Self::scale()) * Self::scale() + Self::scale() / 2
                < <Self::Inner as WideInt>::limit(),
            Self::cordic_speed() <= <Self::Inner as WideInt>::bits(),
    ;

    /// The scaled value of the number one.
    fn one() -> (r: Self::Inner)
        ensures
            r.as_nat() == Self::scale(),
    ;

    /// Half of the scale: added before a division by the scale, it makes the
    /// quotient round half up.
    fn rounding_correction() -> (r: Self::Inner)
        ensures
            r.as_nat() == Self::scale() / 2,
    ;

    /// The smallest scaled difference that is not negligible.
    fn precision_threshold() -> (r: Self::Inner)
        ensures
            r.as_nat() == Self::precision(),
    ;

    /// The largest scaled value that a square root is taken of.
    fn maximum_sqrt_base() -> (r: Self::Inner)
        ensures
            r.as_nat() == Self::max_sqrt_base(),
    ;

    /// The number of bits that the bit-by-bit square root adds to its first
    /// approximation.
    fn speed_factor() -> (r: u32)
        ensures
            r == Self::cordic_speed(),
    ;
}

/// `x` where it is a natural number below `limit`, nothing elsewhere: the
/// result of a checked operation whose exact result is `x`.
pub open spec fn fit(x: int, limit: nat) -> Option<nat> {
    if 0 <= x < limit {
        Some(x as nat)
    } else {
        None
    }
}

/// The scaled value of the whole number `n`.
pub open spec fn scaled_value(n: nat, scale: nat, limit: nat) -> Option<nat> {
    fit((n * scale) as int, limit)
}

/// The whole number nearest to the scaled value `v`, a half rounded up; nothing
/// where adding half the scale leaves the inner type or the whole number leaves
/// the outer type.
pub open spec fn rounded_value(v: nat, scale: nat, limit: nat, outer_limit: nat) -> Option<nat> {
    if v + scale / 2 < limit {
        fit(((v + scale / 2) / scale) as int, outer_limit)
    } else {
        None
    }
}

/// The largest multiple of the scale that is at most `v`.
pub open spec fn floor_value(v: nat, scale: nat) -> nat {
    (v / scale) * scale
}

/// The smallest multiple of the scale that is at least `v`; nothing where
/// `v + scale - 1` leaves the inner type.
pub open spec fn ceiling_value(v: nat, scale: nat, limit: nat) -> Option<nat> {
    if v + scale - 1 < limit {
        Some((((v + scale - 1) / scale as int) * scale) as nat)
    } else {
        None
    }
}

/// The scaled product of the scaled values `a` and `b`. Where `a * b` fits the
/// inner type it is divided by the scale, rounding half up. Where it does not,
/// the larger factor is divided by the scale first, rounding down, and then
/// multiplied by the smaller.
pub open spec fn mul_value(a: nat, b: nat, scale: nat, limit: nat) -> Option<nat> {
    if a * b < limit {
        if a * b + scale / 2 < limit {
            Some((a * b + scale / 2) / scale)
        } else {
            None
        }
    } else if a >= b {
        fit(((a / scale) * b) as int, limit)
    } else {
        fit(((b / scale) * a) as int, limit)
    }
}

/// The scaled quotient of the scaled values `a` and `b`. Where `a * scale`
/// fits the inner type, half the scale is added to it and the sum is divided by
/// `b`. Where it does not, `a` plus half the scale is divided by `b` first and
/// the quotient is multiplied by the scale.
pub open spec fn div_value(a: nat, b: nat, scale: nat, limit: nat) -> Option<nat> {
    if b == 0 {
        None
    } else if a * scale < limit {
        if a * scale + scale / 2 < limit {
            Some((a * scale + scale / 2) / b)
        } else {
            None
        }
    } else if a + scale / 2 < limit {
        fit((((a + scale / 2) / b) * scale) as int, limit)
    } else {
        None
    }
}

/// The loop of the binary exponentiation: with `e` exponent bits left, the
/// running base `squared` is squared, multiplied into `result` where the lowest
/// bit is set, and the exponent is halved.
pub open spec fn pow_loop(result: nat, squared: nat, e: nat, scale: nat, limit: nat) -> Option<nat>
    decreases e,
{
    if e == 0 {
        Some(result)
    } else {
        match mul_value(squared, squared, scale, limit) {
            None => None,
            Some(sq) => if e % 2 != 0 {
                match mul_value(result, sq, scale, limit) {
                    None => None,
                    Some(next) => pow_loop(next, sq, e / 2, scale, limit),
                }
            } else {
                pow_loop(result, sq, e / 2, scale, limit)
            },
        }
    }
}

/// The scaled power of the scaled value `base`, by square and multiply from
/// the lowest bit of the exponent, every product taken by [`mul_value`].
pub open spec fn pow_value(base: nat, e: nat, scale: nat, limit: nat) -> Option<nat> {
    pow_loop(
        if e % 2 == 0 {
            scale
        } else {
            base
        },
        base,
        e / 2,
        scale,
        limit,
    )
}

/// A decimal fixed-point number: the number `value / scale`, held as the
/// integer `value`.
#[derive(Clone, Debug, PartialEq)]
pub struct FixedPoint<C: PreciseConfig> {
    /// The number multiplied by the scale of the configuration.
    pub value: C::Inner,
}

impl<C: PreciseConfig> View for FixedPoint<C> {
    type V = nat;

    /// The scaled value as a natural number.
    open spec fn view(&self) -> nat {
        self.value.as_nat()
    }
}

/// The scaled value of an optional fixed-point number.
pub open spec fn opt_view<C: PreciseConfig>(r: Option<FixedPoint<C>>) -> Option<nat> {
    match r {
        Some(v) => Some(v@),
        None => None,
    }
}

impl<C: PreciseConfig> FixedPoint<C> {
    /// The number of values of the inner type.
    pub open spec fn limit() -> nat {
        <C::Inner as WideInt>::limit()
    }

    /// The number zero.
    pub fn zero() -> (r: Self)
        ensures
            r@ == 0,
    {
        FixedPoint { value: C::Inner::zero() }
    }

    /// The number one.
    pub fn one() -> (r: Self)
        ensures
            r@ == C::scale(),
    {
        FixedPoint { value: C::one() }
    }

    /// The fixed-point number of a whole number; `None` where the scaled value
    /// does not fit the inner type.
    pub fn new(int_val: C::Outer) -> (r: Option<Self>)
        ensures
            opt_view(r) == scaled_value(int_val.as_nat(), C::scale(), Self::limit()),
    {
        proof {
            C::lemma_config();
            int_val.lemma_as_nat_bound();
        }
        let wide = int_val.to_u128();
        assert(wide is Some);
        let n = wide.unwrap();
        match C::Inner::from_u128(n) {
            Some(int_value) => {
                let value = int_value.checked_mul(C::one())?;
                Some(FixedPoint { value })
            },
            None => {
                assert(n * C::scale() >= Self::limit()) by (nonlinear_arith)
                    requires
                        n >= Self::limit(),
                        C::scale() >= 1,
                ;
                None
            },
        }
    }

    /// The whole number nearest to this number, a half rounded up; `None` where
    /// the rounding leaves the inner type or the result the outer type.
    pub fn to_imprecise(&self) -> (r: Option<C::Outer>)
        ensures
            opt_nat(r) == rounded_value(
                self@,
                C::scale(),
                Self::limit(),
                <C::Outer as WideInt>::limit(),
            ),
    {
        proof {
            C::lemma_config();
        }
        let sum = self.value.checked_add(C::rounding_correction())?;
        let quotient = sum.checked_div(C::one())?;
        match quotient.to_u128() {
            Some(q) => C::Outer::from_u128(q),
            None => None,
        }
    }

    /// Whether the two numbers differ by less than `precision`.
    pub fn almost_eq(&self, rhs: &Self, precision: C::Inner) -> (r: bool)
        ensures
            r == (self@ - rhs@ < precision.as_nat() && rhs@ - self@ < precision.as_nat()),
    {
        let (difference, _) = self.unsigned_sub(rhs);
        difference.value.less_than(precision)
    }

    /// Whether this number is less than `rhs`.
    pub fn less_than(&self, rhs: &Self) -> (r: bool)
        ensures
            r == (self@ < rhs@),
    {
        self.value.less_than(rhs.value)
    }

    /// Whether this number is greater than `rhs`.
    pub fn greater_than(&self, rhs: &Self) -> (r: bool)
        ensures
            r == (self@ > rhs@),
    {
        rhs.value.less_than(self.value)
    }

    /// Whether this number is at most `rhs`.
    pub fn less_than_or_equal(&self, rhs: &Self) -> (r: bool)
        ensures
            r == (self@ <= rhs@),
    {
        !rhs.value.less_than(self.value)
    }

    /// Whether this number is at least `rhs`.
    pub fn greater_than_or_equal(&self, rhs: &Self) -> (r: bool)
        ensures
            r == (self@ >= rhs@),
    {
        !self.value.less_than(rhs.value)
    }

    /// The number rounded down to a whole number.
    pub fn floor(&self) -> (r: Option<Self>)
        ensures
            opt_view(r) == Some(floor_value(self@, C::scale())),
    {
        proof {
            C::lemma_config();
            self.value.lemma_as_nat_bound();
            lemma_floor_le(self@, C::scale());
        }
        let value = self.value.checked_div(C::one())?.checked_mul(C::one())?;
        Some(FixedPoint { value })
    }

    /// The number rounded up to a whole number; `None` where adding the scale
    /// less one overflows.
    pub fn ceiling(&self) -> (r: Option<Self>)
        ensures
            opt_view(r) == ceiling_value(self@, C::scale(), Self::limit()),
    {
        proof {
            C::lemma_config();
        }
        let smallest_positive = C::Inner::from_u128(1);
        assert(smallest_positive is Some);
        let below_one = C::one().checked_sub(smallest_positive.unwrap())?;
        let sum = self.value.checked_add(below_one)?;
        proof {
            sum.lemma_as_nat_bound();
            lemma_floor_le(sum.as_nat(), C::scale());
        }
        let value = sum.checked_div(C::one())?.checked_mul(C::one())?;
        Some(FixedPoint { value })
    }

    /// The quotient of the two numbers; `None` for a zero divisor, or where a
    /// step overflows.
    pub fn checked_div(&self, rhs: &Self) -> (r: Option<Self>)
        ensures
            opt_view(r) == div_value(self@, rhs@, C::scale(), Self::limit()),
    {
        proof {
            C::lemma_config();
        }
        if rhs.value.equals(C::Inner::zero()) {
            return None;
        }
        match self.value.checked_mul(C::one()) {
            Some(v) => {
                let value = v.checked_add(C::rounding_correction())?.checked_div(rhs.value)?;
                Some(FixedPoint { value })
            },
            None => {
                let value = self.value.checked_add(C::rounding_correction())?.checked_div(
                    rhs.value,
                )?.checked_mul(C::one())?;
                Some(FixedPoint { value })
            },
        }
    }

    /// The product of the two numbers; `None` where it overflows.
    pub fn checked_mul(&self, rhs: &Self) -> (r: Option<Self>)
        ensures
            opt_view(r) == mul_value(self@, rhs@, C::scale(), Self::limit()),
    {
        proof {
            C::lemma_config();
        }
        match self.value.checked_mul(rhs.value) {
            Some(v) => {
                let value = v.checked_add(C::rounding_correction())?.checked_div(C::one())?;
                Some(FixedPoint { value })
            },
            None => {
                let value = if !self.value.less_than(rhs.value) {
                    self.value.checked_div(C::one())?.checked_mul(rhs.value)?
                } else {
                    rhs.value.checked_div(C::one())?.checked_mul(self.value)?
                };
                Some(FixedPoint { value })
            },
        }
    }

    /// The sum of the two numbers; `None` where it overflows.
    pub fn checked_add(&self, rhs: &Self) -> (r: Option<Self>)
        ensures
            opt_view(r) == fit((self@ + rhs@) as int, Self::limit()),
    {
        let value = self.value.checked_add(rhs.value)?;
        Some(FixedPoint { value })
    }

    /// This number less `rhs`; `None` where `rhs` is the larger.
    pub fn checked_sub(&self, rhs: &Self) -> (r: Option<Self>)
        ensures
            opt_view(r) == fit(self@ - rhs@, Self::limit()),
    {
        proof {
            self.value.lemma_as_nat_bound();
        }
        let value = self.value.checked_sub(rhs.value)?;
        Some(FixedPoint { value })
    }

    /// The distance between the two numbers, and whether `rhs` is the larger.
    pub fn unsigned_sub(&self, rhs: &Self) -> (r: (Self, bool))
        ensures
            r.1 == (self@ < rhs@),
            r.0@ == if self@ < rhs@ {
                rhs@ - self@
            } else {
                self@ - rhs@
            },
    {
        match self.value.checked_sub(rhs.value) {
            None => {
                let difference = rhs.value.checked_sub(self.value);
                assert(difference is Some);
                (FixedPoint { value: difference.unwrap() }, true)
            },
            Some(value) => (FixedPoint { value }, false),
        }
    }

    /// The number raised to a whole power by binary exponentiation; `None`
    /// where a product overflows.
    pub fn checked_pow(&self, exponent: u32) -> (r: Option<Self>)
        ensures
            opt_view(r) == pow_value(self@, exponent as nat, C::scale(), Self::limit()),
    {
        let value = if exponent % 2 == 0 {
            C::one()
        } else {
            self.value
        };
        let mut result = FixedPoint::<C> { value };
        let mut squared_base = FixedPoint::<C> { value: self.value };
        let mut current_exponent: u32 = exponent / 2;
        while current_exponent != 0
            invariant
                pow_value(self@, exponent as nat, C::scale(), Self::limit()) == pow_loop(
                    result@,
                    squared_base@,
                    current_exponent as nat,
                    C::scale(),
                    Self::limit(),
                ),
            decreases current_exponent,
        {
            squared_base = squared_base.checked_mul(&squared_base)?;
            if current_exponent % 2 != 0 {
                result = result.checked_mul(&squared_base)?;
            }
            current_exponent = current_exponent / 2;
        }
        Some(result)
    }
}

/// Scaling a whole number and rounding the scaled value to a whole number
/// gives the whole number back, where the scaled value with half the scale
/// added to it fits the inner type.
pub proof fn lemma_round_trip(n: nat, scale: nat, limit: nat, outer_limit: nat)
    requires
        scale > 0,
        n < outer_limit,
        n * scale + scale / 2 < limit,
    ensures
        scaled_value(n, scale, limit) == Some(n * scale),
        rounded_value(n * scale, scale, limit, outer_limit) == Some(n),
{
    lemma_fundamental_div_mod_converse(
        (n * scale + scale / 2) as int,
        scale as int,
        n as int,
        (scale / 2) as int,
    );
}

/// Rounding to a whole number rounds to the nearest one, a half upwards: the
/// scaled value plus half the scale lies at or above the rounded number times
/// the scale, and less than one scale above it.
pub proof fn lemma_rounds_half_up(v: nat, scale: nat)
    requires
        scale > 0,
    ensures
        ((v + scale / 2) / scale) * scale <= v + scale / 2 < ((v + scale / 2) / scale) * scale
            + scale,
{
    let n = v + scale / 2;
    assert((n / scale) * scale <= n < (n / scale) * scale + scale) by (nonlinear_arith)
        requires
            scale > 0,
    ;
}

/// Rounding down to a multiple of `d` does not grow a number.
pub proof fn lemma_floor_le(x: nat, d: nat)
    requires
        d > 0,
    ensures
        (x / d) * d <= x,
{
    assert((x / d) * d <= x) by (nonlinear_arith)
        requires
            d > 0,
    ;
}

} // verus!
