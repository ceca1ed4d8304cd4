//! Multiplication followed by division, without a spurious overflow of the
//! product.

use crate::precise_number::pn_impl::{fit, opt_view, FixedPoint, PreciseConfig};
use crate::wide_int::{WideInt, Widen};
use vstd::arithmetic::div_mod::lemma_fundamental_div_mod_converse;
use vstd::prelude::*;

verus! {

/// The floor of `a * b / c` where it fits below `limit`; nothing for a zero
/// divisor.
pub open spec fn mul_div_floor_value(a: nat, b: nat, c: nat, limit: nat) -> Option<nat> {
    if c == 0 {
        None
    } else {
        fit(((a * b) / c) as int, limit)
    }
}

/// The ceiling of `a * b / c` where it fits below `limit`; nothing for a zero
/// divisor.
pub open spec fn mul_div_ceil_value(a: nat, b: nat, c: nat, limit: nat) -> Option<nat> {
    if c == 0 {
        None
    } else {
        fit((a * b + c - 1) / (c as int), limit)
    }
}

/// The floor of a quotient is at most its ceiling, which is at most one more;
/// the two are equal just when the division is exact.
pub proof fn lemma_floor_ceil(n: nat, c: nat)
    requires
        c > 0,
    ensures
        n / c <= (n + c - 1) / (c as int) <= n / c + 1,
        n / c == (n + c - 1) / (c as int) <==> n % c == 0,
{
    let q = n / c;
    let r = n % c;
    assert(n == c * q + r && 0 <= r < c) by (nonlinear_arith)
        requires
            c > 0,
            q == n / c,
            r == n % c,
    ;
    if r == 0 {
        assert(n + c - 1 == q * c + (c - 1)) by (nonlinear_arith)
            requires
                n == c * q + r,
                r == 0,
        ;
        lemma_fundamental_div_mod_converse(n + c - 1, c as int, q as int, c - 1);
    } else {
        assert(n + c - 1 == (q + 1) * c + (r - 1)) by (nonlinear_arith)
            requires
                n == c * q + r,
        ;
        lemma_fundamental_div_mod_converse(n + c - 1, c as int, (q + 1) as int, r - 1);
    }
}

/// For a divisor that is not zero, rounding `a * b / c` down gives at most what
/// rounding it up gives, and where the rounding up fits the inner type the
/// rounding down does. The two agree just when `c` divides `a * b`, and differ
/// by one otherwise.
pub proof fn lemma_mul_div_ordering(a: nat, b: nat, c: nat, limit: nat)
    requires
        c > 0,
    ensures
        mul_div_ceil_value(a, b, c, limit) matches Some(up) ==> (mul_div_floor_value(
            a,
            b,
            c,
            limit,
        ) matches Some(down) && down <= up <= down + 1 && (down == up <==> (a * b) % c == 0)),
{
    lemma_floor_ceil(a * b, c);
}

impl<C: PreciseConfig> FixedPoint<C> where C::Inner: Widen {
    /// The floor of `self * num / denom` on the scaled values, the product
    /// taken in twice the width where it overflows the inner type; `None` for a
    /// zero `denom` or a quotient that does not fit the inner type.
    pub fn mul_div_floor(&self, num: Self, denom: Self) -> (r: Option<Self>)
        ensures
            opt_view(r) == mul_div_floor_value(self@, num@, denom@, Self::limit()),
    {
        if denom.value.equals(C::Inner::zero()) {
            return None;
        }
        match self.value.checked_mul(num.value) {
            Some(product) => {
                proof {
                    lemma_quotient_bound(product.as_nat(), denom@);
                }
                let value = product.checked_div(denom.value)?;
                Some(FixedPoint { value })
            },
            None => self.mul_div_floor_naive(num, denom),
        }
    }

    /// The ceiling of `self * num / denom` on the scaled values, the numerator
    /// taken in twice the width where it overflows the inner type; `None` for a
    /// zero `denom` or a quotient that does not fit the inner type.
    pub fn mul_div_ceil(&self, num: Self, denom: Self) -> (r: Option<Self>)
        ensures
            opt_view(r) == mul_div_ceil_value(self@, num@, denom@, Self::limit()),
    {
        if denom.value.equals(C::Inner::zero()) {
            return None;
        }
        let one = C::Inner::from_u128(1);
        proof {
            C::Inner::lemma_limit();
        }
        let below = denom.value.checked_sub(one.unwrap());
        let numerator = match self.value.checked_mul(num.value) {
            Some(product) => product.checked_add(below.unwrap()),
            None => None,
        };
        match numerator {
            Some(n) => {
                proof {
                    lemma_quotient_bound(n.as_nat(), denom@);
                }
                let value = n.checked_div(denom.value)?;
                Some(FixedPoint { value })
            },
            None => self.mul_div_ceil_naive(num, denom),
        }
    }

    /// The floor of `self * num / denom`, always computed in twice the width.
    pub fn mul_div_floor_naive(&self, num: Self, denom: Self) -> (r: Option<Self>)
        ensures
            opt_view(r) == mul_div_floor_value(self@, num@, denom@, Self::limit()),
    {
        if denom.value.equals(C::Inner::zero()) {
            return None;
        }
        let a = self.value.widen();
        let b = num.value.widen();
        let c = denom.value.widen();
        proof {
            C::Inner::lemma_double();
            C::Inner::lemma_limit();
            self.value.lemma_as_nat_bound();
            num.value.lemma_as_nat_bound();
            lemma_product_bound(self@, num@, Self::limit());
        }
        let product = a.checked_mul(b)?;
        let quotient = product.checked_div(c)?;
        match C::Inner::narrow(quotient) {
            Some(value) => Some(FixedPoint { value }),
            None => None,
        }
    }

    /// The ceiling of `self * num / denom`, always computed in twice the width.
    pub fn mul_div_ceil_naive(&self, num: Self, denom: Self) -> (r: Option<Self>)
        ensures
            opt_view(r) == mul_div_ceil_value(self@, num@, denom@, Self::limit()),
    {
        if denom.value.equals(C::Inner::zero()) {
            return None;
        }
        let a = self.value.widen();
        let b = num.value.widen();
        let c = denom.value.widen();
        let one = <C::Inner as Widen>::Double::from_u128(1);
        proof {
            C::Inner::lemma_double();
            C::Inner::lemma_limit();
            <C::Inner as Widen>::Double::lemma_limit();
            self.value.lemma_as_nat_bound();
            num.value.lemma_as_nat_bound();
            denom.value.lemma_as_nat_bound();
            lemma_product_bound(self@, num@, Self::limit());
        }
        let below = c.checked_sub(one.unwrap())?;
        let product = a.checked_mul(b)?;
        let numerator = product.checked_add(below)?;
        let quotient = numerator.checked_div(c)?;
        match C::Inner::narrow(quotient) {
            Some(value) => Some(FixedPoint { value }),
            None => None,
        }
    }
}

/// A quotient by a positive number is at most the dividend.
proof fn lemma_quotient_bound(n: nat, c: nat)
    requires
        c > 0,
    ensures
        n / c <= n,
{
    assert(n / c <= n) by (nonlinear_arith)
        requires
            c > 0,
    ;
}

/// The product of two numbers below `limit`, and that product plus a number
/// below `limit - 1`, are below the square of `limit`.
proof fn lemma_product_bound(a: nat, b: nat, limit: nat)
    requires
        a < limit,
        b < limit,
    ensures
        a * b + limit - 1 <= limit * limit,
{
    assert(a * b + limit - 1 <= limit * limit) by (nonlinear_arith)
        requires
            a < limit,
            b < limit,
    ;
}

} // verus!
