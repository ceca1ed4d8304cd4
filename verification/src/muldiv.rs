//! Sign of a product of three signed integers.

use vstd::prelude::*;

verus! {

/// `i32::signum` of std: `0` for zero, `1` for a positive and `-1` for a
/// negative number.
pub assume_specification[ i32::signum ](x: i32) -> (r: i32)
    ensures
        r == sign(x as int),
;

/// The sign of an integer as `-1`, `0` or `1`.
pub open spec fn sign(x: int) -> int {
    if x > 0 {
        1
    } else if x == 0 {
        0
    } else {
        -1
    }
}

/// Whether the product of three integers is negative: none of them is zero and
/// an odd number of them is negative.
pub open spec fn product_is_negative(a: int, b: int, c: int) -> bool {
    sign(a) * sign(b) * sign(c) < 0
}

/// Tells whether `a * b * c` is negative, by multiplying the three signs.
#[inline(always)]
pub fn signum3_simple(a: i32, b: i32, c: i32) -> (r: bool)
    ensures
        r == product_is_negative(a as int, b as int, c as int),
{
    let sa: i32 = a.signum();
    let sb: i32 = b.signum();
    let sc: i32 = c.signum();
    assert(-1 <= sa * sb <= 1) by (nonlinear_arith)
        requires
            -1 <= sa <= 1,
            -1 <= sb <= 1,
    ;
    let sab: i32 = sa * sb;
    assert(-1 <= sab * sc <= 1) by (nonlinear_arith)
        requires
            -1 <= sab <= 1,
            -1 <= sc <= 1,
    ;
    let sgn: i32 = sab * sc;
    sgn < 0
}

/// Tells whether `a * b * c` is negative from the sign bit of `a ^ b ^ c`,
/// without a multiplication.
#[inline(always)]
pub fn signum3_fast(a: i32, b: i32, c: i32) -> (r: bool)
    ensures
        r == product_is_negative(a as int, b as int, c as int),
{
    let sgn: i32 = (a ^ b ^ c) & (1i32 << 31);
    let any_zero = a == 0 || b == 0 || c == 0;
    assert(((a ^ b ^ c) & (1i32 << 31)) < 0 <==> ((a < 0) != ((b < 0) != (c < 0)))) by (bit_vector);
    assert(!any_zero ==> (product_is_negative(a as int, b as int, c as int) <==> ((a < 0) != ((b
        < 0) != (c < 0))))) by (nonlinear_arith)
        requires
            any_zero == (a == 0 || b == 0 || c == 0),
    ;
    assert(any_zero ==> !product_is_negative(a as int, b as int, c as int)) by (nonlinear_arith)
        requires
            any_zero == (a == 0 || b == 0 || c == 0),
    ;
    !any_zero && sgn < 0
}

} // verus!
