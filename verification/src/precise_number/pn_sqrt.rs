//! Square roots of fixed-point numbers: Newton's method, and a construction
//! of the root bit by bit.

use crate::precise_number::pn_impl::{div_value, fit, opt_view, FixedPoint, PreciseConfig};
use crate::precise_number::pn_sqrt_laws::{lemma_sqrt_newton_bracket, newton_in_reach};
use crate::wide_int::{square_at_most, WideInt};
use vstd::arithmetic::div_mod::lemma_fundamental_div_mod_converse;
use vstd::arithmetic::power2::{lemma2_to64, lemma_pow2_pos, lemma_pow2_unfold, pow2};
use vstd::prelude::*;

verus! {

/// The largest number of steps that Newton's method takes.
pub const MAX_APPROXIMATION_ITERATIONS: u32 = 100;

/// Newton's method for the square root of `radicand / scale`, all numbers
/// scaled and `product` being `radicand * scale`: up to `iterations` times the
/// guess becomes the mean of itself and `product / guess`, until a step moves
/// it by less than `precision`. Nothing where a guess is zero or a sum leaves
/// the inner type.
pub open spec fn newton_iterate(
    product: nat,
    guess: nat,
    iterations: nat,
    precision: nat,
    limit: nat,
) -> Option<nat>
    decreases iterations,
{
    if iterations == 0 {
        Some(guess)
    } else if guess == 0 {
        None
    } else if guess + product / guess >= limit {
        None
    } else {
        let next = (guess + product / guess) / 2;
        if guess - next < precision && next - guess < precision {
            Some(next)
        } else {
            newton_iterate(product, next, (iterations - 1) as nat, precision, limit)
        }
    }
}

/// Newton's method from a given first guess: zero for the radicand zero,
/// nothing where `radicand * scale` leaves the inner type.
pub open spec fn newton_value(
    radicand: nat,
    guess: nat,
    iterations: nat,
    scale: nat,
    precision: nat,
    limit: nat,
) -> Option<nat> {
    if radicand == 0 {
        Some(0)
    } else if radicand * scale >= limit {
        None
    } else {
        newton_iterate(radicand * scale, guess, iterations, precision, limit)
    }
}

/// The square root by Newton's method: nothing above `max`; zero and one are
/// their own roots; any other radicand starts from the mean of itself and one.
pub open spec fn sqrt_newton_value(
    radicand: nat,
    scale: nat,
    precision: nat,
    max: nat,
    limit: nat,
) -> Option<nat> {
    if radicand > max {
        None
    } else if radicand == 0 || radicand == scale {
        Some(radicand)
    } else if 2 * scale >= limit || radicand + scale >= limit {
        None
    } else {
        match div_value(radicand + scale, 2 * scale, scale, limit) {
            None => None,
            Some(guess) => newton_value(
                radicand,
                guess,
                MAX_APPROXIMATION_ITERATIONS as nat,
                scale,
                precision,
                limit,
            ),
        }
    }
}

/// The mean of a positive guess and the quotient of `product` by it is, even
/// rounded down twice, at least the square root of `product` rounded down.
pub proof fn lemma_newton_step(product: nat, guess: nat)
    requires
        guess >= 1,
    ensures
        ((guess + product / guess) / 2 + 1) * ((guess + product / guess) / 2 + 1) > product,
{
    let q = product / guess;
    let next = (guess + q) / 2;
    assert(product < guess * (q + 1)) by (nonlinear_arith)
        requires
            guess >= 1,
            q == product / guess,
    ;
    assert(4 * (guess * (q + 1)) <= (guess + q + 1) * (guess + q + 1)) by (nonlinear_arith);
    assert((guess + q + 1) * (guess + q + 1) <= (2 * (next + 1)) * (2 * (next + 1)))
        by (nonlinear_arith)
        requires
            guess + q + 1 <= 2 * (next + 1),
    ;
    assert((2 * (next + 1)) * (2 * (next + 1)) == 4 * ((next + 1) * (next + 1)))
        by (nonlinear_arith);
}

/// Where a Newton step moves the guess by less than `precision`, the square of
/// the new guess exceeds `product` by less than the square of `precision`.
pub proof fn lemma_newton_settled(product: nat, guess: nat, precision: nat)
    requires
        guess >= 1,
        guess - (guess + product / guess) / 2 < precision,
        (guess + product / guess) / 2 - guess < precision,
    ensures
        ((guess + product / guess) / 2) * ((guess + product / guess) / 2) < product + precision
            * precision,
{
    let q = product / guess;
    let next = (guess + q) / 2;
    let d: int = guess - next;
    assert(guess * q <= product) by (nonlinear_arith)
        requires
            guess >= 1,
            q == product / guess,
    ;
    assert(2 * (guess * next) <= guess * guess + guess * q) by (nonlinear_arith)
        requires
            2 * next <= guess + q,
    ;
    assert(d * d == guess * guess - 2 * (guess * next) + next * next) by (nonlinear_arith)
        requires
            d == guess - next,
    ;
    assert(d * d < precision * precision) by (nonlinear_arith)
        requires
            -(precision as int) < d < precision,
    ;
}

/// Newton's method on a product and a first guess that are at least one and at
/// most `bound`, with twice `bound` in the inner type: it gives a root that is
/// at least one and at most `bound`, and after a step or more the root's
/// successor squared exceeds the product.
pub proof fn lemma_newton_iterate(
    product: nat,
    guess: nat,
    iterations: nat,
    precision: nat,
    limit: nat,
    bound: nat,
)
    requires
        1 <= product <= bound,
        1 <= guess <= bound,
        2 * bound < limit,
    ensures
        newton_iterate(product, guess, iterations, precision, limit) matches Some(root) && 1
            <= root <= bound && (iterations >= 1 ==> (root + 1) * (root + 1) > product),
    decreases iterations,
{
    if iterations > 0 {
        let q = product / guess;
        let next = (guess + q) / 2;
        assert(q <= product && (guess <= product ==> q >= 1)) by (nonlinear_arith)
            requires
                guess >= 1,
                q == product / guess,
        ;
        lemma_newton_step(product, guess);
        if !(guess - next < precision && next - guess < precision) {
            lemma_newton_iterate(product, next, (iterations - 1) as nat, precision, limit, bound);
            if iterations == 1 {
                assert(newton_iterate(product, next, 0, precision, limit) == Some(next));
            }
        }
    }
}

/// Whether Newton's method ends because a step moved the guess by less than
/// `precision`, and not because a guess was zero, a sum left the inner type or
/// the steps ran out.
pub open spec fn newton_settles(
    product: nat,
    guess: nat,
    iterations: nat,
    precision: nat,
    limit: nat,
) -> bool
    decreases iterations,
{
    if iterations == 0 || guess == 0 || guess + product / guess >= limit {
        false
    } else {
        let next = (guess + product / guess) / 2;
        if guess - next < precision && next - guess < precision {
            true
        } else {
            newton_settles(product, next, (iterations - 1) as nat, precision, limit)
        }
    }
}

/// Where Newton's method settles, the square of its root exceeds the product by
/// less than the square of `precision`.
pub proof fn lemma_newton_settles(
    product: nat,
    guess: nat,
    iterations: nat,
    precision: nat,
    limit: nat,
)
    requires
        newton_settles(product, guess, iterations, precision, limit),
    ensures
        newton_iterate(product, guess, iterations, precision, limit) matches Some(root) && root
            * root < product + precision * precision,
    decreases iterations,
{
    let next = (guess + product / guess) / 2;
    if guess - next < precision && next - guess < precision {
        lemma_newton_settled(product, guess, precision);
    } else {
        lemma_newton_settles(product, next, (iterations - 1) as nat, precision, limit);
    }
}

/// The first guess of the square root, the mean of the radicand and one, is
/// what the fixed-point division by two gives.
pub proof fn lemma_newton_guess(radicand: nat, scale: nat, limit: nat)
    requires
        scale > 0,
        (radicand + scale) * scale + scale / 2 < limit,
    ensures
        div_value(radicand + scale, 2 * scale, scale, limit) == Some((radicand + scale) / 2),
{
    let n = radicand + scale;
    let q = n / 2;
    let b = n % 2;
    assert(n * scale + scale / 2 == q * (2 * scale) + (b * scale + scale / 2)) by (nonlinear_arith)
        requires
            n == 2 * q + b,
    ;
    assert(b * scale + scale / 2 < 2 * scale) by (nonlinear_arith)
        requires
            0 <= b <= 1,
            scale > 0,
    ;
    assert(b * scale >= 0) by (nonlinear_arith)
        requires
            b >= 0,
    ;
    lemma_fundamental_div_mod_converse(
        (n * scale + scale / 2) as int,
        (2 * scale) as int,
        q as int,
        (b * scale + scale / 2) as int,
    );
    assert(n * scale < limit);
}

/// In a configuration whose constants are in range, the square root by
/// Newton's method of a radicand up to `max` exists, and no number whose
/// square is at most `radicand * scale` exceeds it by one or more.
pub proof fn lemma_sqrt_newton_lower(
    radicand: nat,
    scale: nat,
    precision: nat,
    max: nat,
    limit: nat,
)
    requires
        scale > 0,
        radicand <= max,
        2 * (max * scale + scale) < limit,
        (max + scale) * scale + scale / 2 < limit,
    ensures
        sqrt_newton_value(radicand, scale, precision, max, limit) matches Some(root) && (root + 1)
            * (root + 1) > radicand * scale,
{
    let bound = max * scale + scale;
    assert(radicand * scale <= max * scale) by (nonlinear_arith)
        requires
            radicand <= max,
    ;
    assert((radicand + scale) * scale <= (max + scale) * scale) by (nonlinear_arith)
        requires
            radicand <= max,
    ;
    assert(max * scale >= max) by (nonlinear_arith)
        requires
            scale >= 1,
    ;
    if radicand == 0 {
        assert(radicand * scale == 0) by (nonlinear_arith)
            requires
                radicand == 0,
        ;
        assert((0nat + 1) * (0nat + 1) > 0) by (nonlinear_arith);
    } else if radicand == scale {
        assert((radicand + 1) * (radicand + 1) > radicand * scale) by (nonlinear_arith)
            requires
                radicand == scale,
        ;
    } else {
        lemma_newton_guess(radicand, scale, limit);
        assert(radicand * scale >= 1) by (nonlinear_arith)
            requires
                radicand >= 1,
                scale >= 1,
        ;
        assert((radicand + scale) * scale >= radicand + scale) by (nonlinear_arith)
            requires
                scale >= 1,
        ;
        lemma_newton_iterate(
            radicand * scale,
            (radicand + scale) / 2,
            MAX_APPROXIMATION_ITERATIONS as nat,
            precision,
            limit,
            bound,
        );
    }
}

/// Where Newton's method settles on the square root of a radicand other than
/// zero and one, the square of the root exceeds `radicand * scale` by less than
/// the square of `precision`.
pub proof fn lemma_sqrt_newton_upper(
    radicand: nat,
    scale: nat,
    precision: nat,
    max: nat,
    limit: nat,
)
    requires
        scale > 0,
        0 < radicand <= max,
        radicand != scale,
        2 * (max * scale + scale) < limit,
        (max + scale) * scale + scale / 2 < limit,
        newton_settles(
            radicand * scale,
            (radicand + scale) / 2,
            MAX_APPROXIMATION_ITERATIONS as nat,
            precision,
            limit,
        ),
    ensures
        sqrt_newton_value(radicand, scale, precision, max, limit) matches Some(root) && root * root
            < radicand * scale + precision * precision,
{
    lemma_sqrt_newton_lower(radicand, scale, precision, max, limit);
    assert((radicand + scale) * scale <= (max + scale) * scale) by (nonlinear_arith)
        requires
            radicand <= max,
    ;
    assert(radicand * scale <= max * scale) by (nonlinear_arith)
        requires
            radicand <= max,
    ;
    lemma_newton_guess(radicand, scale, limit);
    lemma_newton_settles(
        radicand * scale,
        (radicand + scale) / 2,
        MAX_APPROXIMATION_ITERATIONS as nat,
        precision,
        limit,
    );
}

impl<C: PreciseConfig> FixedPoint<C> {
    /// The smallest radicand that a square root is taken of.
    pub fn minimum_sqrt_base() -> (r: Self)
        ensures
            r@ == 0,
    {
        FixedPoint { value: C::Inner::zero() }
    }

    /// The largest radicand that a square root is taken of.
    pub fn maximum_sqrt_base() -> (r: Self)
        ensures
            r@ == C::max_sqrt_base(),
    {
        FixedPoint { value: C::maximum_sqrt_base() }
    }

    /// Newton's method for the square root, from the first guess `guess` and
    /// with at most `iterations` steps. The radicand is multiplied by the scale
    /// once; every step divides that product by the guess.
    pub fn newtonian_root_approximation_fast(&self, guess: Self, iterations: u32) -> (r: Option<
        Self,
    >)
        ensures
            opt_view(r) == newton_value(
                self@,
                guess@,
                iterations as nat,
                C::scale(),
                C::precision(),
                Self::limit(),
            ),
    {
        let zero = C::Inner::zero();
        if self.value.equals(zero) {
            return Some(FixedPoint { value: zero });
        }
        let product = self.value.checked_mul(C::one())?;
        let mut current = FixedPoint::<C> { value: guess.value };
        let mut remaining = iterations;
        while remaining > 0
            invariant
                product.as_nat() == self@ * C::scale(),
                newton_value(
                    self@,
                    guess@,
                    iterations as nat,
                    C::scale(),
                    C::precision(),
                    Self::limit(),
                ) == newton_iterate(
                    product.as_nat(),
                    current@,
                    remaining as nat,
                    C::precision(),
                    Self::limit(),
                ),
            decreases remaining,
        {
            let quotient = product.checked_div(current.value)?;
            let sum = current.value.checked_add(quotient)?;
            let next = FixedPoint::<C> { value: sum.half() };
            if current.almost_eq(&next, C::precision_threshold()) {
                return Some(next);
            }
            current = next;
            remaining = remaining - 1;
        }
        Some(current)
    }

    /// The square root by Newton's method; `None` above the largest radicand.
    /// The root's successor squared exceeds the radicand times the scale. In a
    /// configuration within reach the method settles, and the root's square
    /// exceeds the radicand times the scale by less than the square of the
    /// precision.
    pub fn sqrt_newton(&self) -> (r: Option<Self>)
        ensures
            opt_view(r) == sqrt_newton_value(
                self@,
                C::scale(),
                C::precision(),
                C::max_sqrt_base(),
                Self::limit(),
            ),
            r is Some <==> self@ <= C::max_sqrt_base(),
            r matches Some(root) ==> (root@ + 1) * (root@ + 1) > self@ * C::scale(),
            r matches Some(root) ==> (newton_in_reach(
                C::scale(),
                C::precision(),
                C::max_sqrt_base(),
                Self::limit(),
            ) ==> root@ * root@ < self@ * C::scale() + C::precision() * C::precision()),
    {
        proof {
            C::lemma_config();
            if self@ <= C::max_sqrt_base() {
                lemma_sqrt_newton_lower(
                    self@,
                    C::scale(),
                    C::precision(),
                    C::max_sqrt_base(),
                    Self::limit(),
                );
                if newton_in_reach(
                    C::scale(),
                    C::precision(),
                    C::max_sqrt_base(),
                    Self::limit(),
                ) {
                    lemma_sqrt_newton_bracket(
                        self@,
                        C::scale(),
                        C::precision(),
                        C::max_sqrt_base(),
                        Self::limit(),
                    );
                }
            }
        }
        if self.greater_than(&Self::maximum_sqrt_base()) {
            return None;
        }
        let one = Self::one();
        if self.value.equals(C::Inner::zero()) || self.value.equals(one.value) {
            return Some(FixedPoint { value: self.value });
        }
        let two = one.checked_add(&one)?;
        let guess = self.checked_add(&one)?.checked_div(&two)?;
        self.newtonian_root_approximation_fast(guess, MAX_APPROXIMATION_ITERATIONS)
    }
}


/// The first approximation of the root of a `product` that is at least the
/// square of `weight`: `weight` is doubled for as long as its double stays in
/// the inner type and the square of the double is at most `product`.
pub open spec fn cordic_start_up(product: nat, weight: nat, limit: nat) -> nat
    decreases limit - weight,
{
    if 0 < weight && 2 * weight < limit && (2 * weight) * (2 * weight) <= product {
        cordic_start_up(product, 2 * weight, limit)
    } else {
        weight
    }
}

/// The first approximation of the root of a `product` below the square of
/// `weight`: `weight` is halved until its square is at most `product`.
pub open spec fn cordic_start_down(product: nat, weight: nat) -> nat
    decreases weight,
{
    if weight == 0 || weight * weight <= product {
        weight
    } else {
        cordic_start_down(product, weight / 2)
    }
}

/// The construction of the root bit by bit: at most `steps` times the weight
/// is halved and, unless it has become zero, added to the root where the square
/// of the sum is at most `product`.
pub open spec fn cordic_refine(product: nat, root: nat, weight: nat, steps: nat) -> nat
    decreases steps,
{
    if steps == 0 || weight / 2 == 0 {
        root
    } else {
        let half = weight / 2;
        let next = if (root + half) * (root + half) <= product {
            root + half
        } else {
            root
        };
        cordic_refine(product, next, half, (steps - 1) as nat)
    }
}

/// How far below the true root the construction may end when it starts at
/// `weight` and takes `steps` steps: the last weight, and one for every weight
/// on the way that was odd.
pub open spec fn cordic_gap(weight: nat, steps: nat) -> nat
    decreases steps,
{
    if steps == 0 || weight / 2 == 0 {
        weight
    } else {
        weight % 2 + cordic_gap(weight / 2, (steps - 1) as nat)
    }
}

/// The first approximation of the root of `radicand / scale`, a power of two
/// times the scale or the scale halved some times: upwards from the scale for a
/// radicand of at least one, downwards for a smaller one.
pub open spec fn cordic_start(radicand: nat, scale: nat, limit: nat) -> nat {
    if radicand >= scale {
        cordic_start_up(radicand * scale, scale, limit)
    } else {
        cordic_start_down(radicand * scale, scale)
    }
}

/// The square root built bit by bit with `speed` bits below the first
/// approximation: nothing above `max`; zero and one are their own roots.
pub open spec fn sqrt_cordic_value(radicand: nat, speed: nat, scale: nat, max: nat, limit: nat) -> Option<
    nat,
> {
    if radicand > max {
        None
    } else if radicand == 0 || radicand == scale {
        Some(radicand)
    } else if radicand * scale >= limit {
        None
    } else {
        let start = cordic_start(radicand, scale, limit);
        Some(cordic_refine(radicand * scale, start, start, speed))
    }
}

/// The upward search ends at a weight whose square is at most the product and
/// whose double squared exceeds it.
pub proof fn lemma_cordic_start_up(product: nat, weight: nat, limit: nat)
    requires
        0 < weight < limit,
        weight * weight <= product < limit,
    ensures
        ({
            let start = cordic_start_up(product, weight, limit);
            0 < start < limit && start * start <= product < (2 * start) * (2 * start)
        }),
    decreases limit - weight,
{
    if 2 * weight < limit && (2 * weight) * (2 * weight) <= product {
        lemma_cordic_start_up(product, 2 * weight, limit);
    } else if 2 * weight >= limit {
        assert((2 * weight) * (2 * weight) >= 2 * weight) by (nonlinear_arith)
            requires
                weight >= 1,
        ;
    }
}

/// The downward search ends at a positive weight whose square is at most the
/// product and whose double plus one squared exceeds it.
pub proof fn lemma_cordic_start_down(product: nat, weight: nat)
    requires
        product >= 1,
        product < (2 * weight + 1) * (2 * weight + 1),
    ensures
        ({
            let start = cordic_start_down(product, weight);
            0 < start <= weight && start * start <= product < (2 * start + 1) * (2 * start + 1)
        }),
    decreases weight,
{
    if weight == 0 {
        assert((2 * weight + 1) * (2 * weight + 1) == 1) by (nonlinear_arith)
            requires
                weight == 0,
        ;
    } else if weight * weight > product {
        let half = weight / 2;
        assert(weight * weight <= (2 * half + 1) * (2 * half + 1)) by (nonlinear_arith)
            requires
                weight <= 2 * half + 1,
        ;
        lemma_cordic_start_down(product, half);
    }
}

/// The gap is at most the weight it starts from.
pub proof fn lemma_cordic_gap_le(weight: nat, steps: nat)
    ensures
        cordic_gap(weight, steps) <= weight,
    decreases steps,
{
    if !(steps == 0 || weight / 2 == 0) {
        lemma_cordic_gap_le(weight / 2, (steps - 1) as nat);
    }
}

/// With as many steps as the weight has bits, the gap is at most that number.
pub proof fn lemma_cordic_gap_full(weight: nat, steps: nat, bits: nat)
    requires
        weight < pow2(bits),
        steps >= bits,
    ensures
        cordic_gap(weight, steps) <= bits,
    decreases bits,
{
    lemma2_to64();
    if bits == 0 {
    } else if steps == 0 || weight / 2 == 0 {
    } else {
        lemma_pow2_unfold(bits);
        lemma_cordic_gap_full(weight / 2, (steps - 1) as nat, (bits - 1) as nat);
    }
}

/// The construction keeps the root's square at most the product, and closes
/// the distance to a number whose square exceeds the product down to the gap.
pub proof fn lemma_cordic_refine(product: nat, root: nat, weight: nat, steps: nat, slack: nat)
    requires
        root * root <= product < (root + weight + slack) * (root + weight + slack),
    ensures
        ({
            let last = cordic_refine(product, root, weight, steps);
            let gap = cordic_gap(weight, steps) + slack;
            last * last <= product < (last + gap) * (last + gap)
        }),
    decreases steps,
{
    if !(steps == 0 || weight / 2 == 0) {
        let half = weight / 2;
        let odd = weight % 2;
        if (root + half) * (root + half) <= product {
            assert(root + half + half + (odd + slack) == root + weight + slack);
            lemma_cordic_refine(product, root + half, half, (steps - 1) as nat, odd + slack);
        } else {
            assert((root + half) * (root + half) <= (root + half + (odd + slack)) * (root + half
                + (odd + slack))) by (nonlinear_arith);
            lemma_cordic_refine(product, root, half, (steps - 1) as nat, odd + slack);
        }
    }
}

/// In a configuration whose constants are in range, the square root built bit
/// by bit of a radicand up to `max` exists; its square is at most
/// `radicand * scale`, and the square of the root plus the gap and one exceeds
/// `radicand * scale`.
pub proof fn lemma_sqrt_cordic_bracket(radicand: nat, speed: nat, scale: nat, max: nat, limit: nat)
    requires
        scale > 0,
        radicand <= max,
        max * scale + scale < limit,
    ensures
        ({
            let gap = cordic_gap(cordic_start(radicand, scale, limit), speed) + 1;
            sqrt_cordic_value(radicand, speed, scale, max, limit) matches Some(root) && root * root
                <= radicand * scale < (root + gap) * (root + gap)
        }),
{
    let product = radicand * scale;
    let start = cordic_start(radicand, scale, limit);
    let gap = cordic_gap(start, speed) + 1;
    assert(product <= max * scale) by (nonlinear_arith)
        requires
            radicand <= max,
            product == radicand * scale,
    ;
    if radicand == 0 {
        assert(product == 0) by (nonlinear_arith)
            requires
                radicand == 0,
                product == radicand * scale,
        ;
        assert(0 < (0 + gap) * (0 + gap)) by (nonlinear_arith)
            requires
                gap >= 1,
        ;
    } else if radicand == scale {
        assert(radicand * radicand < (radicand + gap) * (radicand + gap)) by (nonlinear_arith)
            requires
                gap >= 1,
        ;
    } else if radicand > scale {
        assert(scale * scale <= product) by (nonlinear_arith)
            requires
                radicand >= scale,
                product == radicand * scale,
        ;
        lemma_cordic_start_up(product, scale, limit);
        assert((2 * start) * (2 * start) <= (start + start + 1) * (start + start + 1))
            by (nonlinear_arith);
        lemma_cordic_refine(product, start, start, speed, 1);
    } else {
        assert(1 <= product < scale * scale) by (nonlinear_arith)
            requires
                1 <= radicand < scale,
                product == radicand * scale,
        ;
        assert(scale * scale <= (2 * scale + 1) * (2 * scale + 1)) by (nonlinear_arith);
        lemma_cordic_start_down(product, scale);
        assert((2 * start + 1) * (2 * start + 1) == (start + start + 1) * (start + start + 1));
        lemma_cordic_refine(product, start, start, speed, 1);
    }
}

/// A weight doubled, with one step more, leaves the same gap.
pub proof fn lemma_cordic_gap_double(weight: nat, steps: nat)
    requires
        weight >= 1,
    ensures
        cordic_gap(2 * weight, steps + 1) == cordic_gap(weight, steps),
{
    assert((2 * weight) / 2 == weight);
    assert((2 * weight) % 2 == 0);
}

/// Four bits more below a positive weight, with four steps more, add to the
/// gap the number of ones among them.
pub proof fn lemma_cordic_gap_digit(weight: nat, digit: nat, steps: nat)
    requires
        weight >= 1,
        digit < 16,
    ensures
        cordic_gap(16 * weight + digit, steps + 4) == cordic_gap(weight, steps) + digit % 2 + (digit
            / 2) % 2 + (digit / 4) % 2 + digit / 8,
{
    let w3 = 16 * weight + digit;
    let w2 = w3 / 2;
    let w1 = w2 / 2;
    let w0 = w1 / 2;
    assert(w0 / 2 == weight);
    assert(cordic_gap(w0, steps + 1) == w0 % 2 + cordic_gap(weight, steps));
    assert(cordic_gap(w1, steps + 2) == w1 % 2 + cordic_gap(w0, (steps + 1) as nat));
    assert(cordic_gap(w2, steps + 3) == w2 % 2 + cordic_gap(w1, (steps + 2) as nat));
    assert(cordic_gap(w3, steps + 4) == w3 % 2 + cordic_gap(w2, (steps + 3) as nat));
}

/// Steps beyond the number of bits of the weight do not change the gap.
pub proof fn lemma_cordic_gap_steps(weight: nat, steps: nat, more: nat, bits: nat)
    requires
        weight < pow2(bits),
        steps >= bits,
        more >= bits,
    ensures
        cordic_gap(weight, steps) == cordic_gap(weight, more),
    decreases bits,
{
    lemma2_to64();
    if bits == 0 {
    } else if weight / 2 == 0 {
    } else {
        lemma_pow2_unfold(bits);
        lemma_cordic_gap_steps(
            weight / 2,
            (steps - 1) as nat,
            (more - 1) as nat,
            (bits - 1) as nat,
        );
    }
}

/// The weight that the downward search ends at has at most the gap of the
/// weight that it starts from.
pub proof fn lemma_cordic_gap_start_down(product: nat, weight: nat, steps: nat, bits: nat)
    requires
        weight < pow2(bits),
        steps >= bits,
    ensures
        cordic_gap(cordic_start_down(product, weight), steps) <= cordic_gap(weight, steps),
    decreases weight,
{
    if !(weight == 0 || weight * weight <= product) {
        let half = weight / 2;
        lemma_cordic_gap_start_down(product, half, steps, bits);
        lemma_cordic_gap_steps(weight, steps + 1, steps, bits);
        if half == 0 {
            assert(cordic_start_down(product, half) == 0);
        }
    }
}

/// The weight that the upward search ends at has the gap of the weight that it
/// starts from.
pub proof fn lemma_cordic_gap_start_up(
    product: nat,
    weight: nat,
    limit: nat,
    steps: nat,
    bits: nat,
)
    requires
        limit == pow2(bits),
        0 < weight < limit,
        steps >= bits,
    ensures
        cordic_gap(cordic_start_up(product, weight, limit), steps) == cordic_gap(weight, steps),
    decreases limit - weight,
{
    if 2 * weight < limit && (2 * weight) * (2 * weight) <= product {
        lemma2_to64();
        lemma_pow2_unfold(bits);
        lemma_cordic_gap_start_up(product, 2 * weight, limit, steps, bits);
        lemma_cordic_gap_double(weight, (steps - 1) as nat);
        lemma_cordic_gap_steps(weight, (steps - 1) as nat, steps, (bits - 1) as nat);
    }
}

/// With as many bits tried as the inner type is wide, the square of the root
/// is at most `radicand * scale`, and the square of the root plus the gap of
/// the scale and one exceeds it. The gap of the scale is the number of ones
/// among its bits, and at most the width.
pub proof fn lemma_sqrt_cordic_full(
    radicand: nat,
    speed: nat,
    scale: nat,
    max: nat,
    limit: nat,
    bits: nat,
)
    requires
        scale > 0,
        radicand <= max,
        max * scale + scale < limit,
        limit == pow2(bits),
        speed >= bits,
    ensures
        cordic_gap(scale, bits) <= bits,
        sqrt_cordic_value(radicand, speed, scale, max, limit) matches Some(root) && root * root
            <= radicand * scale < (root + cordic_gap(scale, bits) + 1) * (root + cordic_gap(
            scale,
            bits,
        ) + 1),
{
    let product = radicand * scale;
    let start = cordic_start(radicand, scale, limit);
    let gap = cordic_gap(start, speed);
    let full = cordic_gap(scale, bits);
    lemma_sqrt_cordic_bracket(radicand, speed, scale, max, limit);
    let root = sqrt_cordic_value(radicand, speed, scale, max, limit).unwrap();
    assert(max * scale >= 0) by (nonlinear_arith);
    lemma_cordic_gap_full(scale, bits, bits);
    lemma_cordic_gap_steps(scale, speed, bits, bits);
    if radicand >= scale {
        lemma_cordic_gap_start_up(product, scale, limit, speed, bits);
    } else {
        lemma_cordic_gap_start_down(product, scale, speed, bits);
    }
    assert((root + gap + 1) * (root + gap + 1) <= (root + full + 1) * (root + full + 1))
        by (nonlinear_arith)
        requires
            gap <= full,
    ;
}

/// The square root built bit by bit is at most the one by Newton's method.
pub proof fn lemma_sqrt_cordic_le_newton(
    radicand: nat,
    speed: nat,
    scale: nat,
    precision: nat,
    max: nat,
    limit: nat,
)
    requires
        scale > 0,
        radicand <= max,
        2 * (max * scale + scale) < limit,
        (max + scale) * scale + scale / 2 < limit,
    ensures
        sqrt_cordic_value(radicand, speed, scale, max, limit) matches Some(by_bits)
            && sqrt_newton_value(radicand, scale, precision, max, limit) matches Some(by_newton)
            && by_bits <= by_newton,
{
    lemma_sqrt_cordic_bracket(radicand, speed, scale, max, limit);
    lemma_sqrt_newton_lower(radicand, scale, precision, max, limit);
    let by_bits = sqrt_cordic_value(radicand, speed, scale, max, limit).unwrap();
    let by_newton = sqrt_newton_value(radicand, scale, precision, max, limit).unwrap();
    assert(by_bits <= by_newton) by (nonlinear_arith)
        requires
            by_bits * by_bits < (by_newton + 1) * (by_newton + 1),
    ;
}

/// The powers of two times the scale that fit the inner type, in rising order:
/// the weights at and above one that the bit-by-bit square root starts from.
/// A table is built once and can be shared by all who take square roots.
pub struct PowerTable<C: PreciseConfig> {
    entries: Vec<C::Inner>,
}

impl<C: PreciseConfig> PowerTable<C> {
    /// The entry at `n` is the scale times two to the power of `n`, and the
    /// table holds every such number that fits the inner type.
    #[verifier::type_invariant]
    spec fn wf(&self) -> bool {
        &&& self.entries@.len() >= 1
        &&& forall|n: int|
            0 <= n < self.entries@.len() ==> (#[trigger] self.entries@[n]).as_nat() == C::scale()
                * pow2(n as nat)
        &&& C::scale() * pow2(self.entries@.len()) >= <C::Inner as WideInt>::limit()
    }

    /// The number of entries.
    pub closed spec fn spec_len(&self) -> nat {
        self.entries@.len()
    }

    /// Builds the table by doubling the scale until the inner type overflows.
    pub fn new() -> (r: Self)
        ensures
            r.spec_len() >= 1,
            C::scale() * pow2(r.spec_len()) >= <C::Inner as WideInt>::limit(),
    {
        let mut entries: Vec<C::Inner> = Vec::new();
        let mut power = C::one();
        entries.push(power);
        let mut doubled = power.checked_add(power);
        proof {
            C::lemma_config();
            lemma2_to64();
            assert(C::scale() * pow2(0) == C::scale()) by (nonlinear_arith)
                requires
                    pow2(0) == 1,
            ;
        }
        while doubled.is_some()
            invariant
                entries@.len() >= 1,
                forall|n: int|
                    0 <= n < entries@.len() ==> (#[trigger] entries@[n]).as_nat() == C::scale()
                        * pow2(n as nat),
                power == entries@[entries@.len() - 1],
                power.as_nat() >= 1,
                match doubled {
                    Some(next) => next.as_nat() == 2 * power.as_nat(),
                    None => 2 * power.as_nat() >= <C::Inner as WideInt>::limit(),
                },
            decreases <C::Inner as WideInt>::limit() - power.as_nat(),
        {
            let next = doubled.unwrap();
            proof {
                let n = entries@.len();
                lemma_pow2_unfold(n);
                assert(C::scale() * pow2(n) == 2 * (C::scale() * pow2((n - 1) as nat)))
                    by (nonlinear_arith)
                    requires
                        pow2(n) == 2 * pow2((n - 1) as nat),
                ;
                next.lemma_as_nat_bound();
            }
            entries.push(next);
            power = next;
            doubled = power.checked_add(power);
        }
        proof {
            let n = entries@.len();
            lemma_pow2_unfold(n);
            assert(C::scale() * pow2(n) == 2 * (C::scale() * pow2((n - 1) as nat)))
                by (nonlinear_arith)
                requires
                    pow2(n) == 2 * pow2((n - 1) as nat),
            ;
        }
        PowerTable { entries }
    }

    /// The number of entries: the scale times two to the power of it is the
    /// first that does not fit the inner type.
    pub fn len(&self) -> (r: usize)
        ensures
            r == self.spec_len(),
            r >= 1,
            C::scale() * pow2(r as nat) >= <C::Inner as WideInt>::limit(),
    {
        proof {
            use_type_invariant(self);
        }
        self.entries.len()
    }

    /// The scale times two to the power of `n`, where the table holds it.
    pub fn power(&self, n: usize) -> (r: Option<C::Inner>)
        ensures
            match r {
                Some(v) => n < self.spec_len() && v.as_nat() == C::scale() * pow2(n as nat),
                None => n >= self.spec_len(),
            },
    {
        proof {
            use_type_invariant(self);
        }
        if n < self.entries.len() {
            Some(self.entries[n])
        } else {
            None
        }
    }
}

impl<C: PreciseConfig> FixedPoint<C> {
    /// The first approximation of the square root: the scale doubled along the
    /// table, or halved, until its square is the nearest at or below `product`,
    /// which is the radicand times the scale.
    fn cordic_start(&self, table: &PowerTable<C>, product: C::Inner) -> (r: C::Inner)
        requires
            self@ >= 1,
            product.as_nat() == self@ * C::scale(),
        ensures
            r.as_nat() == cordic_start(self@, C::scale(), Self::limit()),
    {
        let one = C::one();
        proof {
            C::lemma_config();
            product.lemma_as_nat_bound();
        }
        if !self.value.less_than(one) {
            let mut n: usize = 0;
            let mut weight = one;
            let len: usize = table.len();
            proof {
                lemma2_to64();
                assert(C::scale() * pow2(0) == C::scale()) by (nonlinear_arith)
                    requires
                        pow2(0) == 1,
                ;
            }
            loop
                invariant
                    len == table.spec_len(),
                    C::scale() * pow2(len as nat) >= Self::limit(),
                    n < len,
                    0 < C::scale(),
                    weight.as_nat() == C::scale() * pow2(n as nat),
                    cordic_start_up(product.as_nat(), C::scale(), Self::limit()) == cordic_start_up(
                        product.as_nat(),
                        weight.as_nat(),
                        Self::limit(),
                    ),
                ensures
                    weight.as_nat() == cordic_start_up(
                        product.as_nat(),
                        C::scale(),
                        Self::limit(),
                    ),
                decreases len - n,
            {
                proof {
                    lemma_pow2_pos(n as nat);
                    lemma_pow2_unfold((n + 1) as nat);
                    assert(weight.as_nat() >= 1) by (nonlinear_arith)
                        requires
                            weight.as_nat() == C::scale() * pow2(n as nat),
                            C::scale() >= 1,
                            pow2(n as nat) >= 1,
                    ;
                    assert(C::scale() * pow2((n + 1) as nat) == 2 * weight.as_nat())
                        by (nonlinear_arith)
                        requires
                            weight.as_nat() == C::scale() * pow2(n as nat),
                            pow2((n + 1) as nat) == 2 * pow2(n as nat),
                    ;
                }
                match table.power(n + 1) {
                    Some(next) => {
                        proof {
                            next.lemma_as_nat_bound();
                        }
                        if !square_at_most(next, product) {
                            break;
                        }
                        weight = next;
                        n = n + 1;
                    },
                    None => {
                        break;
                    },
                }
            }
            weight
        } else {
            let mut weight = one;
            loop
                invariant
                    cordic_start_down(product.as_nat(), C::scale()) == cordic_start_down(
                        product.as_nat(),
                        weight.as_nat(),
                    ),
                ensures
                    weight.as_nat() == cordic_start_down(product.as_nat(), C::scale()),
                decreases weight.as_nat(),
            {
                if weight.equals(C::Inner::zero()) {
                    break;
                }
                if square_at_most(weight, product) {
                    break;
                }
                weight = weight.half();
            }
            weight
        }
    }

    /// The square root built bit by bit, with the table of the weights at and
    /// above one handed in. After the first approximation at most
    /// `speed_factor` lower bits are tried, each kept where the square of the
    /// root stays at most the radicand times the scale. `None` above the largest
    /// radicand.
    pub fn sqrt_cordic_with(&self, table: &PowerTable<C>, speed_factor: u32) -> (r: Option<Self>)
        ensures
            opt_view(r) == sqrt_cordic_value(
                self@,
                speed_factor as nat,
                C::scale(),
                C::max_sqrt_base(),
                Self::limit(),
            ),
            r is Some <==> self@ <= C::max_sqrt_base(),
            r matches Some(root) ==> root@ * root@ <= self@ * C::scale() < (root@ + cordic_gap(
                cordic_start(self@, C::scale(), Self::limit()),
                speed_factor as nat,
            ) + 1) * (root@ + cordic_gap(
                cordic_start(self@, C::scale(), Self::limit()),
                speed_factor as nat,
            ) + 1),
    {
        proof {
            C::lemma_config();
            if self@ <= C::max_sqrt_base() {
                lemma_sqrt_cordic_bracket(
                    self@,
                    speed_factor as nat,
                    C::scale(),
                    C::max_sqrt_base(),
                    Self::limit(),
                );
            }
        }
        if self.greater_than(&Self::maximum_sqrt_base()) {
            return None;
        }
        let zero = C::Inner::zero();
        if self.value.equals(zero) || self.value.equals(C::one()) {
            return Some(FixedPoint { value: self.value });
        }
        let product = self.value.checked_mul(C::one())?;
        let start = self.cordic_start(table, product);
        let mut root = start;
        let mut weight = start;
        let mut steps: u32 = speed_factor;
        loop
            invariant
                zero.as_nat() == 0,
                cordic_refine(product.as_nat(), start.as_nat(), start.as_nat(), speed_factor as nat)
                    == cordic_refine(
                    product.as_nat(),
                    root.as_nat(),
                    weight.as_nat(),
                    steps as nat,
                ),
            ensures
                root.as_nat() == cordic_refine(
                    product.as_nat(),
                    start.as_nat(),
                    start.as_nat(),
                    speed_factor as nat,
                ),
            decreases steps,
        {
            if steps == 0 {
                break;
            }
            let half = weight.half();
            if half.equals(zero) {
                break;
            }
            match root.checked_add(half) {
                Some(next) => {
                    if square_at_most(next, product) {
                        root = next;
                    }
                },
                None => {
                    proof {
                        product.lemma_as_nat_bound();
                        let sum = root.as_nat() + half.as_nat();
                        assert(sum * sum >= sum) by (nonlinear_arith)
                            requires
                                sum >= 1,
                        ;
                    }
                },
            }
            weight = half;
            steps = steps - 1;
        }
        Some(FixedPoint { value: root })
    }

    /// The square root built bit by bit, with `speed_factor` bits tried below
    /// the first approximation; `None` above the largest radicand.
    pub fn sqrt_cordic(&self, speed_factor: u32) -> (r: Option<Self>)
        ensures
            opt_view(r) == sqrt_cordic_value(
                self@,
                speed_factor as nat,
                C::scale(),
                C::max_sqrt_base(),
                Self::limit(),
            ),
            r is Some <==> self@ <= C::max_sqrt_base(),
            r matches Some(root) ==> root@ * root@ <= self@ * C::scale() < (root@ + cordic_gap(
                cordic_start(self@, C::scale(), Self::limit()),
                speed_factor as nat,
            ) + 1) * (root@ + cordic_gap(
                cordic_start(self@, C::scale(), Self::limit()),
                speed_factor as nat,
            ) + 1),
    {
        let table = PowerTable::<C>::new();
        self.sqrt_cordic_with(&table, speed_factor)
    }

    /// The square root, built bit by bit with the number of bits that the
    /// configuration sets; `None` above the largest radicand.
    pub fn sqrt(&self) -> (r: Option<Self>)
        ensures
            opt_view(r) == sqrt_cordic_value(
                self@,
                C::cordic_speed(),
                C::scale(),
                C::max_sqrt_base(),
                Self::limit(),
            ),
            r is Some <==> self@ <= C::max_sqrt_base(),
            r matches Some(root) ==> root@ * root@ <= self@ * C::scale(),
            r matches Some(root) ==> (C::cordic_speed() == <C::Inner as WideInt>::bits() ==> self@
                * C::scale() < (root@ + cordic_gap(C::scale(), C::cordic_speed()) + 1) * (root@
                + cordic_gap(C::scale(), C::cordic_speed()) + 1)),
    {
        proof {
            C::lemma_config();
            C::Inner::lemma_limit();
            if self@ <= C::max_sqrt_base() && C::cordic_speed() == <C::Inner as WideInt>::bits() {
                lemma_sqrt_cordic_full(
                    self@,
                    C::cordic_speed(),
                    C::scale(),
                    C::max_sqrt_base(),
                    Self::limit(),
                    <C::Inner as WideInt>::bits(),
                );
            }
        }
        self.sqrt_cordic(C::speed_factor())
    }
}

} // verus!
