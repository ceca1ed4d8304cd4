//! Powers with a fractional exponent and roots of any degree, by series and
//! by Newton's method. Their range and precision are not established: the
//! base of a power has to lie above zero and at or below two.

use crate::precise_number::pn_impl::{
    div_value, fit, floor_value, lemma_floor_le, mul_value, opt_view, pow_value, rounded_value,
    FixedPoint, PreciseConfig,
};
use crate::precise_number::pn_sqrt::MAX_APPROXIMATION_ITERATIONS;
use crate::wide_int::WideInt;
use vstd::prelude::*;

verus! {

/// The distance between two natural numbers.
pub open spec fn distance(a: nat, b: nat) -> nat {
    if a < b {
        (b - a) as nat
    } else {
        (a - b) as nat
    }
}

/// The terms of the binomial series of `x` to the power of `n` around one,
/// added to `guess` one after the other, at most `remaining` of them. The term
/// after `term` is `term * (n + 1 - k) * (x - 1) / k` for the next `k`, every
/// factor being a distance with a sign apart; `negative` is the sign of the
/// last term. The series ends at the first term below `precision`.
pub open spec fn pow_approximation_loop(
    guess: nat,
    term: nat,
    negative: bool,
    k: nat,
    remaining: nat,
    x_minus_a: nat,
    x_minus_a_negative: bool,
    exponent_plus_one: nat,
    scale: nat,
    precision: nat,
    limit: nat,
) -> Option<nat>
    decreases remaining,
{
    if remaining == 0 {
        Some(guess)
    } else if k + scale >= limit {
        None
    } else {
        let k = k + scale;
        let current_exponent = distance(exponent_plus_one, k);
        let current_exponent_negative = exponent_plus_one < k;
        match mul_value(term, current_exponent, scale, limit) {
            None => None,
            Some(by_exponent) => match mul_value(by_exponent, x_minus_a, scale, limit) {
                None => None,
                Some(by_distance) => match div_value(by_distance, k, scale, limit) {
                    None => None,
                    Some(term) => if term < precision {
                        Some(guess)
                    } else {
                        let negative = negative != x_minus_a_negative;
                        let negative = negative != current_exponent_negative;
                        let sum: int = if negative {
                            guess - term
                        } else {
                            (guess + term) as int
                        };
                        if 0 <= sum < limit {
                            pow_approximation_loop(
                                sum as nat,
                                term,
                                negative,
                                k,
                                (remaining - 1) as nat,
                                x_minus_a,
                                x_minus_a_negative,
                                exponent_plus_one,
                                scale,
                                precision,
                                limit,
                            )
                        } else {
                            None
                        }
                    },
                },
            },
        }
    }
}

/// The power of `base` with the exponent `exponent` by the binomial series
/// around one, with one term less than `max_iterations`: one for the exponent
/// zero, nothing where a step overflows.
pub open spec fn pow_approximation_value(
    base: nat,
    exponent: nat,
    max_iterations: nat,
    scale: nat,
    precision: nat,
    limit: nat,
) -> Option<nat> {
    if exponent == 0 {
        Some(scale)
    } else if exponent + scale >= limit {
        None
    } else {
        pow_approximation_loop(
            scale,
            scale,
            false,
            0,
            if max_iterations >= 1 {
                (max_iterations - 1) as nat
            } else {
                0
            },
            distance(base, scale),
            base < scale,
            exponent + scale,
            scale,
            precision,
            limit,
        )
    }
}

/// The power of `base` with a fractional exponent: the power with the whole
/// part of the exponent by squaring, times the power with the rest by the
/// series.
pub open spec fn pow_fraction_value(
    base: nat,
    exponent: nat,
    scale: nat,
    precision: nat,
    limit: nat,
    outer_limit: nat,
) -> Option<nat> {
    let whole = floor_value(exponent, scale);
    match rounded_value(whole, scale, limit, outer_limit) {
        None => None,
        Some(n) => if n > u32::MAX {
            None
        } else {
            match pow_value(base, n, scale, limit) {
                None => None,
                Some(precise_whole) => if exponent == whole {
                    Some(precise_whole)
                } else {
                    match pow_approximation_value(
                        base,
                        (exponent - whole) as nat,
                        MAX_APPROXIMATION_ITERATIONS as nat,
                        scale,
                        precision,
                        limit,
                    ) {
                        None => None,
                        Some(precise_remainder) => mul_value(
                            precise_whole,
                            precise_remainder,
                            scale,
                            limit,
                        ),
                    }
                },
            }
        },
    }
}

/// Newton's method for the root of degree `root / scale` of `radicand`: up to
/// `iterations` times the guess `g` becomes
/// `((root - 1) * g + radicand / g ^ (root - 1)) / root`, the quotient counting
/// as zero where the power overflows, until a step moves the guess by less than
/// `precision`.
pub open spec fn newton_generic_loop(
    radicand: nat,
    root: nat,
    root_minus_one: nat,
    guess: nat,
    iterations: nat,
    scale: nat,
    precision: nat,
    limit: nat,
    outer_limit: nat,
) -> Option<nat>
    decreases iterations,
{
    if iterations == 0 {
        Some(guess)
    } else {
        match (
            mul_value(root_minus_one, guess, scale, limit),
            rounded_value(root_minus_one, scale, limit, outer_limit),
        ) {
            (Some(first_term), Some(whole)) => if whole > u32::MAX {
                None
            } else {
                let second_term = match pow_value(guess, whole, scale, limit) {
                    Some(power) => div_value(radicand, power, scale, limit),
                    None => Some(0nat),
                };
                match second_term {
                    None => None,
                    Some(second_term) => if first_term + second_term >= limit {
                        None
                    } else {
                        match div_value(first_term + second_term, root, scale, limit) {
                            None => None,
                            Some(next) => if distance(guess, next) < precision {
                                Some(next)
                            } else {
                                newton_generic_loop(
                                    radicand,
                                    root,
                                    root_minus_one,
                                    next,
                                    (iterations - 1) as nat,
                                    scale,
                                    precision,
                                    limit,
                                    outer_limit,
                                )
                            },
                        }
                    },
                }
            },
            _ => None,
        }
    }
}

/// Newton's method for a root of any degree: zero for the radicand zero,
/// nothing for a degree below one.
pub open spec fn newton_generic_value(
    radicand: nat,
    root: nat,
    guess: nat,
    iterations: nat,
    scale: nat,
    precision: nat,
    limit: nat,
    outer_limit: nat,
) -> Option<nat> {
    if radicand == 0 {
        Some(0)
    } else if root < scale {
        None
    } else if rounded_value((root - scale) as nat, scale, limit, outer_limit) is None {
        None
    } else {
        newton_generic_loop(
            radicand,
            root,
            (root - scale) as nat,
            guess,
            iterations,
            scale,
            precision,
            limit,
            outer_limit,
        )
    }
}

/// The whole number as a `u32`, where it fits.
fn whole_to_u32<T: WideInt>(whole: T) -> (r: Option<u32>)
    ensures
        r == if whole.as_nat() <= u32::MAX {
            Some(whole.as_nat() as u32)
        } else {
            None
        },
{
    match whole.to_u128() {
        Some(n) => if n <= 0xffff_ffff {
            Some(n as u32)
        } else {
            None
        },
        None => None,
    }
}

impl<C: PreciseConfig> FixedPoint<C> {
    /// The largest base of a power with a fractional exponent: the series
    /// around one converges for bases between zero and two.
    pub open spec fn spec_max_pow_base() -> nat {
        2 * C::scale()
    }

    /// The power with the exponent `exponent`, which lies between zero and one,
    /// by the binomial series around one with one term less than
    /// `max_iterations`.
    pub fn checked_pow_approximation(&self, exponent: &Self, max_iterations: u32) -> (r: Option<
        Self,
    >)
        requires
            0 < self@ <= Self::spec_max_pow_base(),
        ensures
            opt_view(r) == pow_approximation_value(
                self@,
                exponent@,
                max_iterations as nat,
                C::scale(),
                C::precision(),
                Self::limit(),
            ),
    {
        let one = Self::one();
        if exponent.value.equals(C::Inner::zero()) {
            return Some(one);
        }
        let mut precise_guess = Self::one();
        let mut term = Self::one();
        let (x_minus_a, x_minus_a_negative) = self.unsigned_sub(&precise_guess);
        let exponent_plus_one = exponent.checked_add(&one)?;
        let mut negative = false;
        let mut k = Self::zero();
        let mut remaining: u32 = if max_iterations >= 1 {
            max_iterations - 1
        } else {
            0
        };
        while remaining > 0
            invariant
                one@ == C::scale(),
                pow_approximation_value(
                    self@,
                    exponent@,
                    max_iterations as nat,
                    C::scale(),
                    C::precision(),
                    Self::limit(),
                ) == pow_approximation_loop(
                    precise_guess@,
                    term@,
                    negative,
                    k@,
                    remaining as nat,
                    x_minus_a@,
                    x_minus_a_negative,
                    exponent_plus_one@,
                    C::scale(),
                    C::precision(),
                    Self::limit(),
                ),
            decreases remaining,
        {
            k = k.checked_add(&one)?;
            let (current_exponent, current_exponent_negative) = exponent_plus_one.unsigned_sub(&k);
            term = term.checked_mul(&current_exponent)?;
            term = term.checked_mul(&x_minus_a)?;
            term = term.checked_div(&k)?;
            if term.value.less_than(C::precision_threshold()) {
                return Some(precise_guess);
            }
            if x_minus_a_negative {
                negative = !negative;
            }
            if current_exponent_negative {
                negative = !negative;
            }
            if negative {
                precise_guess = precise_guess.checked_sub(&term)?;
            } else {
                precise_guess = precise_guess.checked_add(&term)?;
            }
            remaining = remaining - 1;
        }
        Some(precise_guess)
    }

    /// The power with a fractional exponent.
    pub fn checked_pow_fraction(&self, exponent: &Self) -> (r: Option<Self>)
        requires
            0 < self@ <= Self::spec_max_pow_base(),
        ensures
            opt_view(r) == pow_fraction_value(
                self@,
                exponent@,
                C::scale(),
                C::precision(),
                Self::limit(),
                <C::Outer as WideInt>::limit(),
            ),
    {
        proof {
            C::lemma_config();
            lemma_floor_le(exponent@, C::scale());
        }
        let whole_exponent = exponent.floor()?;
        let whole = whole_to_u32(whole_exponent.to_imprecise()?)?;
        let precise_whole = self.checked_pow(whole)?;
        let (remainder_exponent, _) = exponent.unsigned_sub(&whole_exponent);
        if remainder_exponent.value.equals(C::Inner::zero()) {
            return Some(precise_whole);
        }
        let precise_remainder = self.checked_pow_approximation(
            &remainder_exponent,
            MAX_APPROXIMATION_ITERATIONS,
        )?;
        precise_whole.checked_mul(&precise_remainder)
    }

    /// Newton's method for the root of the degree `root`, from the first guess
    /// `guess` and with at most `iterations` steps.
    pub fn newtonian_root_approximation(&self, root: &Self, guess: Self, iterations: u32) -> (r:
        Option<Self>)
        ensures
            opt_view(r) == newton_generic_value(
                self@,
                root@,
                guess@,
                iterations as nat,
                C::scale(),
                C::precision(),
                Self::limit(),
                <C::Outer as WideInt>::limit(),
            ),
    {
        let zero = C::Inner::zero();
        if self.value.equals(zero) {
            return Some(FixedPoint { value: zero });
        }
        if root.value.equals(zero) {
            proof {
                C::lemma_config();
            }
            return None;
        }
        let one = Self::one();
        let root_minus_one = root.checked_sub(&one)?;
        let root_minus_one_whole = root_minus_one.to_imprecise()?;
        let mut current = FixedPoint::<C> { value: guess.value };
        let mut remaining = iterations;
        while remaining > 0
            invariant
                zero.as_nat() == 0,
                root_minus_one@ == root@ - C::scale(),
                Some(root_minus_one_whole.as_nat()) == rounded_value(
                    root_minus_one@,
                    C::scale(),
                    Self::limit(),
                    <C::Outer as WideInt>::limit(),
                ),
                newton_generic_value(
                    self@,
                    root@,
                    guess@,
                    iterations as nat,
                    C::scale(),
                    C::precision(),
                    Self::limit(),
                    <C::Outer as WideInt>::limit(),
                ) == newton_generic_loop(
                    self@,
                    root@,
                    root_minus_one@,
                    current@,
                    remaining as nat,
                    C::scale(),
                    C::precision(),
                    Self::limit(),
                    <C::Outer as WideInt>::limit(),
                ),
            decreases remaining,
        {
            let first_term = root_minus_one.checked_mul(&current)?;
            let power = current.checked_pow(whole_to_u32(root_minus_one_whole)?);
            let second_term = match power {
                Some(num) => self.checked_div(&num)?,
                None => FixedPoint { value: zero },
            };
            let next = first_term.checked_add(&second_term)?.checked_div(root)?;
            if current.almost_eq(&next, C::precision_threshold()) {
                return Some(next);
            }
            current = next;
            remaining = remaining - 1;
        }
        Some(current)
    }
}

} // verus!
