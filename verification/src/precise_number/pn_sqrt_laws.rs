//! How close Newton's method comes to the square root, and how close the two
//! square roots come to each other.

use crate::approximations::{floor_sqrt, is_floor_sqrt, lemma_floor_sqrt};
use crate::precise_number::pn_sqrt::{
    cordic_gap, lemma_newton_guess, lemma_newton_settles, lemma_newton_step,
    lemma_sqrt_cordic_full, lemma_sqrt_newton_lower, newton_settles, sqrt_cordic_value,
    sqrt_newton_value, MAX_APPROXIMATION_ITERATIONS,
};
use vstd::arithmetic::power2::{lemma2_to64, lemma2_to64_rest, lemma_pow2_adds, lemma_pow2_pos, lemma_pow2_unfold, pow2};
use vstd::prelude::*;

verus! {

/// The next guess of Newton's method.
pub open spec fn newton_next(product: nat, guess: nat) -> nat {
    (guess + product / guess) / 2
}

/// How far Newton's method has come after `stage` steps at the latest, `root`
/// being the square root of the product rounded down. For 65 steps the excess
/// of the guess over the root halves, from at most two to the power of 65 times
/// the root to at most the root; from then on the excess relative to the root
/// is squared by every step, until it is at most two.
pub open spec fn newton_stage(stage: nat, guess: nat, root: nat) -> bool {
    let excess = guess - root;
    &&& root <= guess
    &&& if stage <= 65 {
        guess <= pow2((65 - stage) as nat) * (root + 1) + (root + 1)
    } else if stage == 66 {
        2 * excess <= root + 8
    } else if stage == 67 {
        8 * excess <= root + 32
    } else if stage == 68 {
        128 * excess <= root + 256
    } else if stage == 69 {
        0x8000 * excess <= root + 0x1_0000
    } else if stage == 70 {
        0x8000_0000 * excess <= root + 0x1_0000_0000
    } else if stage == 71 {
        0x8000_0000_0000_0000nat * excess <= root + 0x1_0000_0000_0000_0000nat
    } else if stage == 72 {
        0x8000_0000_0000_0000_0000_0000_0000_0000nat * excess <= root
            + 0x1_0000_0000_0000_0000_0000_0000_0000_0000nat
    } else {
        excess <= 2
    }
}

/// A step from a guess at or above the root leads to a guess at or above the
/// root, whose excess times twice the root is at most the square of the excess
/// before plus twice the root.
pub proof fn lemma_newton_excess(product: nat, guess: nat, root: nat)
    requires
        root >= 1,
        is_floor_sqrt(root, product),
        guess >= root,
    ensures
        newton_next(product, guess) >= root,
        2 * root * (newton_next(product, guess) - root) <= (guess - root) * (guess - root) + 2
            * root,
{
    let q = product / guess;
    let next = newton_next(product, guess);
    lemma_newton_step(product, guess);
    assert(next >= root) by (nonlinear_arith)
        requires
            (next + 1) * (next + 1) > product,
            root * root <= product,
    ;
    assert(guess * q <= product) by (nonlinear_arith)
        requires
            guess >= 1,
            q == product / guess,
    ;
    let e: int = guess - root;
    let f: int = next - root;
    assert(2 * (guess * next) <= guess * guess + guess * q) by (nonlinear_arith)
        requires
            2 * next <= guess + q,
            guess >= 0,
    ;
    assert(product <= root * root + 2 * root) by (nonlinear_arith)
        requires
            product < (root + 1) * (root + 1),
    ;
    assert(2 * (guess * next) - guess * guess - root * root == 2 * root * f + 2 * e * f - e * e)
        by (nonlinear_arith)
        requires
            e == guess - root,
            f == next - root,
    ;
    assert(2 * e * f >= 0) by (nonlinear_arith)
        requires
            e >= 0,
            f >= 0,
    ;
}

/// One step of the second phase: an excess that is at most the root plus `b`
/// divided by `a` becomes one that is at most the root plus `b2` divided by
/// `a2`, which is twice the square of `a`, for a root that is large enough.
pub proof fn lemma_newton_squares(
    product: nat,
    guess: nat,
    root: nat,
    a: nat,
    b: nat,
    a2: nat,
    b2: nat,
    c: nat,
)
    requires
        root >= 1,
        is_floor_sqrt(root, product),
        guess >= root,
        a >= 1,
        a * (guess - root) <= root + b,
        a2 == 2 * a * a,
        b2 == 2 * b + a2 + c,
        b * b <= c * root,
    ensures
        newton_next(product, guess) >= root,
        a2 * (newton_next(product, guess) - root) <= root + b2,
{
    lemma_newton_excess(product, guess, root);
    let e: int = guess - root;
    let f: int = newton_next(product, guess) - root;
    let r: int = root as int;
    let a: int = a as int;
    let b: int = b as int;
    let a2: int = a2 as int;
    let b2: int = b2 as int;
    let c: int = c as int;
    assert(a * a * (e * e) <= (r + b) * (r + b)) by (nonlinear_arith)
        requires
            0 <= a * e <= r + b,
    ;
    assert(a * a * (2 * r * f) <= a * a * (e * e + 2 * r)) by (nonlinear_arith)
        requires
            2 * r * f <= e * e + 2 * r,
    ;
    let lhs = r * (a2 * f);
    let rhs = r * (r + b2);
    assert(lhs == a * a * (2 * r * f)) by (nonlinear_arith)
        requires
            lhs == r * (a2 * f),
            a2 == 2 * a * a,
    ;
    assert(a * a * (e * e + 2 * r) == a * a * (e * e) + a2 * r) by (nonlinear_arith)
        requires
            a2 == 2 * a * a,
    ;
    assert((r + b) * (r + b) == r * r + 2 * (b * r) + b * b) by (nonlinear_arith);
    assert(rhs == r * r + 2 * (b * r) + a2 * r + c * r) by (nonlinear_arith)
        requires
            rhs == r * (r + b2),
            b2 == 2 * b + a2 + c,
    ;
    assert(lhs <= rhs);
    assert(a2 * f <= r + b2) by (nonlinear_arith)
        requires
            lhs == r * (a2 * f),
            rhs == r * (r + b2),
            lhs <= rhs,
            r >= 1,
    ;
}

/// One step of the first phase: a guess that is at most two to the power of
/// `j` times the root's successor, plus the root's successor, becomes one that
/// is at most two to the power of `j - 1` times it, plus it.
pub proof fn lemma_newton_halves(product: nat, guess: nat, root: nat, j: nat)
    requires
        root >= 1,
        is_floor_sqrt(root, product),
        guess >= root,
        j >= 1,
        guess <= pow2(j) * (root + 1) + (root + 1),
    ensures
        newton_next(product, guess) >= root,
        newton_next(product, guess) <= pow2((j - 1) as nat) * (root + 1) + (root + 1),
{
    lemma_newton_excess(product, guess, root);
    lemma_pow2_unfold(j);
    lemma_pow2_pos((j - 1) as nat);
    let q = product / guess;
    let next = newton_next(product, guess);
    let t = root + 1;
    let half = pow2((j - 1) as nat);
    assert(guess * q <= product) by (nonlinear_arith)
        requires
            guess >= 1,
            q == product / guess,
    ;
    assert(half * t >= t) by (nonlinear_arith)
        requires
            half >= 1,
    ;
    if guess >= 2 * t {
        assert(2 * q < t) by (nonlinear_arith)
            requires
                guess * q <= product,
                product < t * t,
                guess >= 2 * t,
                t >= 1,
        ;
        assert(pow2(j) * t == 2 * (half * t)) by (nonlinear_arith)
            requires
                pow2(j) == 2 * half,
        ;
    } else {
        assert(q <= root + 2) by (nonlinear_arith)
            requires
                guess * q <= product,
                product < (root + 1) * (root + 1),
                guess >= root,
                root >= 1,
        ;
    }
}

/// From any stage, Newton's method settles within the steps that are left up
/// to the 74th.
pub proof fn lemma_newton_converges(
    product: nat,
    guess: nat,
    iterations: nat,
    precision: nat,
    limit: nat,
    bound: nat,
    root: nat,
    stage: nat,
)
    requires
        is_floor_sqrt(root, product),
        16 <= root < pow2(128),
        precision >= 3,
        product <= bound,
        guess <= bound,
        2 * bound < limit,
        stage <= 73,
        newton_stage(stage, guess, root),
        iterations + stage >= 74,
    ensures
        newton_settles(product, guess, iterations, precision, limit),
    decreases iterations,
{
    let q = product / guess;
    let next = newton_next(product, guess);
    assert(q <= product) by (nonlinear_arith)
        requires
            guess >= 1,
            q == product / guess,
    ;
    lemma_newton_excess(product, guess, root);
    lemma2_to64();
    lemma2_to64_rest();
    lemma_pow2_adds(64, 64);
    if stage < 65 {
        lemma_newton_halves(product, guess, root, (65 - stage) as nat);
    } else if stage == 65 {
        assert(pow2(0) * (root + 1) == root + 1) by (nonlinear_arith)
            requires
                pow2(0) == 1,
        ;
        let (a, b, a2, b2, c) = (1nat, 2nat, 2nat, 8nat, 2nat);
        assert(a2 == 2 * a * a && b2 == 2 * b + a2 + c && b * b <= c * root) by (nonlinear_arith)
            requires
                a == 1nat,
                b == 2nat,
                a2 == 2nat,
                b2 == 8nat,
                c == 2nat,
                root >= 16,
        ;
        lemma_newton_squares(product, guess, root, a, b, a2, b2, c);
    } else if stage == 66 {
        let (a, b, a2, b2, c) = (2nat, 8nat, 8nat, 32nat, 8nat);
        assert(a2 == 2 * a * a && b2 == 2 * b + a2 + c && b * b <= c * root) by (nonlinear_arith)
            requires
                a == 2nat,
                b == 8nat,
                a2 == 8nat,
                b2 == 32nat,
                c == 8nat,
                root >= 16,
        ;
        lemma_newton_squares(product, guess, root, a, b, a2, b2, c);
    } else if stage == 67 {
        let (a, b, a2, b2, c) = (8nat, 32nat, 128nat, 256nat, 64nat);
        assert(a2 == 2 * a * a && b2 == 2 * b + a2 + c && b * b <= c * root) by (nonlinear_arith)
            requires
                a == 8nat,
                b == 32nat,
                a2 == 128nat,
                b2 == 256nat,
                c == 64nat,
                root >= 16,
        ;
        lemma_newton_squares(product, guess, root, a, b, a2, b2, c);
    } else if stage == 68 {
        let (a, b, a2, b2, c) = (128nat, 256nat, 0x8000nat, 0x1_0000nat, 0x7e00nat);
        assert(a2 == 2 * a * a && b2 == 2 * b + a2 + c && b * b <= c * root) by (nonlinear_arith)
            requires
                a == 128nat,
                b == 256nat,
                a2 == 0x8000nat,
                b2 == 0x1_0000nat,
                c == 0x7e00nat,
                root >= 16,
        ;
        lemma_newton_squares(product, guess, root, a, b, a2, b2, c);
    } else if stage == 69 {
        let (a, b, a2, b2, c) = (0x8000nat, 0x1_0000nat, 0x8000_0000nat, 0x1_0000_0000nat, 0x7ffe_0000nat);
        assert(a2 == 2 * a * a && b2 == 2 * b + a2 + c && b * b <= c * root) by (nonlinear_arith)
            requires
                a == 0x8000nat,
                b == 0x1_0000nat,
                a2 == 0x8000_0000nat,
                b2 == 0x1_0000_0000nat,
                c == 0x7ffe_0000nat,
                root >= 16,
        ;
        lemma_newton_squares(product, guess, root, a, b, a2, b2, c);
    } else if stage == 70 {
        let (a, b, a2, b2, c) = (0x8000_0000nat, 0x1_0000_0000nat, 0x8000_0000_0000_0000nat, 0x1_0000_0000_0000_0000nat, 0x7fff_fffe_0000_0000nat);
        assert(a2 == 2 * a * a && b2 == 2 * b + a2 + c && b * b <= c * root) by (nonlinear_arith)
            requires
                a == 0x8000_0000nat,
                b == 0x1_0000_0000nat,
                a2 == 0x8000_0000_0000_0000nat,
                b2 == 0x1_0000_0000_0000_0000nat,
                c == 0x7fff_fffe_0000_0000nat,
                root >= 16,
        ;
        lemma_newton_squares(product, guess, root, a, b, a2, b2, c);
    } else if stage == 71 {
        let (a, b, a2, b2, c) = (0x8000_0000_0000_0000nat, 0x1_0000_0000_0000_0000nat, 0x8000_0000_0000_0000_0000_0000_0000_0000nat, 0x1_0000_0000_0000_0000_0000_0000_0000_0000nat, 0x7fff_ffff_ffff_fffe_0000_0000_0000_0000nat);
        assert(a2 == 2 * a * a && b2 == 2 * b + a2 + c && b * b <= c * root) by (nonlinear_arith)
            requires
                a == 0x8000_0000_0000_0000nat,
                b == 0x1_0000_0000_0000_0000nat,
                a2 == 0x8000_0000_0000_0000_0000_0000_0000_0000nat,
                b2 == 0x1_0000_0000_0000_0000_0000_0000_0000_0000nat,
                c == 0x7fff_ffff_ffff_fffe_0000_0000_0000_0000nat,
                root >= 16,
        ;
        lemma_newton_squares(product, guess, root, a, b, a2, b2, c);
    } else if stage == 72 {
        let (a, b, a2, b2, c) = (0x8000_0000_0000_0000_0000_0000_0000_0000nat, 0x1_0000_0000_0000_0000_0000_0000_0000_0000nat, 0x8000_0000_0000_0000_0000_0000_0000_0000_0000_0000_0000_0000_0000_0000_0000_0000nat, 0x1_0000_0000_0000_0000_0000_0000_0000_0000_0000_0000_0000_0000_0000_0000_0000_0000nat, 0x7fff_ffff_ffff_ffff_ffff_ffff_ffff_fffe_0000_0000_0000_0000_0000_0000_0000_0000nat);
        assert(a2 == 2 * a * a && b2 == 2 * b + a2 + c && b * b <= c * root) by (nonlinear_arith)
            requires
                a == 0x8000_0000_0000_0000_0000_0000_0000_0000nat,
                b == 0x1_0000_0000_0000_0000_0000_0000_0000_0000nat,
                a2 == 0x8000_0000_0000_0000_0000_0000_0000_0000_0000_0000_0000_0000_0000_0000_0000_0000nat,
                b2 == 0x1_0000_0000_0000_0000_0000_0000_0000_0000_0000_0000_0000_0000_0000_0000_0000_0000nat,
                c == 0x7fff_ffff_ffff_ffff_ffff_ffff_ffff_fffe_0000_0000_0000_0000_0000_0000_0000_0000nat,
                root >= 16,
        ;
        lemma_newton_squares(product, guess, root, a, b, a2, b2, c);
    } else {
        // the excess is at most two, and the next one at most one
        let e: int = guess - root;
        let f: int = next - root;
        assert(f <= 1) by (nonlinear_arith)
            requires
                2 * root * f <= e * e + 2 * root,
                0 <= e <= 2,
                root >= 16,
        ;
    }
    if !(guess - next < precision && next - guess < precision) {
        assert(stage < 73);
        assert(newton_stage(stage + 1, next, root));
        lemma_newton_converges(
            product,
            next,
            (iterations - 1) as nat,
            precision,
            limit,
            bound,
            root,
            stage + 1,
        );
    }
}


/// The conditions on the constants of a configuration under which Newton's
/// method settles before its steps run out: the scale is at least 256 and at
/// most two to the power of 128, the largest radicand is at most two to the
/// power of 128, a step counts as negligible below three units or more, the
/// inner type has at most 256 bits, and the steps do not overflow.
pub open spec fn newton_in_reach(scale: nat, precision: nat, max: nat, limit: nat) -> bool {
    &&& 256 <= scale <= pow2(128)
    &&& max <= pow2(128) * scale
    &&& precision >= 3
    &&& limit <= pow2(256)
    &&& 2 * (max * scale + scale) < limit
    &&& (max + scale) * scale + scale / 2 < limit
}

/// In a configuration within reach, Newton's method for the square root of a
/// radicand other than zero and one settles: it ends because a step moved the
/// guess by less than the precision, after 74 steps at the latest.
pub proof fn lemma_sqrt_newton_settles(
    radicand: nat,
    scale: nat,
    precision: nat,
    max: nat,
    limit: nat,
)
    requires
        newton_in_reach(scale, precision, max, limit),
        1 <= radicand <= max,
    ensures
        newton_settles(
            radicand * scale,
            (radicand + scale) / 2,
            MAX_APPROXIMATION_ITERATIONS as nat,
            precision,
            limit,
        ),
{
    let product = radicand * scale;
    let guess = (radicand + scale) / 2;
    let root = floor_sqrt(product);
    let bound = max * scale + scale;
    let t = root + 1;
    let wide = pow2(128);
    let half = pow2(64);
    lemma_floor_sqrt(product);
    lemma2_to64();
    lemma2_to64_rest();
    lemma_pow2_adds(64, 64);
    lemma_pow2_adds(128, 128);
    lemma_pow2_unfold(65);
    assert(scale <= product <= max * scale) by (nonlinear_arith)
        requires
            1 <= radicand <= max,
            product == radicand * scale,
    ;
    assert(max * scale >= max) by (nonlinear_arith)
        requires
            scale >= 1,
    ;
    assert(root >= 16) by (nonlinear_arith)
        requires
            (root + 1) * (root + 1) > product,
            product >= 256,
    ;
    assert(root < wide) by (nonlinear_arith)
        requires
            root * root <= product,
            product < wide * wide,
            wide > 0,
    ;
    // the first guess is the mean of the radicand and the scale, so at least
    // the root of their product
    assert(4 * product <= (radicand + scale) * (radicand + scale)) by (nonlinear_arith)
        requires
            product == radicand * scale,
    ;
    assert(root <= guess) by (nonlinear_arith)
        requires
            root * root <= product,
            4 * product <= (radicand + scale) * (radicand + scale),
            guess == (radicand + scale) / 2,
    ;
    // and at most the larger of the two, whose square is at most two to the
    // power of 128 times the product
    let larger = if radicand >= scale {
        radicand
    } else {
        scale
    };
    assert(larger * larger <= wide * product) by (nonlinear_arith)
        requires
            product == radicand * scale,
            larger == if radicand >= scale {
                radicand
            } else {
                scale
            },
            radicand <= wide * scale,
            scale <= wide,
            radicand >= 1,
    ;
    assert(larger < half * t) by (nonlinear_arith)
        requires
            larger * larger <= wide * product,
            product < t * t,
            wide == half * half,
            half > 0,
            t > 0,
    ;
    assert(pow2(65) * t == 2 * (half * t)) by (nonlinear_arith)
        requires
            pow2(65) == 2 * half,
    ;
    assert(radicand <= wide * scale) by (nonlinear_arith)
        requires
            radicand <= max,
            max <= wide * scale,
    ;
    lemma_newton_converges(
        product,
        guess,
        MAX_APPROXIMATION_ITERATIONS as nat,
        precision,
        limit,
        bound,
        root,
        0,
    );
}

/// In a configuration within reach, the square root by Newton's method of a
/// radicand up to `max` exists; its successor squared exceeds
/// `radicand * scale`, and its square exceeds `radicand * scale` by less than
/// the square of `precision`.
pub proof fn lemma_sqrt_newton_bracket(
    radicand: nat,
    scale: nat,
    precision: nat,
    max: nat,
    limit: nat,
)
    requires
        newton_in_reach(scale, precision, max, limit),
        radicand <= max,
    ensures
        sqrt_newton_value(radicand, scale, precision, max, limit) matches Some(root) && (root + 1)
            * (root + 1) > radicand * scale && root * root < radicand * scale + precision
            * precision,
{
    lemma_sqrt_newton_lower(radicand, scale, precision, max, limit);
    assert(precision * precision > 0) by (nonlinear_arith)
        requires
            precision >= 3,
    ;
    if radicand == 0 {
        assert(0 * 0 == 0) by (nonlinear_arith);
    } else if radicand == scale {
    } else {
        lemma_sqrt_newton_settles(radicand, scale, precision, max, limit);
        assert((radicand + scale) * scale <= (max + scale) * scale) by (nonlinear_arith)
            requires
                radicand <= max,
        ;
        lemma_newton_guess(radicand, scale, limit);
        lemma_newton_settles(
            radicand * scale,
            (radicand + scale) / 2,
            MAX_APPROXIMATION_ITERATIONS as nat,
            precision,
            limit,
        );
    }
}

/// In a configuration within reach whose precision to the fourth power is at
/// most four times the scale, the square root by Newton's method is the square
/// root of `radicand * scale` rounded down, or one more.
pub proof fn lemma_sqrt_newton_exact(
    radicand: nat,
    scale: nat,
    precision: nat,
    max: nat,
    limit: nat,
)
    requires
        newton_in_reach(scale, precision, max, limit),
        precision * precision * (precision * precision) <= 4 * scale,
        radicand <= max,
    ensures
        sqrt_newton_value(radicand, scale, precision, max, limit) matches Some(root) && floor_sqrt(
            radicand * scale,
        ) <= root <= floor_sqrt(radicand * scale) + 1,
{
    let product = radicand * scale;
    let floor = floor_sqrt(product);
    let square = precision * precision;
    lemma_sqrt_newton_bracket(radicand, scale, precision, max, limit);
    lemma_floor_sqrt(product);
    let root = sqrt_newton_value(radicand, scale, precision, max, limit).unwrap();
    assert(floor <= root) by (nonlinear_arith)
        requires
            (root + 1) * (root + 1) > product,
            floor * floor <= product,
    ;
    if radicand == 0 {
        assert(product == 0) by (nonlinear_arith)
            requires
                radicand == 0,
                product == radicand * scale,
        ;
    } else {
        assert(product >= scale) by (nonlinear_arith)
            requires
                radicand >= 1,
                product == radicand * scale,
        ;
        assert(square <= 2 * floor + 1) by (nonlinear_arith)
            requires
                square * square <= 4 * scale,
                scale <= product,
                product < (floor + 1) * (floor + 1),
                square >= 0,
        ;
        assert(root <= floor + 1) by (nonlinear_arith)
            requires
                root * root < product + square,
                product < (floor + 1) * (floor + 1),
                square <= 2 * floor + 1,
        ;
    }
}

/// In such a configuration, and with as many bits tried as the inner type is
/// wide, the square root built bit by bit is at most the one by Newton's
/// method, and less than it by the gap of the scale and one at most.
pub proof fn lemma_sqrt_agreement(
    radicand: nat,
    speed: nat,
    scale: nat,
    precision: nat,
    max: nat,
    limit: nat,
    bits: nat,
)
    requires
        newton_in_reach(scale, precision, max, limit),
        precision * precision * (precision * precision) <= 4 * scale,
        radicand <= max,
        limit == pow2(bits),
        speed >= bits,
    ensures
        sqrt_cordic_value(radicand, speed, scale, max, limit) matches Some(by_bits)
            && sqrt_newton_value(radicand, scale, precision, max, limit) matches Some(by_newton)
            && by_bits <= by_newton <= by_bits + cordic_gap(scale, bits) + 1,
{
    let product = radicand * scale;
    let floor = floor_sqrt(product);
    let gap = cordic_gap(scale, bits);
    assert(max * scale >= 0) by (nonlinear_arith);
    lemma_sqrt_newton_exact(radicand, scale, precision, max, limit);
    lemma_sqrt_cordic_full(radicand, speed, scale, max, limit, bits);
    lemma_floor_sqrt(product);
    let by_bits = sqrt_cordic_value(radicand, speed, scale, max, limit).unwrap();
    assert(by_bits <= floor <= by_bits + gap) by (nonlinear_arith)
        requires
            by_bits * by_bits <= product < (by_bits + gap + 1) * (by_bits + gap + 1),
            floor * floor <= product < (floor + 1) * (floor + 1),
    ;
}

} // verus!
