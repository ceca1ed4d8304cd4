//! The square root of an unsigned integer, rounded down.

use crate::wide_int::{square_at_most, WideInt};
use vstd::arithmetic::power2::{lemma2_to64, lemma_pow2_pos, lemma_pow2_unfold, pow2};
use vstd::prelude::*;

verus! {

/// Whether `root` is the square root of `radicand` rounded down.
pub open spec fn is_floor_sqrt(root: nat, radicand: nat) -> bool {
    root * root <= radicand < (root + 1) * (root + 1)
}

/// The square root of `n`, rounded down.
pub open spec fn floor_sqrt(n: nat) -> nat
    decreases n,
{
    if n == 0 {
        0
    } else {
        let below = floor_sqrt((n - 1) as nat);
        if (below + 1) * (below + 1) <= n {
            below + 1
        } else {
            below
        }
    }
}

/// Every number has a square root rounded down, and only one.
pub proof fn lemma_floor_sqrt(n: nat)
    ensures
        is_floor_sqrt(floor_sqrt(n), n),
        forall|root: nat| is_floor_sqrt(root, n) ==> root == floor_sqrt(n),
    decreases n,
{
    if n == 0 {
        assert(is_floor_sqrt(0, 0)) by (nonlinear_arith);
    } else {
        lemma_floor_sqrt((n - 1) as nat);
    }
    let found = floor_sqrt(n);
    assert(is_floor_sqrt(found, n)) by (nonlinear_arith)
        requires
            n > 0 ==> is_floor_sqrt(floor_sqrt((n - 1) as nat), (n - 1) as nat),
            n == 0 ==> found == 0,
            n > 0 ==> found == if (floor_sqrt((n - 1) as nat) + 1) * (floor_sqrt((n - 1) as nat)
                + 1) <= n {
                floor_sqrt((n - 1) as nat) + 1
            } else {
                floor_sqrt((n - 1) as nat)
            },
    ;
    assert forall|root: nat| is_floor_sqrt(root, n) implies root == found by {
        assert(root == found) by (nonlinear_arith)
            requires
                root * root <= n < (root + 1) * (root + 1),
                found * found <= n < (found + 1) * (found + 1),
        ;
    }
}

/// The square root of `radicand`, rounded down. The largest power of two whose
/// square is at most the radicand is found by doubling; every lower bit is
/// then added where the square stays at most the radicand.
#[inline]
pub fn sqrt<T: WideInt>(radicand: T) -> (r: Option<T>)
    ensures
        r matches Some(root) && is_floor_sqrt(root.as_nat(), radicand.as_nat()) && root.as_nat()
            == floor_sqrt(radicand.as_nat()),
{
    let zero = T::zero();
    proof {
        T::lemma_limit();
        lemma2_to64();
    }
    if radicand.equals(zero) {
        assert(is_floor_sqrt(0, 0)) by (nonlinear_arith);
        proof {
            lemma_floor_sqrt(0);
        }
        return Some(zero);
    }
    let one = T::from_u128(1);
    let mut weight = one.unwrap();
    let ghost mut k: nat = 0;
    assert(1 * 1 <= radicand.as_nat()) by (nonlinear_arith)
        requires
            radicand.as_nat() >= 1,
    ;
    loop
        invariant
            weight.as_nat() == pow2(k),
            weight.as_nat() * weight.as_nat() <= radicand.as_nat(),
        ensures
            weight.as_nat() == pow2(k),
            weight.as_nat() * weight.as_nat() <= radicand.as_nat() < (2 * weight.as_nat()) * (2
                * weight.as_nat()),
        decreases T::limit() - weight.as_nat(),
    {
        proof {
            lemma_pow2_pos(k);
            lemma_pow2_unfold(k + 1);
            radicand.lemma_as_nat_bound();
            weight.lemma_as_nat_bound();
            let w = weight.as_nat();
            assert((2 * w) * (2 * w) >= 2 * w) by (nonlinear_arith)
                requires
                    w >= 1,
            ;
        }
        match weight.checked_add(weight) {
            Some(doubled) => {
                if !square_at_most(doubled, radicand) {
                    break;
                }
                weight = doubled;
                proof {
                    k = k + 1;
                }
            },
            None => {
                break;
            },
        }
    }
    let mut root = weight;
    proof {
        let w = weight.as_nat();
        assert((2 * w) * (2 * w) == (w + w) * (w + w));
    }
    loop
        invariant
            zero.as_nat() == 0,
            weight.as_nat() == pow2(k),
            root.as_nat() * root.as_nat() <= radicand.as_nat() < (root.as_nat() + weight.as_nat())
                * (root.as_nat() + weight.as_nat()),
        ensures
            is_floor_sqrt(root.as_nat(), radicand.as_nat()),
        decreases weight.as_nat(),
    {
        let half = weight.half();
        proof {
            lemma2_to64();
            lemma_pow2_pos(k);
            if k > 0 {
                lemma_pow2_unfold(k);
            }
        }
        if half.equals(zero) {
            break;
        }
        proof {
            radicand.lemma_as_nat_bound();
            let sum = root.as_nat() + half.as_nat();
            assert(sum * sum >= sum) by (nonlinear_arith)
                requires
                    sum >= 1,
            ;
            k = (k - 1) as nat;
        }
        match root.checked_add(half) {
            Some(next) => {
                if square_at_most(next, radicand) {
                    root = next;
                }
            },
            None => {},
        }
        weight = half;
    }
    proof {
        lemma_floor_sqrt(radicand.as_nat());
    }
    Some(root)
}

/// The square root of `radicand`, rounded down, by trying every bit of the
/// type from the highest to the lowest.
#[inline]
pub fn sqrt_binary_system_naiv<T: WideInt>(radicand: T) -> (r: Option<T>)
    ensures
        r matches Some(root) && is_floor_sqrt(root.as_nat(), radicand.as_nat()) && root.as_nat()
            == floor_sqrt(radicand.as_nat()),
{
    let mut root = T::zero();
    let mut k: u32 = T::num_bits();
    proof {
        T::lemma_limit();
        radicand.lemma_as_nat_bound();
        lemma_pow2_pos(k as nat);
        let top = pow2(k as nat);
        assert((0 + top) * (0 + top) >= top) by (nonlinear_arith)
            requires
                top >= 1,
        ;
        assert(0 * 0 == 0) by (nonlinear_arith);
    }
    while k > 0
        invariant
            k <= T::bits(),
            T::limit() == pow2(T::bits()),
            root.as_nat() * root.as_nat() <= radicand.as_nat() < (root.as_nat() + pow2(k as nat))
                * (root.as_nat() + pow2(k as nat)),
        decreases k,
    {
        proof {
            lemma_pow2_unfold(k as nat);
            lemma_pow2_pos((k - 1) as nat);
            if k < T::bits() {
                vstd::arithmetic::power2::lemma_pow2_strictly_increases(
                    (k - 1) as nat,
                    T::bits(),
                );
            } else if k - 1 < T::bits() {
                vstd::arithmetic::power2::lemma_pow2_strictly_increases(
                    (k - 1) as nat,
                    T::bits(),
                );
            }
            assert(1 * pow2((k - 1) as nat) == pow2((k - 1) as nat)) by (nonlinear_arith);
            radicand.lemma_as_nat_bound();
        }
        k = k - 1;
        let weight = T::from_u64_shifted(1, k);
        match root.checked_add(weight.unwrap()) {
            Some(next) => {
                if square_at_most(next, radicand) {
                    root = next;
                }
            },
            None => {
                proof {
                    let sum = root.as_nat() + pow2(k as nat);
                    assert(sum * sum >= sum) by (nonlinear_arith)
                        requires
                            sum >= 1,
                    ;
                }
            },
        }
    }
    proof {
        lemma2_to64();
    }
    proof {
        lemma_floor_sqrt(radicand.as_nat());
    }
    Some(root)
}

} // verus!
