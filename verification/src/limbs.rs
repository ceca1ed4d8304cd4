//! Arithmetic on little-endian arrays of 64-bit limbs.

use vstd::arithmetic::div_mod::lemma_fundamental_div_mod_converse;
use vstd::arithmetic::power2::{
    lemma2_to64, lemma2_to64_rest, lemma_pow2_adds, lemma_pow2_pos, lemma_pow2_strictly_increases,
    lemma_pow2_unfold, pow2,
};
use vstd::bits::{lemma_u64_pow2_no_overflow, lemma_u64_shl_is_mul};
use vstd::prelude::*;

verus! {

/// Two to the power of 64, the number of values of a limb.
pub open spec fn limb_base() -> nat {
    0x1_0000_0000_0000_0000
}

/// The natural number that a little-endian sequence of limbs stands for.
pub open spec fn limbs_val(s: Seq<u64>) -> nat
    decreases s.len(),
{
    if s.len() == 0 {
        0
    } else {
        limbs_val(s.drop_last()) + s.last() as nat * pow2((64 * (s.len() - 1)) as nat)
    }
}

/// One more limb adds its value times the weight of its place.
pub proof fn lemma_limbs_val_step(s: Seq<u64>, i: int)
    requires
        0 <= i < s.len(),
    ensures
        limbs_val(s.take(i + 1)) == limbs_val(s.take(i)) + s[i] as nat * pow2((64 * i) as nat),
        pow2((64 * (i + 1)) as nat) == limb_base() * pow2((64 * i) as nat),
        pow2((64 * i) as nat) > 0,
{
    assert(s.take(i + 1).drop_last() =~= s.take(i));
    lemma_pow2_adds(64, (64 * i) as nat);
    lemma2_to64_rest();
    lemma_pow2_pos((64 * i) as nat);
}

/// A sequence of limbs stands for a number below two to the power of its
/// width.
pub proof fn lemma_limbs_val_bound(s: Seq<u64>)
    ensures
        limbs_val(s) < pow2((64 * s.len()) as nat),
    decreases s.len(),
{
    if s.len() == 0 {
        lemma2_to64();
    } else {
        let n = (s.len() - 1) as int;
        lemma_limbs_val_bound(s.drop_last());
        assert(s.take(n + 1) =~= s);
        assert(s.take(n) =~= s.drop_last());
        lemma_limbs_val_step(s, n);
        let p = pow2((64 * n) as nat);
        assert(s[n] as nat * p + p <= limb_base() * p) by (nonlinear_arith)
            requires
                s[n] as nat + 1 <= limb_base(),
        ;
    }
}

/// A sum of digits with its carry, at the place of weight `p`.
proof fn lemma_digits(x: int, y: int, c: int, o: int, c2: int, p: int)
    by (nonlinear_arith)
    requires
        x + y + c == o + c2 * limb_base(),
    ensures
        x * p + y * p + c * p == o * p + c2 * (limb_base() * p),
{
}

/// The sum of two limb arrays and a carry: the low limbs of the sum, and the
/// carry out of the highest limb.
pub fn limbs_add<const N: usize>(a: &[u64; N], b: &[u64; N], carry_in: bool) -> (r: (
    [u64; N],
    bool,
))
    ensures
        limbs_val(r.0@) + (if r.1 {
            pow2((64 * N) as nat)
        } else {
            0
        }) == limbs_val(a@) + limbs_val(b@) + (if carry_in {
            1nat
        } else {
            0
        }),
{
    let mut out: [u64; N] = *a;
    let mut carry = carry_in;
    let mut i: usize = 0;
    proof {
        lemma2_to64();
    }
    while i < N
        invariant
            i <= N,
            limbs_val(out@.take(i as int)) + (if carry {
                pow2((64 * i) as nat)
            } else {
                0
            }) == limbs_val(a@.take(i as int)) + limbs_val(b@.take(i as int)) + (if carry_in {
                1nat
            } else {
                0
            }),
        decreases N - i,
    {
        let x: u128 = a[i] as u128;
        let y: u128 = b[i] as u128;
        let c: u128 = if carry {
            1
        } else {
            0
        };
        let t: u128 = x + y + c;
        let digit: u64 = if t >= 0x1_0000_0000_0000_0000 {
            (t - 0x1_0000_0000_0000_0000) as u64
        } else {
            t as u64
        };
        let ghost before = out@;
        out[i] = digit;
        proof {
            assert(out@.take(i as int) =~= before.take(i as int));
            lemma_limbs_val_step(out@, i as int);
            lemma_limbs_val_step(a@, i as int);
            lemma_limbs_val_step(b@, i as int);
            let c2: int = if t >= 0x1_0000_0000_0000_0000 {
                1
            } else {
                0
            };
            lemma_digits(x as int, y as int, c as int, digit as int, c2, pow2((64 * i) as nat) as int);
        }
        carry = t >= 0x1_0000_0000_0000_0000;
        i = i + 1;
    }
    proof {
        assert(out@.take(N as int) =~= out@);
        assert(a@.take(N as int) =~= a@);
        assert(b@.take(N as int) =~= b@);
    }
    (out, carry)
}


/// A sequence of limbs stands for zero just when every limb is zero.
pub proof fn lemma_limbs_val_zero(s: Seq<u64>)
    ensures
        limbs_val(s) == 0 <==> (forall|i: int| 0 <= i < s.len() ==> s[i] == 0),
    decreases s.len(),
{
    if s.len() > 0 {
        let n = (s.len() - 1) as int;
        lemma_limbs_val_zero(s.drop_last());
        lemma_pow2_pos((64 * n) as nat);
        let p = pow2((64 * n) as nat);
        assert(s.last() > 0 ==> s.last() as nat * p > 0) by (nonlinear_arith)
            requires
                p > 0,
        ;
        assert(s.last() == 0 ==> s.last() as nat * p == 0) by (nonlinear_arith);
        if limbs_val(s) == 0 {
            assert forall|i: int| 0 <= i < s.len() implies s[i] == 0 by {
                if i < n {
                    assert(s.drop_last()[i] == s[i]);
                }
            }
        }
        if forall|i: int| 0 <= i < s.len() ==> s[i] == 0 {
            assert forall|i: int| 0 <= i < s.drop_last().len() implies s.drop_last()[i] == 0 by {
                assert(s.drop_last()[i] == s[i]);
            }
        }
    }
}

/// A difference of digits with its borrow, at the place of weight `p`.
proof fn lemma_digits_sub(x: int, y: int, c: int, o: int, c2: int, p: int)
    by (nonlinear_arith)
    requires
        x - y - c == o - c2 * limb_base(),
    ensures
        x * p - y * p - c * p == o * p - c2 * (limb_base() * p),
{
}

/// A digit halved, with the lowest bit of the next digit moved in from above,
/// at the place of weight `p`.
proof fn lemma_digits_half(x: int, n0: int, n1: int, o: int, p: int)
    by (nonlinear_arith)
    requires
        2 * o + n0 == x + n1 * limb_base(),
    ensures
        2 * (o * p) + n0 * p == x * p + n1 * (limb_base() * p),
{
}

/// The array of `N` zero limbs.
pub fn limbs_zero<const N: usize>() -> (r: [u64; N])
    ensures
        limbs_val(r@) == 0,
{
    let r: [u64; N] = vstd::array::array_fill_for_copy_types(0u64);
    proof {
        lemma_limbs_val_zero(r@);
    }
    r
}

/// Whether the limbs stand for zero.
pub fn limbs_is_zero<const N: usize>(a: &[u64; N]) -> (r: bool)
    ensures
        r == (limbs_val(a@) == 0),
{
    proof {
        lemma_limbs_val_zero(a@);
    }
    let mut i: usize = 0;
    while i < N
        invariant
            i <= N,
            forall|j: int| 0 <= j < i ==> a@[j] == 0,
        decreases N - i,
    {
        if a[i] != 0 {
            proof {
                lemma_limbs_val_zero(a@);
            }
            return false;
        }
        i = i + 1;
    }
    true
}

/// The difference of two limb arrays: its low limbs, and the borrow out of the
/// highest limb, which tells that `b` is the larger.
pub fn limbs_sub<const N: usize>(a: &[u64; N], b: &[u64; N]) -> (r: ([u64; N], bool))
    ensures
        limbs_val(r.0@) - (if r.1 {
            pow2((64 * N) as nat)
        } else {
            0
        }) == limbs_val(a@) - limbs_val(b@),
        r.1 == (limbs_val(a@) < limbs_val(b@)),
{
    let mut out: [u64; N] = *a;
    let mut borrow = false;
    let mut i: usize = 0;
    proof {
        lemma2_to64();
    }
    while i < N
        invariant
            i <= N,
            limbs_val(out@.take(i as int)) - (if borrow {
                pow2((64 * i) as nat)
            } else {
                0
            }) == limbs_val(a@.take(i as int)) - limbs_val(b@.take(i as int)),
        decreases N - i,
    {
        let x: u128 = a[i] as u128;
        let y: u128 = b[i] as u128;
        let c: u128 = if borrow {
            1
        } else {
            0
        };
        let under = x < y + c;
        let digit: u64 = if under {
            (x + 0x1_0000_0000_0000_0000 - y - c) as u64
        } else {
            (x - y - c) as u64
        };
        let ghost before = out@;
        out[i] = digit;
        proof {
            assert(out@.take(i as int) =~= before.take(i as int));
            lemma_limbs_val_step(out@, i as int);
            lemma_limbs_val_step(a@, i as int);
            lemma_limbs_val_step(b@, i as int);
            let c2: int = if under {
                1
            } else {
                0
            };
            lemma_digits_sub(
                x as int,
                y as int,
                c as int,
                digit as int,
                c2,
                pow2((64 * i) as nat) as int,
            );
        }
        borrow = under;
        i = i + 1;
    }
    proof {
        assert(out@.take(N as int) =~= out@);
        assert(a@.take(N as int) =~= a@);
        assert(b@.take(N as int) =~= b@);
        lemma_limbs_val_bound(out@);
        lemma_limbs_val_bound(a@);
        lemma_limbs_val_bound(b@);
    }
    (out, borrow)
}

/// Twice a limb array plus a carry: the low limbs, and the bit shifted out of
/// the highest limb.
pub fn limbs_shl1<const N: usize>(a: &[u64; N], carry_in: bool) -> (r: ([u64; N], bool))
    ensures
        limbs_val(r.0@) + (if r.1 {
            pow2((64 * N) as nat)
        } else {
            0
        }) == 2 * limbs_val(a@) + (if carry_in {
            1nat
        } else {
            0
        }),
{
    let mut out: [u64; N] = *a;
    let mut carry = carry_in;
    let mut i: usize = 0;
    proof {
        lemma2_to64();
    }
    while i < N
        invariant
            i <= N,
            limbs_val(out@.take(i as int)) + (if carry {
                pow2((64 * i) as nat)
            } else {
                0
            }) == 2 * limbs_val(a@.take(i as int)) + (if carry_in {
                1nat
            } else {
                0
            }),
        decreases N - i,
    {
        let x: u64 = a[i];
        let high = x >= 0x8000_0000_0000_0000;
        let low: u64 = if high {
            x - 0x8000_0000_0000_0000
        } else {
            x
        };
        let c: u64 = if carry {
            1
        } else {
            0
        };
        let digit: u64 = low * 2 + c;
        let ghost before = out@;
        out[i] = digit;
        proof {
            assert(out@.take(i as int) =~= before.take(i as int));
            lemma_limbs_val_step(out@, i as int);
            lemma_limbs_val_step(a@, i as int);
            let c2: int = if high {
                1
            } else {
                0
            };
            lemma_digits(
                x as int,
                x as int,
                c as int,
                digit as int,
                c2,
                pow2((64 * i) as nat) as int,
            );
        }
        carry = high;
        i = i + 1;
    }
    proof {
        assert(out@.take(N as int) =~= out@);
        assert(a@.take(N as int) =~= a@);
    }
    (out, carry)
}

/// Half of a limb array, rounded down.
pub fn limbs_shr1<const N: usize>(a: &[u64; N]) -> (r: [u64; N])
    ensures
        limbs_val(r@) == limbs_val(a@) / 2,
{
    let mut out: [u64; N] = *a;
    let mut i: usize = 0;
    let ghost low: int = if N > 0 {
        a@[0] as int % 2
    } else {
        0
    };
    proof {
        lemma2_to64();
        assert(limbs_val(out@.take(0)) == 0);
        assert(limbs_val(a@.take(0)) == 0);
        assert(low * pow2(0) == low);
    }
    while i < N
        invariant
            i <= N,
            low == (if N > 0 {
                a@[0] as int % 2
            } else {
                0
            }),
            2 * limbs_val(out@.take(i as int)) + low == limbs_val(a@.take(i as int)) + (if i < N {
                a@[i as int] as int % 2
            } else {
                0
            }) * pow2((64 * i) as nat),
        decreases N - i,
    {
        let x: u64 = a[i];
        let next_odd = i + 1 < N && a[i + 1] % 2 == 1;
        let digit: u64 = if next_odd {
            x / 2 + 0x8000_0000_0000_0000
        } else {
            x / 2
        };
        let ghost before = out@;
        out[i] = digit;
        proof {
            assert(out@.take(i as int) =~= before.take(i as int));
            lemma_limbs_val_step(out@, i as int);
            lemma_limbs_val_step(a@, i as int);
            let n1: int = if next_odd {
                1
            } else {
                0
            };
            lemma_digits_half(
                x as int,
                x as int % 2,
                n1,
                digit as int,
                pow2((64 * i) as nat) as int,
            );
        }
        i = i + 1;
    }
    proof {
        assert(out@.take(N as int) =~= out@);
        assert(a@.take(N as int) =~= a@);
    }
    out
}


/// One bit more of `b`, taken from the top of what is left of it: with `k`
/// bits taken, `top` is their number and `rest` holds the others, moved up.
proof fn lemma_take_bit(b: nat, top: nat, rest: nat, rest2: nat, bit: nat, k: nat, w: nat)
    requires
        k < w,
        b * pow2(k) == top * pow2(w) + rest,
        rest2 + bit * pow2(w) == 2 * rest,
    ensures
        b * pow2(k + 1) == (2 * top + bit) * pow2(w) + rest2,
        rest2 < pow2(w) ==> 2 * top + bit <= b,
        rest2 < pow2(w) && b < pow2(w) ==> 2 * top + bit < pow2(k + 1),
{
    lemma_pow2_unfold(k + 1);
    lemma_pow2_pos(k + 1);
    let pk = pow2(k);
    let pk1 = pow2(k + 1);
    let pw = pow2(w);
    let top2 = 2 * top + bit;
    assert(b * pk1 == top2 * pw + rest2) by (nonlinear_arith)
        requires
            pk1 == 2 * pk,
            b * pk == top * pw + rest,
            rest2 + bit * pw == 2 * rest,
            top2 == 2 * top + bit,
    ;
    if k + 1 < w {
        lemma_pow2_strictly_increases(k + 1, w);
    }
    assert(pk1 <= pw);
    if rest2 < pw {
        assert(top2 <= b) by (nonlinear_arith)
            requires
                b * pk1 == top2 * pw + rest2,
                0 < pk1 <= pw,
                rest2 < pw,
        ;
        if b < pw {
            assert(top2 < pk1) by (nonlinear_arith)
                requires
                    b * pk1 == top2 * pw + rest2,
                    b < pw,
                    0 < pk1,
            ;
        }
    }
}

/// With every bit taken, the bits are the number itself.
proof fn lemma_all_bits(b: nat, top: nat, rest: nat, w: nat)
    requires
        b * pow2(w) == top * pow2(w) + rest,
        rest < pow2(w),
    ensures
        top == b,
        rest == 0,
{
    lemma_pow2_pos(w);
    let pw = pow2(w);
    assert(top == b && rest == 0) by (nonlinear_arith)
        requires
            b * pw == top * pw + rest,
            rest < pw,
            pw > 0,
    ;
}

/// The low limbs of a sequence stand for at most what the sequence stands
/// for, and for the same where the other limbs are zero.
pub proof fn lemma_limbs_val_take(s: Seq<u64>, k: int)
    requires
        0 <= k <= s.len(),
    ensures
        limbs_val(s.take(k)) <= limbs_val(s),
        (forall|i: int| k <= i < s.len() ==> s[i] == 0) ==> limbs_val(s.take(k)) == limbs_val(s),
{
    lemma_limbs_val_split(s, k);
    lemma_limbs_val_zero(s.skip(k));
    lemma_pow2_pos((64 * k) as nat);
    let p = pow2((64 * k) as nat);
    let high = limbs_val(s.skip(k));
    assert(p * high >= 0) by (nonlinear_arith)
        requires
            p >= 0,
            high >= 0,
    ;
    if forall|i: int| k <= i < s.len() ==> s[i] == 0 {
        assert forall|i: int| 0 <= i < s.skip(k).len() implies s.skip(k)[i] == 0 by {
            assert(s.skip(k)[i] == s[k + i]);
        }
        assert(p * high == 0) by (nonlinear_arith)
            requires
                high == 0,
        ;
    }
}

/// A sequence with a limb that is not zero stands for at least the weight of
/// that limb's place.
pub proof fn lemma_limbs_val_limb(s: Seq<u64>, i: int)
    requires
        0 <= i < s.len(),
        s[i] != 0,
    ensures
        limbs_val(s) >= pow2((64 * i) as nat),
{
    lemma_limbs_val_split(s, i);
    lemma_limbs_val_zero(s.skip(i));
    assert(s.skip(i)[0] == s[i]);
    let p = pow2((64 * i) as nat);
    let high = limbs_val(s.skip(i));
    assert(p * high >= p) by (nonlinear_arith)
        requires
            high >= 1,
            p >= 0,
    ;
}

/// One step of a row of the multiplication: the digit `ai` at the place of
/// weight `pi` times `y`, added to the digit `old` and the carry `carry` at the
/// place of weight `pi * pj`, gives the digit `new` and the carry `c2`.
proof fn lemma_row_step(
    ai: int,
    y: int,
    old: int,
    carry: int,
    new: int,
    c2: int,
    pi: int,
    pj: int,
    va: int,
)
    requires
        ai * y + old + carry == new + c2 * limb_base(),
    ensures
        new * (pi * pj) + c2 * (limb_base() * (pi * pj)) - old * (pi * pj) - carry * (pi * pj) + va
            * y * pj == (va + ai * pi) * y * pj,
{
    let p = pi * pj;
    let product = ai * y;
    let base = limb_base() as int;
    assert((new + c2 * base - old - carry) * p == new * p + c2 * (base * p) - old * p - carry * p)
        by (nonlinear_arith);
    assert(product == new + c2 * base - old - carry);
    assert(product * p == (ai * pi) * y * pj) by (nonlinear_arith)
        requires
            product == ai * y,
            p == pi * pj,
    ;
    assert((va + ai * pi) * y * pj == va * y * pj + (ai * pi) * y * pj) by (nonlinear_arith);
}

/// A limb array plus another times the limb `y`, moved up by `j` places: the
/// sum where it fits `N` limbs, or word that it does not.
pub fn limbs_mul_add_row<const N: usize>(acc: &[u64; N], a: &[u64; N], y: u64, j: usize) -> (r: (
    [u64; N],
    bool,
))
    requires
        N <= 0x1000,
        j < N,
    ensures
        !r.1 ==> limbs_val(r.0@) == limbs_val(acc@) + limbs_val(a@) * y * pow2((64 * j) as nat),
        r.1 ==> limbs_val(acc@) + limbs_val(a@) * y * pow2((64 * j) as nat) >= pow2(
            (64 * N) as nat,
        ),
{
    let mut out: [u64; N] = *acc;
    let ghost pj = pow2((64 * j) as nat);
    let ghost va = limbs_val(a@);
    proof {
        lemma2_to64();
        lemma_pow2_pos((64 * j) as nat);
        assert(va * 0 * pj == 0) by (nonlinear_arith);
    }
    if y == 0 {
        return (out, false);
    }
    let low: usize = N - j;
    let mut carry: u64 = 0;
    let mut i: usize = 0;
    proof {
        assert(limbs_val(a@.take(0)) == 0);
        assert(0 * y * pj == 0) by (nonlinear_arith);
    }
    while i < low
        invariant
            i <= low,
            low == N - j,
            j < N,
            pj == pow2((64 * j) as nat),
            limbs_val(out@) + carry * pow2((64 * (i + j)) as nat) == limbs_val(acc@) + limbs_val(
                a@.take(i as int),
            ) * y * pj,
        decreases low - i,
    {
        let x = a[i];
        let before = out[i + j];
        assert((x as u128) * (y as u128) <= 0xffff_ffff_ffff_fffe_0000_0000_0000_0001)
            by (nonlinear_arith)
            requires
                x <= 0xffff_ffff_ffff_ffff,
                y <= 0xffff_ffff_ffff_ffff,
        ;
        let t: u128 = (x as u128) * (y as u128) + (before as u128) + (carry as u128);
        let digit: u64 = (t % 0x1_0000_0000_0000_0000) as u64;
        let next_carry: u64 = (t / 0x1_0000_0000_0000_0000) as u64;
        proof {
            let pi = pow2((64 * i) as nat);
            lemma_limbs_val_update(out@, (i + j) as int, digit);
            lemma_limbs_val_step(a@, i as int);
            lemma_pow2_adds((64 * i) as nat, (64 * j) as nat);
            lemma_pow2_adds(64, (64 * (i + j)) as nat);
            lemma2_to64_rest();
            assert(pow2((64 * (i + j)) as nat) == pi * pj);
            assert(pow2((64 * (i + 1 + j)) as nat) == limb_base() * (pi * pj));
            assert(t == digit + next_carry * limb_base());
            lemma_row_step(
                x as int,
                y as int,
                before as int,
                carry as int,
                digit as int,
                next_carry as int,
                pi as int,
                pj as int,
                limbs_val(a@.take(i as int)) as int,
            );
        }
        out[i + j] = digit;
        carry = next_carry;
        i = i + 1;
    }
    proof {
        lemma_limbs_val_take(a@, low as int);
        lemma_limbs_val_bound(out@);
        let part = limbs_val(a@.take(low as int));
        assert(part * y * pj <= va * y * pj) by (nonlinear_arith)
            requires
                part <= va,
                y >= 0,
                pj >= 0,
        ;
    }
    if carry != 0 {
        proof {
            let top = pow2((64 * N) as nat);
            assert(carry * top >= top) by (nonlinear_arith)
                requires
                    carry >= 1,
                    top >= 0,
            ;
        }
        return (out, true);
    }
    while i < N
        invariant
            low <= i <= N,
            low == N - j,
            j < N,
            y != 0,
            pj == pow2((64 * j) as nat),
            va == limbs_val(a@),
            forall|k: int| low <= k < i ==> a@[k] == 0,
        decreases N - i,
    {
        if a[i] != 0 {
            proof {
                let pi = pow2((64 * i) as nat);
                lemma_limbs_val_limb(a@, i as int);
                lemma_pow2_adds((64 * i) as nat, (64 * j) as nat);
                if i + j > N {
                    lemma_pow2_strictly_increases((64 * N) as nat, (64 * (i + j)) as nat);
                }
                assert(va * y * pj >= pi * pj) by (nonlinear_arith)
                    requires
                        va >= pi,
                        y >= 1,
                        pj >= 0,
                        pi >= 0,
                ;
            }
            return (out, true);
        }
        i = i + 1;
    }
    (out, false)
}

/// The product of two limb arrays, where it fits `N` limbs: row by row, every
/// limb of `b` times `a` is added at its place.
pub fn limbs_mul<const N: usize>(a: &[u64; N], b: &[u64; N]) -> (r: Option<[u64; N]>)
    requires
        N <= 0x1000,
    ensures
        match r {
            Some(v) => limbs_val(v@) == limbs_val(a@) * limbs_val(b@) < pow2((64 * N) as nat),
            None => limbs_val(a@) * limbs_val(b@) >= pow2((64 * N) as nat),
        },
{
    let mut acc: [u64; N] = limbs_zero();
    let mut j: usize = 0;
    let ghost va = limbs_val(a@);
    proof {
        assert(limbs_val(b@.take(0)) == 0);
        assert(va * 0 == 0) by (nonlinear_arith);
    }
    while j < N
        invariant
            j <= N,
            N <= 0x1000,
            va == limbs_val(a@),
            limbs_val(acc@) == va * limbs_val(b@.take(j as int)),
        decreases N - j,
    {
        let (sum, overflow) = limbs_mul_add_row(&acc, a, b[j], j);
        proof {
            let pj = pow2((64 * j) as nat);
            let done = limbs_val(b@.take(j as int));
            let next = limbs_val(b@.take(j + 1));
            lemma_limbs_val_step(b@, j as int);
            lemma_limbs_val_take(b@, j + 1);
            assert(va * next == va * done + va * b@[j as int] * pj) by (nonlinear_arith)
                requires
                    next == done + b@[j as int] * pj,
            ;
            assert(va * next <= va * limbs_val(b@)) by (nonlinear_arith)
                requires
                    next <= limbs_val(b@),
                    va >= 0,
            ;
        }
        if overflow {
            return None;
        }
        acc = sum;
        j = j + 1;
    }
    proof {
        assert(b@.take(N as int) =~= b@);
        lemma_limbs_val_bound(acc@);
    }
    Some(acc)
}

/// The quotient and the remainder of two limb arrays, bit by bit: the bits of
/// `a` are moved into the remainder from the top, and `b` is taken from the
/// remainder wherever it fits.
pub fn limbs_div_rem_bits<const N: usize>(a: &[u64; N], b: &[u64; N]) -> (r: ([u64; N], [u64; N]))
    requires
        N <= 0x1000,
        limbs_val(b@) > 0,
    ensures
        limbs_val(r.0@) == limbs_val(a@) / limbs_val(b@),
        limbs_val(r.1@) == limbs_val(a@) % limbs_val(b@),
{
    let total: usize = 64 * N;
    let mut quotient: [u64; N] = limbs_zero();
    let mut remainder: [u64; N] = limbs_zero();
    let mut rest: [u64; N] = *a;
    let ghost mut top: nat = 0;
    let mut k: usize = 0;
    let ghost bv = limbs_val(b@);
    let ghost pw = pow2(total as nat);
    proof {
        lemma2_to64();
        lemma_limbs_val_bound(a@);
        lemma_limbs_val_bound(b@);
        assert(0 * pw == 0) by (nonlinear_arith);
        assert(0 * bv == 0) by (nonlinear_arith);
        assert(limbs_val(a@) * 1 == limbs_val(a@)) by (nonlinear_arith);
    }
    while k < total
        invariant
            k <= total,
            total == 64 * N,
            bv == limbs_val(b@),
            pw == pow2(total as nat),
            0 < bv < pw,
            limbs_val(a@) < pw,
            limbs_val(a@) * pow2(k as nat) == top * pw + limbs_val(rest@),
            top == limbs_val(quotient@) * bv + limbs_val(remainder@),
            limbs_val(remainder@) < bv,
            top < pow2(k as nat),
        decreases total - k,
    {
        let (rest2, bit) = limbs_shl1(&rest, false);
        let (shifted, carry) = limbs_shl1(&remainder, bit);
        let (reduced, borrow) = limbs_sub(&shifted, b);
        let reaches = carry || !borrow;
        let (quotient2, spill) = limbs_shl1(&quotient, reaches);
        let ghost bit_nat: nat = if bit {
            1
        } else {
            0
        };
        let ghost reach_nat: nat = if reaches {
            1
        } else {
            0
        };
        let ghost top2 = 2 * top + bit_nat;
        let ghost qv = limbs_val(quotient@);
        proof {
            lemma_limbs_val_bound(rest2@);
            lemma_limbs_val_bound(shifted@);
            lemma_limbs_val_bound(reduced@);
            lemma_limbs_val_bound(quotient2@);
            lemma_take_bit(
                limbs_val(a@),
                top,
                limbs_val(rest@),
                limbs_val(rest2@),
                bit_nat,
                k as nat,
                total as nat,
            );
            lemma_pow2_unfold((k + 1) as nat);
            if k + 1 < total {
                lemma_pow2_strictly_increases((k + 1) as nat, total as nat);
            }
            assert((2 * qv + reach_nat) * bv == 2 * (qv * bv) + reach_nat * bv) by (nonlinear_arith);
            assert((2 * qv + reach_nat) * bv >= 2 * qv + reach_nat) by (nonlinear_arith)
                requires
                    bv >= 1,
            ;
        }
        if reaches {
            remainder = reduced;
        } else {
            remainder = shifted;
        }
        quotient = quotient2;
        rest = rest2;
        proof {
            top = top2;
        }
        k = k + 1;
    }
    proof {
        lemma_limbs_val_bound(rest@);
        lemma_all_bits(limbs_val(a@), top, limbs_val(rest@), total as nat);
        lemma_fundamental_div_mod_converse(
            limbs_val(a@) as int,
            bv as int,
            limbs_val(quotient@) as int,
            limbs_val(remainder@) as int,
        );
    }
    (quotient, remainder)
}


/// A sequence from one place lower is the limb at that place plus the
/// sequence from the place itself, moved up by a place.
pub proof fn lemma_limbs_val_skip(s: Seq<u64>, i: int)
    requires
        0 < i <= s.len(),
    ensures
        limbs_val(s.skip(i - 1)) == s[i - 1] + limb_base() * limbs_val(s.skip(i)),
{
    let tail = s.skip(i - 1);
    lemma_limbs_val_split(tail, 1);
    assert(tail.skip(1) =~= s.skip(i));
    assert(tail.take(1) =~= seq![s[i - 1]]);
    lemma_limbs_val_step(tail, 0);
    assert(tail.take(0).len() == 0);
    lemma2_to64();
    lemma2_to64_rest();
    assert(s[i - 1] as nat * 1 == s[i - 1]) by (nonlinear_arith);
}

/// One step of the division by a limb: the remainder so far and the next
/// limb of the dividend give the next limb of the quotient and the next
/// remainder.
proof fn lemma_short_division_step(
    limb: int,
    rem: int,
    digit: int,
    rem2: int,
    d: int,
    quotient: int,
    dividend: int,
)
    requires
        rem * limb_base() + limb == digit * d + rem2,
        dividend == quotient * d + rem,
    ensures
        limb + limb_base() * dividend == (digit + limb_base() * quotient) * d + rem2,
{
    let base = limb_base() as int;
    assert(base * dividend == base * (quotient * d) + base * rem) by (nonlinear_arith)
        requires
            dividend == quotient * d + rem,
    ;
    assert((digit + base * quotient) * d == digit * d + base * (quotient * d)) by (nonlinear_arith);
    assert(base * rem == rem * base) by (nonlinear_arith);
}

/// The quotient and the remainder of a limb array by a limb, limb by limb
/// from the top.
pub fn limbs_div_rem_limb<const N: usize>(a: &[u64; N], d: u64) -> (r: ([u64; N], u64))
    requires
        d > 0,
    ensures
        limbs_val(r.0@) == limbs_val(a@) / (d as nat),
        r.1 == limbs_val(a@) % (d as nat),
{
    let mut quotient: [u64; N] = *a;
    let mut rem: u64 = 0;
    let mut i: usize = N;
    proof {
        assert(a@.skip(N as int).len() == 0);
        assert(quotient@.skip(N as int).len() == 0);
        assert(0 * d == 0) by (nonlinear_arith);
    }
    while i > 0
        invariant
            i <= N,
            d > 0,
            rem < d,
            limbs_val(a@.skip(i as int)) == limbs_val(quotient@.skip(i as int)) * d + rem,
        decreases i,
    {
        let limb = a[i - 1];
        let cur: u128 = (rem as u128) * 0x1_0000_0000_0000_0000 + (limb as u128);
        assert(cur / (d as u128) < 0x1_0000_0000_0000_0000) by (nonlinear_arith)
            requires
                cur < (d as u128) * 0x1_0000_0000_0000_0000,
                d > 0,
        ;
        let digit: u64 = (cur / (d as u128)) as u64;
        let rem2: u64 = (cur % (d as u128)) as u64;
        let ghost before = quotient@;
        quotient[i - 1] = digit;
        proof {
            assert(quotient@.skip(i as int) =~= before.skip(i as int));
            lemma_limbs_val_skip(a@, i as int);
            lemma_limbs_val_skip(quotient@, i as int);
            assert(cur == digit * d + rem2) by (nonlinear_arith)
                requires
                    digit == cur / (d as u128),
                    rem2 == cur % (d as u128),
                    d > 0,
            ;
            lemma_short_division_step(
                limb as int,
                rem as int,
                digit as int,
                rem2 as int,
                d as int,
                limbs_val(before.skip(i as int)) as int,
                limbs_val(a@.skip(i as int)) as int,
            );
        }
        rem = rem2;
        i = i - 1;
    }
    proof {
        assert(a@.skip(0) =~= a@);
        assert(quotient@.skip(0) =~= quotient@);
        lemma_fundamental_div_mod_converse(
            limbs_val(a@) as int,
            d as int,
            limbs_val(quotient@) as int,
            rem as int,
        );
    }
    (quotient, rem)
}

/// The quotient and the remainder of two limb arrays: limb by limb where the
/// divisor is a single limb, bit by bit where it is longer.
pub fn limbs_div_rem<const N: usize>(a: &[u64; N], b: &[u64; N]) -> (r: ([u64; N], [u64; N]))
    requires
        N <= 0x1000,
        limbs_val(b@) > 0,
    ensures
        limbs_val(r.0@) == limbs_val(a@) / limbs_val(b@),
        limbs_val(r.1@) == limbs_val(a@) % limbs_val(b@),
{
    let mut i: usize = 1;
    while i < N
        invariant
            1 <= i,
            N <= 0x1000,
            limbs_val(b@) > 0,
            forall|k: int| 1 <= k < i ==> b@[k] == 0,
        decreases N - i,
    {
        if b[i] != 0 {
            return limbs_div_rem_bits(a, b);
        }
        i = i + 1;
    }
    if N == 0 {
        return limbs_div_rem_bits(a, b);
    }
    proof {
        lemma_limbs_val_take(b@, 1);
        lemma_limbs_val_step(b@, 0);
        assert(b@.take(0).len() == 0);
        lemma2_to64();
        assert(b@[0] as nat * 1 == b@[0]) by (nonlinear_arith);
    }
    let (quotient, rem) = limbs_div_rem_limb(a, b[0]);
    let mut remainder: [u64; N] = limbs_zero();
    proof {
        lemma_limbs_val_zero(remainder@);
        lemma_limbs_val_update(remainder@, 0, rem);
        assert(0 * pow2(0) == 0) by (nonlinear_arith);
        assert(rem as nat * 1 == rem) by (nonlinear_arith);
    }
    remainder[0] = rem;
    (quotient, remainder)
}

/// A sequence of limbs is its low `k` limbs plus its other limbs moved up by
/// `k` places.
pub proof fn lemma_limbs_val_split(s: Seq<u64>, k: int)
    requires
        0 <= k <= s.len(),
    ensures
        limbs_val(s) == limbs_val(s.take(k)) + pow2((64 * k) as nat) * limbs_val(s.skip(k)),
    decreases s.len(),
{
    if k == s.len() {
        assert(s.take(k) =~= s);
        assert(s.skip(k).len() == 0);
        assert(pow2((64 * k) as nat) * 0 == 0) by (nonlinear_arith);
    } else {
        let n = (s.len() - 1) as int;
        let front = s.drop_last();
        lemma_limbs_val_split(front, k);
        assert(front.take(k) =~= s.take(k));
        assert(s.skip(k).drop_last() =~= front.skip(k));
        assert(s.skip(k).last() == s.last());
        lemma_pow2_adds((64 * k) as nat, (64 * (n - k)) as nat);
        let pk = pow2((64 * k) as nat);
        let pr = pow2((64 * (n - k)) as nat);
        let rest = limbs_val(front.skip(k));
        let top = s.last() as nat;
        assert(pk * (rest + top * pr) == pk * rest + top * (pk * pr)) by (nonlinear_arith);
    }
}


/// Changing one limb changes the value by the difference of the two limbs
/// times the weight of the place.
pub proof fn lemma_limbs_val_update(s: Seq<u64>, i: int, v: u64)
    requires
        0 <= i < s.len(),
    ensures
        limbs_val(s.update(i, v)) == limbs_val(s) - s[i] * pow2((64 * i) as nat) + v * pow2(
            (64 * i) as nat,
        ),
    decreases s.len(),
{
    let n = (s.len() - 1) as int;
    if i == n {
        assert(s.update(i, v).drop_last() =~= s.drop_last());
    } else {
        lemma_limbs_val_update(s.drop_last(), i, v);
        assert(s.update(i, v).drop_last() =~= s.drop_last().update(i, v));
    }
}

/// The limbs of `mantissa` times two to the power of `shift`, where that fits
/// `N` limbs: the mantissa is moved up within a double limb by the shift's
/// remainder by 64, and its two halves are written to the limb that the shift
/// reaches and to the next one.
pub fn limbs_from_u64_shifted<const N: usize>(mantissa: u64, shift: u32) -> (r: Option<[u64; N]>)
    requires
        N <= 0x1000,
    ensures
        match r {
            Some(v) => limbs_val(v@) == mantissa * pow2(shift as nat) < pow2((64 * N) as nat),
            None => mantissa * pow2(shift as nat) >= pow2((64 * N) as nat),
        },
{
    let mut out: [u64; N] = limbs_zero();
    let first_word: usize = (shift / 64) as usize;
    let second_word: usize = first_word + 1;
    let offset_in_word: u32 = shift % 64;
    let ghost m = mantissa as nat;
    let ghost place = pow2((64 * first_word) as nat);
    let ghost total = pow2((64 * N) as nat);
    proof {
        lemma2_to64();
        lemma_pow2_pos(shift as nat);
        lemma_pow2_pos((64 * N) as nat);
        lemma_pow2_pos((64 * first_word) as nat);
        lemma_pow2_adds(offset_in_word as nat, (64 * first_word) as nat);
        lemma_pow2_adds(64, (64 * first_word) as nat);
        lemma_u64_pow2_no_overflow(offset_in_word as nat);
        lemma_u64_shl_is_mul(1, offset_in_word as u64);
        assert(0 * pow2(shift as nat) == 0) by (nonlinear_arith);
    }
    if mantissa == 0 {
        return Some(out);
    }
    if first_word >= N {
        proof {
            if shift as nat > (64 * N) as nat {
                lemma_pow2_strictly_increases((64 * N) as nat, shift as nat);
            }
            assert(m * pow2(shift as nat) >= pow2(shift as nat)) by (nonlinear_arith)
                requires
                    m >= 1,
            ;
        }
        return None;
    }
    let weight: u64 = 1u64 << offset_in_word;
    assert(weight == pow2(offset_in_word as nat));
    assert((mantissa as u128) * (weight as u128) < 0x1_0000_0000_0000_0000_0000_0000_0000_0000)
        by (nonlinear_arith)
        requires
            mantissa < 0x1_0000_0000_0000_0000,
            weight < 0x1_0000_0000_0000_0000,
    ;
    let mantissa_shifted: u128 = (mantissa as u128) * (weight as u128);
    let low_mantissa_bits: u64 = (mantissa_shifted % 0x1_0000_0000_0000_0000) as u64;
    let high_mantissa_bits: u64 = (mantissa_shifted / 0x1_0000_0000_0000_0000) as u64;
    let ghost zeros = out@;
    proof {
        lemma_limbs_val_zero(zeros);
        lemma_limbs_val_update(zeros, first_word as int, low_mantissa_bits);
        assert(mantissa_shifted == (mantissa as u128) * (weight as u128));
        assert(mantissa_shifted == low_mantissa_bits + high_mantissa_bits * limb_base());
        assert(m * weight == (mantissa as u128) * (weight as u128)) by (nonlinear_arith)
            requires
                m == mantissa,
        ;
        assert(m * pow2(shift as nat) == (low_mantissa_bits + high_mantissa_bits * limb_base())
            * place) by (nonlinear_arith)
            requires
                pow2(shift as nat) == weight * place,
                m * weight == low_mantissa_bits + high_mantissa_bits * limb_base(),
        ;
        assert((low_mantissa_bits + high_mantissa_bits * limb_base()) * place == low_mantissa_bits
            * place + high_mantissa_bits * (limb_base() * place)) by (nonlinear_arith);
        assert(0 * place == 0) by (nonlinear_arith);
    }
    out[first_word] = low_mantissa_bits;
    if second_word < N {
        proof {
            lemma_limbs_val_update(out@, second_word as int, high_mantissa_bits);
            assert(0 * pow2((64 * second_word) as nat) == 0) by (nonlinear_arith);
        }
        out[second_word] = high_mantissa_bits;
    } else if high_mantissa_bits != 0 {
        proof {
            assert(high_mantissa_bits * (limb_base() * place) >= limb_base() * place)
                by (nonlinear_arith)
                requires
                    high_mantissa_bits >= 1,
            ;
        }
        return None;
    } else {
        proof {
            assert(0 * (limb_base() * place) == 0) by (nonlinear_arith);
        }
    }
    proof {
        lemma_limbs_val_bound(out@);
    }
    Some(out)
}


/// The number of bits of a limb: the smallest `k` with the limb below two to
/// the power of `k`.
pub fn limb_bits(limb: u64) -> (r: usize)
    ensures
        r <= 64,
        limb < pow2(r as nat),
        r > 0 ==> pow2((r - 1) as nat) <= limb,
{
    let mut k: usize = 0;
    let mut power: u128 = 1;
    proof {
        lemma2_to64();
    }
    while power <= limb as u128
        invariant
            k <= 64,
            power == pow2(k as nat),
            k > 0 ==> pow2((k - 1) as nat) <= limb,
        decreases 64 - k,
    {
        proof {
            lemma_pow2_unfold((k + 1) as nat);
            if k >= 64 {
                lemma2_to64_rest();
                if k > 64 {
                    lemma_pow2_strictly_increases(64, k as nat);
                }
            }
        }
        power = power * 2;
        k = k + 1;
    }
    k
}

/// The number of bits of a limb array: the smallest `k` with its value below
/// two to the power of `k`.
pub fn limbs_bits<const N: usize>(a: &[u64; N]) -> (r: usize)
    requires
        N <= 0x1000,
    ensures
        r <= 64 * N,
        limbs_val(a@) < pow2(r as nat),
        r > 0 ==> pow2((r - 1) as nat) <= limbs_val(a@),
{
    let mut i: usize = N;
    proof {
        lemma2_to64();
        assert(a@.skip(N as int).len() == 0);
    }
    while i > 0
        invariant
            i <= N,
            N <= 0x1000,
            limbs_val(a@.skip(i as int)) == 0,
        decreases i,
    {
        let limb = a[i - 1];
        if limb != 0 {
            let k = limb_bits(limb);
            proof {
                lemma2_to64();
                let low = limbs_val(a@.take(i - 1));
                let place = pow2((64 * (i - 1)) as nat);
                lemma_limbs_val_split(a@, i as int);
                lemma_limbs_val_step(a@, i - 1);
                lemma_limbs_val_bound(a@.take(i - 1));
                assert(pow2((64 * i) as nat) * 0 == 0) by (nonlinear_arith);
                lemma_pow2_adds(k as nat, (64 * (i - 1)) as nat);
                lemma_pow2_adds((k - 1) as nat, (64 * (i - 1)) as nat);
                assert(low + limb * place < pow2(k as nat) * place) by (nonlinear_arith)
                    requires
                        low < place,
                        limb + 1 <= pow2(k as nat),
                ;
                assert(pow2((k - 1) as nat) * place <= limb * place) by (nonlinear_arith)
                    requires
                        pow2((k - 1) as nat) <= limb,
                ;
            }
            return 64 * (i - 1) + k;
        }
        proof {
            lemma_limbs_val_split(a@.skip(i - 1), 1);
            assert(a@.skip(i - 1).skip(1) =~= a@.skip(i as int));
            assert(a@.skip(i - 1).take(1) =~= seq![limb]);
            lemma_limbs_val_zero(seq![limb]);
            assert(pow2(64) * 0 == 0) by (nonlinear_arith);
        }
        i = i - 1;
    }
    proof {
        assert(a@.skip(0) =~= a@);
    }
    0
}

} // verus!
