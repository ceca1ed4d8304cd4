//! The 256-bit and 512-bit unsigned integers, as little-endian arrays of
//! 64-bit limbs.

use crate::limbs::{
    lemma_limbs_val_bound, lemma_limbs_val_split, lemma_limbs_val_step, lemma_limbs_val_zero,
    limbs_add, limbs_bits, limbs_div_rem, limbs_from_u64_shifted, limbs_is_zero, limbs_mul, limbs_shr1, limbs_sub,
    limbs_val,
    limbs_zero,
};
use crate::wide_int::{WideInt, Widen};
use vstd::arithmetic::power2::{lemma2_to64, lemma2_to64_rest, lemma_pow2_adds, lemma_pow2_pos, pow2};
use vstd::prelude::*;
use vstd::std_specs::convert::{FromSpecImpl, TryFromSpecImpl};

verus! {

/// A 256-bit unsigned integer: four limbs, the lowest first.
#[derive(Clone, Copy, Debug, PartialEq, Eq, Hash)]
pub struct U256(pub [u64; 4]);

/// A 512-bit unsigned integer: eight limbs, the lowest first.
#[derive(Clone, Copy, Debug, PartialEq, Eq, Hash)]
pub struct U512(pub [u64; 8]);

impl View for U256 {
    type V = nat;

    /// The natural number that the limbs stand for.
    open spec fn view(&self) -> nat {
        limbs_val(self.0@)
    }
}

impl View for U512 {
    type V = nat;

    /// The natural number that the limbs stand for.
    open spec fn view(&self) -> nat {
        limbs_val(self.0@)
    }
}

/// Two to the power of 128.
pub open spec fn two_128() -> nat {
    0x1_0000_0000_0000_0000_0000_0000_0000_0000nat
}

/// Two to the power of 256.
pub open spec fn two_256() -> nat {
    0x1_0000_0000_0000_0000_0000_0000_0000_0000_0000_0000_0000_0000_0000_0000_0000_0000nat
}

/// The powers of two at the limb boundaries of a 256-bit integer.
pub proof fn lemma_pow2_limbs()
    ensures
        pow2(0) == 1,
        pow2(64) == 0x1_0000_0000_0000_0000,
        pow2(128) == two_128(),
        pow2(192) == 0x1_0000_0000_0000_0000_0000_0000_0000_0000_0000_0000_0000_0000nat,
        pow2(256) == two_256(),
        pow2(512) == two_256() * two_256(),
{
    lemma2_to64();
    lemma2_to64_rest();
    lemma_pow2_adds(64, 64);
    lemma_pow2_adds(128, 64);
    lemma_pow2_adds(128, 128);
    lemma_pow2_adds(256, 256);
    assert(two_128() * two_128() == two_256()) by (nonlinear_arith);
}

/// The value of four limbs, place by place.
pub proof fn lemma_limbs_val_4(s: Seq<u64>)
    requires
        s.len() == 4,
    ensures
        limbs_val(s) == s[0] + s[1] * pow2(64) + s[2] * pow2(128) + s[3] * pow2(192),
        s[2] == 0 && s[3] == 0 ==> limbs_val(s) == s[0] + s[1] * 0x1_0000_0000_0000_0000,
{
    lemma_limbs_val_step(s, 0);
    lemma_limbs_val_step(s, 1);
    lemma_limbs_val_step(s, 2);
    lemma_limbs_val_step(s, 3);
    assert(s.take(4) =~= s);
    assert(limbs_val(s.take(0)) == 0);
    lemma2_to64();
    assert(s[0] as nat * 1 == s[0]) by (nonlinear_arith);
    assert(s[2] == 0 ==> s[2] * pow2(128) == 0) by (nonlinear_arith);
    assert(s[3] == 0 ==> s[3] * pow2(192) == 0) by (nonlinear_arith);
}

impl U256 {
    /// The largest value, two to the power of 256 less one.
    pub fn max_value() -> (r: Self)
        ensures
            r@ == pow2(256) - 1,
    {
        let r = U256(
            [0xffff_ffff_ffff_ffff, 0xffff_ffff_ffff_ffff, 0xffff_ffff_ffff_ffff, 0xffff_ffff_ffff_ffff],
        );
        proof {
            lemma_limbs_val_4(r.0@);
            lemma_pow2_limbs();
        }
        r
    }

    /// Whether the value is zero.
    pub fn is_zero(&self) -> (r: bool)
        ensures
            r == (self@ == 0),
    {
        limbs_is_zero(&self.0)
    }

    /// The number of bits of the value: the smallest `k` with the value below
    /// two to the power of `k`.
    pub fn bits(&self) -> (r: usize)
        ensures
            r <= 256,
            self@ < pow2(r as nat),
            r > 0 ==> pow2((r - 1) as nat) <= self@,
    {
        limbs_bits(&self.0)
    }

    /// The value as a `u128`.
    pub fn as_u128(&self) -> (r: u128)
        requires
            self@ <= u128::MAX,
        ensures
            r == self@,
    {
        proof {
            lemma_limbs_val_4(self.0@);
            lemma_pow2_limbs();
            let (s2, s3) = (self.0@[2] as nat, self.0@[3] as nat);
            assert(s2 > 0 ==> s2 * pow2(128) >= pow2(128)) by (nonlinear_arith);
            assert(s3 > 0 ==> s3 * pow2(192) >= pow2(192)) by (nonlinear_arith);
        }
        let low: u128 = self.0[0] as u128;
        let high: u128 = self.0[1] as u128;
        low + high * 0x1_0000_0000_0000_0000
    }
}

impl From<u128> for U256 {
    fn from(value: u128) -> (r: Self)
        ensures
            r@ == value,
    {
        let low: u64 = (value % 0x1_0000_0000_0000_0000) as u64;
        let high: u64 = (value / 0x1_0000_0000_0000_0000) as u64;
        let r = U256([low, high, 0, 0]);
        proof {
            lemma_limbs_val_4(r.0@);
            lemma_pow2_limbs();
        }
        r
    }
}

impl FromSpecImpl<u128> for U256 {
    open spec fn obeys_from_spec() -> bool {
        true
    }

    open spec fn from_spec(v: u128) -> Self {
        U256([(v % 0x1_0000_0000_0000_0000) as u64, (v / 0x1_0000_0000_0000_0000) as u64, 0, 0])
    }
}


/// The value of eight limbs whose high four are zero is that of the low four;
/// with a high limb that is not zero it reaches two to the power of 256.
pub proof fn lemma_limbs_val_8(s: Seq<u64>)
    requires
        s.len() == 8,
    ensures
        s[4] == 0 && s[5] == 0 && s[6] == 0 && s[7] == 0 ==> limbs_val(s) == limbs_val(s.take(4)),
        !(s[4] == 0 && s[5] == 0 && s[6] == 0 && s[7] == 0) ==> limbs_val(s) >= pow2(256),
{
    lemma_limbs_val_split(s, 4);
    lemma_limbs_val_zero(s.skip(4));
    let high = limbs_val(s.skip(4));
    let p = pow2(256);
    if s[4] == 0 && s[5] == 0 && s[6] == 0 && s[7] == 0 {
        assert(p * high == 0) by (nonlinear_arith)
            requires
                high == 0,
        ;
    } else {
        assert(s.skip(4)[0] == s[4]);
        assert(s.skip(4)[1] == s[5]);
        assert(s.skip(4)[2] == s[6]);
        assert(s.skip(4)[3] == s[7]);
        assert(p * high >= p) by (nonlinear_arith)
            requires
                high >= 1,
        ;
    }
}

impl U512 {
    /// The largest value, two to the power of 512 less one.
    pub fn max_value() -> (r: Self)
        ensures
            r@ == pow2(512) - 1,
    {
        let m: u64 = 0xffff_ffff_ffff_ffff;
        let r = U512([m, m, m, m, m, m, m, m]);
        proof {
            lemma_limbs_val_split(r.0@, 4);
            lemma_limbs_val_4(r.0@.take(4));
            lemma_limbs_val_4(r.0@.skip(4));
            lemma_pow2_limbs();
            let low = limbs_val(r.0@.take(4));
            let high = limbs_val(r.0@.skip(4));
            assert(low == two_256() - 1);
            assert(high == two_256() - 1);
            assert(low + two_256() * high == two_256() * two_256() - 1) by (nonlinear_arith)
                requires
                    low == two_256() - 1,
                    high == two_256() - 1,
            ;
        }
        r
    }

    /// Whether the value is zero.
    pub fn is_zero(&self) -> (r: bool)
        ensures
            r == (self@ == 0),
    {
        limbs_is_zero(&self.0)
    }

    /// The number of bits of the value: the smallest `k` with the value below
    /// two to the power of `k`.
    pub fn bits(&self) -> (r: usize)
        ensures
            r <= 512,
            self@ < pow2(r as nat),
            r > 0 ==> pow2((r - 1) as nat) <= self@,
    {
        limbs_bits(&self.0)
    }
}

impl From<u128> for U512 {
    fn from(value: u128) -> (r: Self)
        ensures
            r@ == value,
    {
        let low: u64 = (value % 0x1_0000_0000_0000_0000) as u64;
        let high: u64 = (value / 0x1_0000_0000_0000_0000) as u64;
        let r = U512([low, high, 0, 0, 0, 0, 0, 0]);
        proof {
            lemma_limbs_val_8(r.0@);
            lemma_limbs_val_4(r.0@.take(4));
            lemma_pow2_limbs();
        }
        r
    }
}

impl FromSpecImpl<u128> for U512 {
    open spec fn obeys_from_spec() -> bool {
        true
    }

    open spec fn from_spec(v: u128) -> Self {
        U512(
            [
                (v % 0x1_0000_0000_0000_0000) as u64,
                (v / 0x1_0000_0000_0000_0000) as u64,
                0,
                0,
                0,
                0,
                0,
                0,
            ],
        )
    }
}

impl From<U256> for U512 {
    /// The same number in twice the width.
    fn from(value: U256) -> (r: Self)
        ensures
            r@ == value@,
    {
        let r = U512(
            [value.0[0], value.0[1], value.0[2], value.0[3], 0, 0, 0, 0],
        );
        proof {
            lemma_limbs_val_8(r.0@);
            assert(r.0@.take(4) =~= value.0@);
        }
        r
    }
}

impl FromSpecImpl<U256> for U512 {
    open spec fn obeys_from_spec() -> bool {
        true
    }

    open spec fn from_spec(v: U256) -> Self {
        U512([v.0[0], v.0[1], v.0[2], v.0[3], 0, 0, 0, 0])
    }
}

impl TryFrom<U512> for U256 {
    type Error = ();

    /// The same number in half the width, where it fits.
    fn try_from(value: U512) -> (r: Result<Self, ()>)
        ensures
            match r {
                Ok(v) => v@ == value@ && value@ < pow2(256),
                Err(_) => value@ >= pow2(256),
            },
    {
        proof {
            lemma_limbs_val_8(value.0@);
        }
        if value.0[4] != 0 || value.0[5] != 0 || value.0[6] != 0 || value.0[7] != 0 {
            return Err(());
        }
        let r = U256([value.0[0], value.0[1], value.0[2], value.0[3]]);
        proof {
            assert(value.0@.take(4) =~= r.0@);
            lemma_limbs_val_bound(r.0@);
        }
        Ok(r)
    }
}

impl TryFromSpecImpl<U512> for U256 {
    open spec fn obeys_try_from_spec() -> bool {
        true
    }

    open spec fn try_from_spec(v: U512) -> Result<Self, ()> {
        if v.0[4] != 0 || v.0[5] != 0 || v.0[6] != 0 || v.0[7] != 0 {
            Err(())
        } else {
            Ok(U256([v.0[0], v.0[1], v.0[2], v.0[3]]))
        }
    }
}

impl WideInt for U256 {
    open spec fn bits() -> nat {
        256
    }

    open spec fn limit() -> nat {
        pow2(256)
    }

    open spec fn as_nat(self) -> nat {
        self@
    }

    proof fn lemma_limit() {
        lemma_pow2_limbs();
    }

    proof fn lemma_as_nat_bound(self) {
        lemma_limbs_val_bound(self.0@);
    }

    fn num_bits() -> (r: u32) {
        256
    }

    fn zero() -> (r: Self) {
        U256(limbs_zero())
    }

    fn from_u128(x: u128) -> (r: Option<Self>) {
        let r = U256::from(x);
        proof {
            lemma_pow2_limbs();
            assert(two_256() * two_256() >= two_256()) by (nonlinear_arith);
            lemma_limbs_val_4(r.0@);
        }
        Some(r)
    }

    fn to_u128(self) -> (r: Option<u128>) {
        proof {
            lemma_limbs_val_4(self.0@);
            lemma_pow2_limbs();
            let (s2, s3) = (self.0@[2] as nat, self.0@[3] as nat);
            assert(s2 > 0 ==> s2 * pow2(128) >= pow2(128)) by (nonlinear_arith);
            assert(s3 > 0 ==> s3 * pow2(192) >= pow2(192)) by (nonlinear_arith);
        }
        if self.0[2] != 0 || self.0[3] != 0 {
            None
        } else {
            let low: u128 = self.0[0] as u128;
            let high: u128 = self.0[1] as u128;
            Some(low + high * 0x1_0000_0000_0000_0000)
        }
    }

    fn checked_add(self, rhs: Self) -> (r: Option<Self>) {
        let (sum, carry) = limbs_add(&self.0, &rhs.0, false);
        proof {
            lemma_limbs_val_bound(sum@);
        }
        if carry {
            None
        } else {
            Some(U256(sum))
        }
    }

    fn checked_sub(self, rhs: Self) -> (r: Option<Self>) {
        let (difference, borrow) = limbs_sub(&self.0, &rhs.0);
        if borrow {
            None
        } else {
            Some(U256(difference))
        }
    }

    fn checked_mul(self, rhs: Self) -> (r: Option<Self>) {
        match limbs_mul(&self.0, &rhs.0) {
            Some(product) => Some(U256(product)),
            None => None,
        }
    }

    fn checked_div(self, rhs: Self) -> (r: Option<Self>) {
        if limbs_is_zero(&rhs.0) {
            None
        } else {
            let (quotient, _) = limbs_div_rem(&self.0, &rhs.0);
            Some(U256(quotient))
        }
    }

    fn less_than(self, rhs: Self) -> (r: bool) {
        let (_, borrow) = limbs_sub(&self.0, &rhs.0);
        borrow
    }

    fn equals(self, rhs: Self) -> (r: bool) {
        let (difference, borrow) = limbs_sub(&self.0, &rhs.0);
        proof {
            lemma_limbs_val_bound(difference@);
        }
        !borrow && limbs_is_zero(&difference)
    }

    fn half(self) -> (r: Self) {
        U256(limbs_shr1(&self.0))
    }

    fn from_u64_shifted(mantissa: u64, shift: u32) -> (r: Option<Self>) {
        match limbs_from_u64_shifted(mantissa, shift) {
            Some(limbs) => Some(U256(limbs)),
            None => None,
        }
    }
}

impl WideInt for U512 {
    open spec fn bits() -> nat {
        512
    }

    open spec fn limit() -> nat {
        pow2(512)
    }

    open spec fn as_nat(self) -> nat {
        self@
    }

    proof fn lemma_limit() {
        lemma_pow2_limbs();
        assert(two_256() * two_256() >= 256) by (nonlinear_arith);
    }

    proof fn lemma_as_nat_bound(self) {
        lemma_limbs_val_bound(self.0@);
    }

    fn num_bits() -> (r: u32) {
        512
    }

    fn zero() -> (r: Self) {
        U512(limbs_zero())
    }

    fn from_u128(x: u128) -> (r: Option<Self>) {
        let r = U512::from(x);
        proof {
            lemma_pow2_limbs();
            assert(two_256() * two_256() >= two_256()) by (nonlinear_arith);
            lemma_limbs_val_8(r.0@);
            lemma_limbs_val_4(r.0@.take(4));
        }
        Some(r)
    }

    fn to_u128(self) -> (r: Option<u128>) {
        proof {
            lemma_limbs_val_8(self.0@);
            lemma_limbs_val_4(self.0@.take(4));
            lemma_pow2_limbs();
            let (s2, s3) = (self.0@[2] as nat, self.0@[3] as nat);
            assert(s2 > 0 ==> s2 * pow2(128) >= pow2(128)) by (nonlinear_arith);
            assert(s3 > 0 ==> s3 * pow2(192) >= pow2(192)) by (nonlinear_arith);
        }
        if self.0[2] != 0 || self.0[3] != 0 || self.0[4] != 0 || self.0[5] != 0 || self.0[6] != 0
            || self.0[7] != 0 {
            None
        } else {
            let low: u128 = self.0[0] as u128;
            let high: u128 = self.0[1] as u128;
            Some(low + high * 0x1_0000_0000_0000_0000)
        }
    }

    fn checked_add(self, rhs: Self) -> (r: Option<Self>) {
        let (sum, carry) = limbs_add(&self.0, &rhs.0, false);
        proof {
            lemma_limbs_val_bound(sum@);
        }
        if carry {
            None
        } else {
            Some(U512(sum))
        }
    }

    fn checked_sub(self, rhs: Self) -> (r: Option<Self>) {
        let (difference, borrow) = limbs_sub(&self.0, &rhs.0);
        if borrow {
            None
        } else {
            Some(U512(difference))
        }
    }

    fn checked_mul(self, rhs: Self) -> (r: Option<Self>) {
        match limbs_mul(&self.0, &rhs.0) {
            Some(product) => Some(U512(product)),
            None => None,
        }
    }

    fn checked_div(self, rhs: Self) -> (r: Option<Self>) {
        if limbs_is_zero(&rhs.0) {
            None
        } else {
            let (quotient, _) = limbs_div_rem(&self.0, &rhs.0);
            Some(U512(quotient))
        }
    }

    fn less_than(self, rhs: Self) -> (r: bool) {
        let (_, borrow) = limbs_sub(&self.0, &rhs.0);
        borrow
    }

    fn equals(self, rhs: Self) -> (r: bool) {
        let (difference, borrow) = limbs_sub(&self.0, &rhs.0);
        proof {
            lemma_limbs_val_bound(difference@);
        }
        !borrow && limbs_is_zero(&difference)
    }

    fn half(self) -> (r: Self) {
        U512(limbs_shr1(&self.0))
    }

    fn from_u64_shifted(mantissa: u64, shift: u32) -> (r: Option<Self>) {
        match limbs_from_u64_shifted(mantissa, shift) {
            Some(limbs) => Some(U512(limbs)),
            None => None,
        }
    }
}

impl Widen for u128 {
    type Double = U256;

    proof fn lemma_double() {
        lemma_pow2_limbs();
        assert(two_128() * two_128() == two_256()) by (nonlinear_arith);
    }

    fn widen(self) -> (r: U256) {
        let r = U256::from(self);
        proof {
            lemma_limbs_val_4(r.0@);
            lemma_pow2_limbs();
        }
        r
    }

    fn narrow(wide: U256) -> (r: Option<u128>) {
        wide.to_u128()
    }
}

impl Widen for U256 {
    type Double = U512;

    proof fn lemma_double() {
        lemma_pow2_adds(256, 256);
    }

    fn widen(self) -> (r: U512) {
        let r = U512::from(self);
        proof {
            lemma_limbs_val_8(r.0@);
            assert(r.0@.take(4) =~= self.0@);
        }
        r
    }

    fn narrow(wide: U512) -> (r: Option<U256>) {
        proof {
            lemma_limbs_val_8(wide.0@);
        }
        match U256::try_from(wide) {
            Ok(v) => {
                proof {
                    assert(wide.0@.take(4) =~= v.0@);
                    lemma_limbs_val_bound(v.0@);
                }
                Some(v)
            },
            Err(_) => None,
        }
    }
}

} // verus!
