use spl_math_evolved::precise_number::pn_128_64_d9::PreciseNumber as PreciseNumber128D9;
use spl_math_evolved::precise_number::pn_32_32_d3::PreciseNumber as TestPreciseNumber32;
use spl_math_evolved::precise_number::pn_64_32_d4::PreciseNumber as PreciseNumber64D4;
use spl_math_evolved::precise_number::pn_8_8_d1::PreciseNumber as TestPreciseNumber8;
use spl_math_evolved::precise_number::PreciseNumber;
use spl_math_evolved::uint::U256;
use spl_math_evolved::{PreciseNumber128D9 as RootPreciseNumber128D9, PreciseNumber256D18};

const ONE: u128 = 1_000_000_000_000;

fn pn8(value: u8) -> TestPreciseNumber8 {
    TestPreciseNumber8 { value }
}

fn pn(value: u128) -> PreciseNumber {
    PreciseNumber {
        value: U256::from(value),
    }
}

#[test]
fn new_scales_and_overflows() {
    assert_eq!(TestPreciseNumber8::new(0), Some(pn8(0)));
    assert_eq!(TestPreciseNumber8::new(25), Some(pn8(250)));
    assert_eq!(TestPreciseNumber8::new(26), None);
    assert_eq!(TestPreciseNumber32::new(4294967).unwrap().value, 4294967000);
    assert_eq!(TestPreciseNumber32::new(4294968), None);
    assert_eq!(PreciseNumber64D4::new(u32::MAX).unwrap().value, 42949672950000);
    assert_eq!(PreciseNumber::new(7), Some(pn(7 * ONE)));
    assert_eq!(
        PreciseNumber256D18::new(3).unwrap().value,
        U256::from(3_000_000_000_000_000_000u128)
    );
    assert_eq!(RootPreciseNumber128D9::new(2).unwrap().value, 2_000_000_000);
    assert_eq!(TestPreciseNumber8::one(), pn8(10));
    assert_eq!(TestPreciseNumber8::zero(), pn8(0));
}

#[test]
fn to_imprecise_rounds_half_up() {
    assert_eq!(pn8(14).to_imprecise(), Some(1));
    assert_eq!(pn8(15).to_imprecise(), Some(2));
    assert_eq!(pn8(16).to_imprecise(), Some(2));
    assert_eq!(pn8(24).to_imprecise(), Some(2));
    assert_eq!(pn8(25).to_imprecise(), Some(3));
    assert_eq!(pn8(4).to_imprecise(), Some(0));
    assert_eq!(pn8(5).to_imprecise(), Some(1));
    assert_eq!(pn8(250).to_imprecise(), Some(25));
    // adding half the unit overflows eight bits
    assert_eq!(pn8(251).to_imprecise(), None);
    assert_eq!(pn(ONE / 2 - 1).to_imprecise(), Some(0));
    assert_eq!(pn(ONE / 2).to_imprecise(), Some(1));
    assert_eq!(pn(5 * ONE + ONE / 2).to_imprecise(), Some(6));
    // the whole number does not fit the outer type
    let wide = PreciseNumber::new(u128::MAX)
        .unwrap()
        .checked_add(&pn(ONE / 2))
        .unwrap();
    assert_eq!(wide.to_imprecise(), None);
    let below = PreciseNumber::new(u128::MAX)
        .unwrap()
        .checked_add(&pn(ONE / 2 - 1))
        .unwrap();
    assert_eq!(below.to_imprecise(), Some(u128::MAX));
}

#[test]
fn round_trip_of_whole_numbers() {
    for n in 0..=25u8 {
        assert_eq!(TestPreciseNumber8::new(n).unwrap().to_imprecise(), Some(n));
    }
    for n in [0u128, 1, 2, 999, 1 << 64, u128::MAX - 1, u128::MAX] {
        assert_eq!(PreciseNumber::new(n).unwrap().to_imprecise(), Some(n));
        assert_eq!(PreciseNumber256D18::new(n).unwrap().to_imprecise(), Some(n));
    }
    for n in [0u64, 1, 77, u64::MAX] {
        assert_eq!(PreciseNumber128D9::new(n).unwrap().to_imprecise(), Some(n));
    }
    for n in [0u32, 1, 77, u32::MAX] {
        assert_eq!(PreciseNumber64D4::new(n).unwrap().to_imprecise(), Some(n));
    }
    // with 32 bits and three decimals the largest whole number that can be
    // scaled cannot be rounded: half the unit no longer fits on top of it
    let largest = TestPreciseNumber32::new(4294967).unwrap();
    assert_eq!(largest.to_imprecise(), None);
    assert_eq!(
        TestPreciseNumber32::new(4294966).unwrap().to_imprecise(),
        Some(4294966)
    );
}

#[test]
fn add_sub_and_unsigned_sub() {
    assert_eq!(pn8(200).checked_add(&pn8(55)), Some(pn8(255)));
    assert_eq!(pn8(200).checked_add(&pn8(56)), None);
    assert_eq!(pn8(200).checked_sub(&pn8(56)), Some(pn8(144)));
    assert_eq!(pn8(55).checked_sub(&pn8(56)), None);
    assert_eq!(pn8(55).checked_sub(&pn8(55)), Some(pn8(0)));
    assert_eq!(pn8(55).unsigned_sub(&pn8(56)), (pn8(1), true));
    assert_eq!(pn8(56).unsigned_sub(&pn8(55)), (pn8(1), false));
    assert_eq!(pn8(56).unsigned_sub(&pn8(56)), (pn8(0), false));
    assert_eq!(pn8(0).unsigned_sub(&pn8(255)), (pn8(255), true));
    assert_eq!(pn(3).unsigned_sub(&pn(ONE)), (pn(ONE - 3), true));
}

#[test]
fn comparisons_and_almost_eq() {
    assert!(pn8(3).less_than(&pn8(4)));
    assert!(!pn8(4).less_than(&pn8(4)));
    assert!(pn8(5).greater_than(&pn8(4)));
    assert!(!pn8(4).greater_than(&pn8(4)));
    assert!(pn8(4).less_than_or_equal(&pn8(4)));
    assert!(!pn8(5).less_than_or_equal(&pn8(4)));
    assert!(pn8(4).greater_than_or_equal(&pn8(4)));
    assert!(!pn8(3).greater_than_or_equal(&pn8(4)));
    assert!(pn8(100).almost_eq(&pn8(102), 3));
    assert!(pn8(102).almost_eq(&pn8(100), 3));
    assert!(!pn8(100).almost_eq(&pn8(103), 3));
    assert!(!pn8(103).almost_eq(&pn8(100), 3));
    assert!(!pn8(100).almost_eq(&pn8(100), 0));
    assert!(pn8(100).almost_eq(&pn8(100), 1));
}

#[test]
fn floor_and_ceiling() {
    assert_eq!(pn8(0).floor(), Some(pn8(0)));
    assert_eq!(pn8(19).floor(), Some(pn8(10)));
    assert_eq!(pn8(20).floor(), Some(pn8(20)));
    assert_eq!(pn8(255).floor(), Some(pn8(250)));
    assert_eq!(pn8(0).ceiling(), Some(pn8(0)));
    assert_eq!(pn8(11).ceiling(), Some(pn8(20)));
    assert_eq!(pn8(20).ceiling(), Some(pn8(20)));
    assert_eq!(pn8(246).ceiling(), Some(pn8(250)));
    assert_eq!(pn8(247).ceiling(), None);
    let max = PreciseNumber {
        value: U256::max_value(),
    };
    assert_eq!(max.ceiling(), None);
    assert!(max.floor().is_some());
    assert_eq!(pn(2 * ONE + 1).ceiling(), Some(pn(3 * ONE)));
    assert_eq!(pn(2 * ONE + 1).floor(), Some(pn(2 * ONE)));
}

#[test]
fn checked_mul_rounds_and_falls_back() {
    // 1.5 * 1.5 = 2.25 -> 2.3 with the half rounded up
    assert_eq!(pn8(15).checked_mul(&pn8(15)), Some(pn8(23)));
    // 25 * 25 leaves eight bits: 2.5 is descaled to 2, and 2 * 25 = 50
    assert_eq!(pn8(25).checked_mul(&pn8(25)), Some(pn8(50)));
    assert_eq!(pn8(12).checked_mul(&pn8(13)), Some(pn8(16)));
    // the product 255 * 10 leaves eight bits: 25 * 10 with the larger factor descaled
    assert_eq!(pn8(255).checked_mul(&pn8(10)), Some(pn8(250)));
    assert_eq!(pn8(10).checked_mul(&pn8(255)), Some(pn8(250)));
    assert_eq!(pn8(50).checked_mul(&pn8(51)), Some(pn8(250)));
    assert_eq!(pn8(255).checked_mul(&pn8(11)), None);
    assert_eq!(pn8(100).checked_mul(&pn8(30)), None);
    assert_eq!(
        pn(ONE + 1).checked_mul(&pn(ONE + 1)),
        Some(pn(1_000_000_000_002))
    );
    assert_eq!(
        pn(1_500_000_000_000).checked_mul(&pn(2_500_000_000_000)),
        Some(pn(3_750_000_000_000))
    );
    assert_eq!(pn(3).checked_mul(&pn(ONE / 2)), Some(pn(2)));
    assert_eq!(pn(1).checked_mul(&pn(ONE / 2)), Some(pn(1)));
    assert_eq!(pn(1).checked_mul(&pn(ONE / 2 - 1)), Some(pn(0)));
}

#[test]
fn checked_div_rounds_and_falls_back() {
    assert_eq!(pn8(25).checked_div(&pn8(0)), None);
    // 250 + 5 fits eight bits, 251 + 5 does not
    assert_eq!(pn8(25).checked_div(&pn8(20)), Some(pn8(12)));
    assert_eq!(pn8(24).checked_div(&pn8(10)), Some(pn8(24)));
    assert_eq!(pn8(25).checked_div(&pn8(3)), Some(pn8(85)));
    assert_eq!(pn8(20).checked_div(&pn8(30)), Some(pn8(6)));
    // scaling the dividend overflows: (250 + 5) / 20 = 12, then 12 * 10
    assert_eq!(pn8(250).checked_div(&pn8(20)), Some(pn8(120)));
    assert_eq!(pn8(110).checked_div(&pn8(20)), Some(pn8(50)));
    assert_eq!(pn8(255).checked_div(&pn8(10)), None);
    assert_eq!(pn8(251).checked_div(&pn8(1)), None);
    assert_eq!(pn(ONE).checked_div(&pn(3 * ONE)), Some(pn(333_333_333_333)));
    assert_eq!(
        pn(2 * ONE).checked_div(&pn(3 * ONE)),
        Some(pn(666_666_666_666))
    );
    assert_eq!(pn(1).checked_div(&pn(3)), Some(pn(500_000_000_000)));
}

#[test]
fn checked_pow_squares_and_multiplies() {
    let expected: [Option<u8>; 6] = [Some(10), Some(20), Some(40), Some(80), Some(160), None];
    for (exponent, value) in expected.iter().enumerate() {
        assert_eq!(
            pn8(20).checked_pow(exponent as u32).map(|r| r.value),
            *value
        );
    }
    assert_eq!(pn8(15).checked_pow(2), Some(pn8(23)));
    assert_eq!(pn8(11).checked_pow(7), Some(pn8(18)));
    assert_eq!(pn8(30).checked_pow(3), None);
    assert_eq!(pn(2 * ONE).checked_pow(10), Some(pn(1024 * ONE)));
    assert_eq!(pn(ONE + ONE / 2).checked_pow(3), Some(pn(3_375_000_000_000)));
    assert_eq!(pn(ONE / 2).checked_pow(5), Some(pn(31_250_000_000)));
    assert_eq!(pn(0).checked_pow(0), Some(pn(ONE)));
    assert_eq!(pn(0).checked_pow(3), Some(pn(0)));
    assert_eq!(pn(7 * ONE).checked_pow(1), Some(pn(7 * ONE)));
    assert_eq!(pn(10 * ONE).checked_pow(70), None);
}
