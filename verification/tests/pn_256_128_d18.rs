use spl_math_evolved::precise_number::pn_256_128_d18::{Bits256Decimals18, PreciseNumber};
use spl_math_evolved::precise_number::pn_impl::PreciseConfig;
use spl_math_evolved::uint::U256;
use spl_math_evolved::wide_int::WideInt;

type InnerUint = U256;

// returns 10**(-digits) in InnerUint
fn precision(digits: u8) -> InnerUint {
    let ten = InnerUint::from(10u128);
    let mut result = Bits256Decimals18::one();
    for _ in 0..digits {
        result = result.checked_div(ten).unwrap();
    }
    assert!(!result.is_zero(), "precision underflow");
    result
}

#[test]
fn pn_256_128_d18_test_u256_one_constant() {
    let one = U256::from(1_000000_000000_000000u128);
    assert_eq!(Bits256Decimals18::one(), one);
}

#[test]
fn pn_256_128_d18_test_u256_rounding_correction_constant() {
    let rounding = U256::from(1_000000_000000_000000u128)
        .checked_div(U256::from(2u128))
        .unwrap();
    assert_eq!(Bits256Decimals18::rounding_correction(), rounding);
}

#[test]
fn pn_256_128_d18_test_u256_maximum_sqrt_base_constant() {
    assert_eq!(
        Bits256Decimals18::maximum_sqrt_base(),
        U256([18446743073709551616, 18446744073709551615, 999999999999, 0])
    );
}

#[test]
fn pn_256_128_d18_test_u256_precision_constant() {
    assert_eq!(Bits256Decimals18::precision_threshold(), U256::from(100u128)); // 1e-10
}

#[test]
fn test_precision() {
    // 10^-9
    let precision_9 = precision(9);
    assert_eq!(precision_9, InnerUint::from(1000000000u128));
}

#[test]
fn pn_256_128_d18_test_square_root_precision() {
    // number below 1 (with uneven number of bits) 1.23456789e-9
    let number = PreciseNumber::new(123456789)
        .unwrap()
        .checked_div(&(PreciseNumber::new(10u128.pow(17)).unwrap()))
        .unwrap();
    // sqrt is 3.51364182864446216-5
    let expected_sqrt = PreciseNumber::new(351364182864446216)
        .unwrap()
        .checked_div(&(PreciseNumber::new(10u128.pow(22)).unwrap()))
        .unwrap();
    assert!(
        number
            .sqrt()
            .unwrap()
            // precise to first 9 decimals
            .almost_eq(&expected_sqrt, precision(9)),
        "sqrt {:?} not equal to expected {:?}",
        number.sqrt().unwrap(),
        expected_sqrt,
    );

    // exactly max_bits 18446744073709551615e-18 (this is 64 bits of 1, then divided by ONE)
    let number = PreciseNumber::new(18446744073709551615)
        .unwrap()
        .checked_div(&(PreciseNumber::new(10u128.pow(18)).unwrap()))
        .unwrap();
    assert_eq!(number.value.bits(), 64);
    // sqrt is 4.29496729599999999988
    let expected_sqrt = PreciseNumber::new(4294967295999999999)
        .unwrap()
        .checked_div(&(PreciseNumber::new(10u128.pow(18)).unwrap()))
        .unwrap();
    assert!(
        number
            .sqrt()
            .unwrap()
            // precise to first 9 decimals
            .almost_eq(&expected_sqrt, precision(9)),
        "sqrt {:?} not equal to expected {:?}",
        number.sqrt().unwrap(),
        expected_sqrt,
    );

    // 1 exactly
    let number = PreciseNumber::new(1).unwrap();
    // sqrt is 1
    let expected_sqrt = PreciseNumber::new(1).unwrap();
    assert!(
        number
            .sqrt()
            .unwrap()
            // precise to first 12 decimals
            .almost_eq(&expected_sqrt, precision(12)),
        "sqrt {:?} not equal to expected {:?}",
        number.sqrt().unwrap(),
        expected_sqrt,
    );
}
