use spl_math_evolved::precise_number::pn_32_32_d3::PreciseNumber as TestPreciseNumber32;
use spl_math_evolved::precise_number::pn_8_8_d1::PreciseNumber as TestPreciseNumber8;
use spl_math_evolved::precise_number::pn_256_128_d12::Bits256Decimals12;
use spl_math_evolved::precise_number::pn_impl::PreciseConfig;
use spl_math_evolved::precise_number::pn_sqrt::MAX_APPROXIMATION_ITERATIONS;
use spl_math_evolved::precise_number::PreciseNumber;
use spl_math_evolved::uint::U256;
use spl_math_evolved::wide_int::WideInt;

#[test]
fn precise_number_test_u256_one_constant() {
    let one = U256::from(1_000_000_000_000u128);
    assert_eq!(Bits256Decimals12::one(), one);
}

#[test]
fn precise_number_test_u256_rounding_correction_constant() {
    let rounding = U256::from(1_000_000_000_000u128)
        .checked_div(U256::from(2u128))
        .unwrap();
    assert_eq!(Bits256Decimals12::rounding_correction(), rounding);
}

#[test]
fn precise_number_test_u256_maximum_sqrt_base_constant() {
    assert_eq!(
        Bits256Decimals12::maximum_sqrt_base(),
        PreciseNumber::new(u128::MAX).unwrap().value
    );
}

type InnerUint = U256;

const ONE: u128 = 1_000_000_000_000;

fn inner(value: u128) -> InnerUint {
    InnerUint::from(value)
}

fn precise_number_check_pow_approximation(base: InnerUint, exponent: InnerUint, expected: InnerUint) {
    let precision = inner(5_000_000); // correct to at least 3 decimal places
    let base = PreciseNumber { value: base };
    let exponent = PreciseNumber { value: exponent };
    let root = base
        .checked_pow_approximation(&exponent, MAX_APPROXIMATION_ITERATIONS)
        .unwrap();
    let expected = PreciseNumber { value: expected };
    assert!(root.almost_eq(&expected, precision));
}

#[test]
fn precise_number_test_max_number_to_u128() {
    let a = PreciseNumber::new(3.4e32 as u128).unwrap();
    let b = PreciseNumber::new(3.4e32 as u128).unwrap();
    // max 3,4028236692×10³²

    a.checked_mul(&b).unwrap();
}

#[test]
fn precise_number_test_max_int_val() {
    // 2^32 / 1000 // 4294967296 / 1000 = 4294967.296
    assert!(TestPreciseNumber32::new(4294967).is_some());
    assert!(TestPreciseNumber32::new(4294967 + 1).is_none());
}

#[test]
fn precise_number_test_to_imprecise_rounding() {
    fn calc(a: u8, b: u8) -> u8 {
        let a = TestPreciseNumber8::new(a).unwrap();
        let b = TestPreciseNumber8::new(b).unwrap();
        let c = a.checked_div(&b).unwrap();
        c.to_imprecise().unwrap()
    }

    // rounding mode HALF_DOWN
    assert_eq!(calc(11, 2), 5);
    assert_eq!(calc(5, 2), 2);
    assert_eq!(calc(4, 3), 1);
}

#[test]
fn precise_number_test_root_approximation() {
    let one = ONE;
    // square root
    precise_number_check_pow_approximation(inner(one / 4), inner(one / 2), inner(one / 2)); // 1/2
    precise_number_check_pow_approximation(
        inner(one * 11 / 10),
        inner(one / 2),
        inner(1_048808848161u128),
    ); // 1.048808848161

    // 5th root
    precise_number_check_pow_approximation(
        inner(one * 4 / 5),
        inner(one * 2 / 5),
        inner(914610103850u128),
    );
    // 0.91461010385

    // 10th root
    precise_number_check_pow_approximation(inner(one / 2), inner(one * 4 / 50), inner(946057646730u128));
    // 0.94605764673
}

fn precise_number_check_pow_fraction(
    base: InnerUint,
    exponent: InnerUint,
    expected: InnerUint,
    precision: InnerUint,
) {
    let base = PreciseNumber { value: base };
    let exponent = PreciseNumber { value: exponent };
    let power = base.checked_pow_fraction(&exponent).unwrap();
    let expected = PreciseNumber { value: expected };
    assert!(power.almost_eq(&expected, precision));
}

#[test]
fn precise_number_test_pow_fraction() {
    let one = ONE;
    let precision = inner(50_000_000); // correct to at least 3 decimal places
    let less_precision = inner(50_000_000 * 1_000); // correct to at least 1 decimal place
    precise_number_check_pow_fraction(inner(one), inner(one), inner(one), precision);
    precise_number_check_pow_fraction(
        inner(one * 20 / 13),
        inner(one * 50 / 3),
        inner(1312_534484739100u128),
        precision,
    ); // 1312.5344847391
    precise_number_check_pow_fraction(inner(one * 2 / 7), inner(one * 49 / 4), inner(2163), precision);
    precise_number_check_pow_fraction(
        inner(one * 5000 / 5100),
        inner(one / 9),
        inner(997802126900u128),
        precision,
    ); // 0.99780212695
       // results get less accurate as the base gets further from 1, so allow
       // for a greater margin of error
    precise_number_check_pow_fraction(
        inner(one * 2),
        inner(one * 27 / 5),
        inner(42_224253144700u128),
        less_precision,
    ); // 42.2242531447
    precise_number_check_pow_fraction(
        inner(one * 18 / 10),
        inner(one * 11 / 3),
        inner(8_629769290500u128),
        less_precision,
    ); // 8.629769290
}

#[test]
fn precise_number_test_newtonian_approximation() {
    let test = PreciseNumber::new(0).unwrap();
    let nth_root = PreciseNumber::new(0).unwrap();
    let guess = test.checked_div(&nth_root);
    assert_eq!(guess, Option::None);

    // square root
    let test = PreciseNumber::new(9).unwrap();
    let nth_root = PreciseNumber::new(2).unwrap();
    let guess = test.checked_div(&nth_root).unwrap();
    let root = test
        .newtonian_root_approximation(&nth_root, guess, MAX_APPROXIMATION_ITERATIONS)
        .unwrap()
        .to_imprecise()
        .unwrap();
    assert_eq!(root, 3); // actually 3

    let test = PreciseNumber::new(101).unwrap();
    let nth_root = PreciseNumber::new(2).unwrap();
    let guess = test.checked_div(&nth_root).unwrap();
    let root = test
        .newtonian_root_approximation(&nth_root, guess, MAX_APPROXIMATION_ITERATIONS)
        .unwrap()
        .to_imprecise()
        .unwrap();
    assert_eq!(root, 10); // actually 10.049875

    let test = PreciseNumber::new(1_000_000_000).unwrap();
    let nth_root = PreciseNumber::new(2).unwrap();
    let guess = test.checked_div(&nth_root).unwrap();
    let root = test
        .newtonian_root_approximation(&nth_root, guess, MAX_APPROXIMATION_ITERATIONS)
        .unwrap()
        .to_imprecise()
        .unwrap();
    assert_eq!(root, 31_623); // actually 31622.7766

    // 5th root
    let test = PreciseNumber::new(500).unwrap();
    let nth_root = PreciseNumber::new(5).unwrap();
    let guess = test.checked_div(&nth_root).unwrap();
    let root = test
        .newtonian_root_approximation(&nth_root, guess, MAX_APPROXIMATION_ITERATIONS)
        .unwrap()
        .to_imprecise()
        .unwrap();
    assert_eq!(root, 3); // actually 3.46572422
}

#[test]
fn precise_number_test_checked_div() {
    let one_tenth = PreciseNumber::new(1)
        .unwrap()
        .checked_div(&PreciseNumber::new(10).unwrap())
        .unwrap();
    let two = PreciseNumber::new(2).unwrap();
    let c = one_tenth.checked_div(&one_tenth).unwrap();
    let e = PreciseNumber::new(1).unwrap().checked_div(&c).unwrap();
    let d = c.checked_mul(&two).unwrap();
    assert_eq!(e.to_imprecise().unwrap(), 1);
    assert_eq!(d.to_imprecise().unwrap(), 2);
}

#[test]
fn precise_number_test_checked_mul() {
    let number_one = PreciseNumber::new(0).unwrap();
    let number_two = PreciseNumber::new(0).unwrap();
    let result = number_one.checked_mul(&number_two);
    assert_eq!(
        result,
        Option::Some(PreciseNumber {
            value: U256::from(0u128)
        })
    );

    let number_one = PreciseNumber::new(2).unwrap();
    let number_two = PreciseNumber::new(2).unwrap();
    let result = number_one.checked_mul(&number_two).unwrap();
    assert_eq!(result, PreciseNumber::new(2 * 2).unwrap());

    let number_one = PreciseNumber {
        value: U256::max_value(),
    };
    let number_two = PreciseNumber::new(1).unwrap();
    let result = number_one.checked_mul(&number_two).unwrap();
    assert_eq!(
        result.value,
        U256::max_value()
            .checked_div(inner(ONE))
            .unwrap()
            .checked_mul(inner(ONE))
            .unwrap()
    );

    let number_one = PreciseNumber {
        value: U256::max_value(),
    };
    let mut number_two = PreciseNumber::new(1).unwrap();
    number_two.value = number_two.value.checked_add(U256::from(1u128)).unwrap();
    let result = number_one.checked_mul(&number_two);
    assert_eq!(result, Option::None);
}

fn precise_number_check_square_root(check: &PreciseNumber) {
    let epsilon = PreciseNumber { value: inner(10) }; // correct within 11 decimals
    let one = PreciseNumber::one();
    let one_plus_epsilon = one.checked_add(&epsilon).unwrap();
    let one_minus_epsilon = one.checked_sub(&epsilon).unwrap();
    let approximate_root = check.sqrt().unwrap();
    let lower_bound = approximate_root
        .checked_mul(&one_minus_epsilon)
        .unwrap()
        .checked_pow(2)
        .unwrap();
    let upper_bound = approximate_root
        .checked_mul(&one_plus_epsilon)
        .unwrap()
        .checked_pow(2)
        .unwrap();
    assert!(check.less_than_or_equal(&upper_bound));
    assert!(check.greater_than_or_equal(&lower_bound));
}

#[test]
fn precise_number_test_square_root_min_max() {
    let test_roots = [
        PreciseNumber::minimum_sqrt_base(),
        PreciseNumber::maximum_sqrt_base(),
    ];
    for i in test_roots.iter() {
        precise_number_check_square_root(i);
    }
}

#[test]
fn precise_number_test_floor() {
    let whole_number = PreciseNumber::new(2).unwrap();
    let mut decimal_number = PreciseNumber::new(2).unwrap();
    decimal_number.value = decimal_number.value.checked_add(inner(1)).unwrap();
    let floor = decimal_number.floor().unwrap();
    let floor_again = floor.floor().unwrap();
    assert_eq!(whole_number.value, floor.value);
    assert_eq!(whole_number.value, floor_again.value);
}

#[test]
fn precise_number_test_ceiling() {
    // 1.999999999999
    let mut decimal_number = PreciseNumber::new(2).unwrap();
    decimal_number.value = decimal_number.value.checked_sub(inner(1)).unwrap();
    let ceiling = decimal_number.ceiling().unwrap();
    let ceiling_again = ceiling.ceiling().unwrap();

    let expected_fp2: InnerUint = PreciseNumber::new(2).unwrap().value;
    assert_eq!(ceiling.value, expected_fp2);
    assert_eq!(ceiling_again.value, expected_fp2);
}
