use spl_math_evolved::precise_number::convert_from_f64::{trunc_f64_bits, u256_from_f64_bits};
use spl_math_evolved::precise_number::pn_128_64_d9::PreciseNumber as Pn128;
use spl_math_evolved::precise_number::pn_64_32_d4::PreciseNumber as Pn64;
use spl_math_evolved::precise_number::pn_8_8_d1::PreciseNumber as TestPreciseNumber8;
use spl_math_evolved::precise_number::PreciseNumber;
use spl_math_evolved::uint::U256;
use spl_math_evolved::wide_int::WideInt;

// The float is scaled by the unit value before its bits are decoded.
fn pn8_from_f64(value: f64) -> Option<TestPreciseNumber8> {
    TestPreciseNumber8::new_from_inner_f64((value * 1e1f64).to_bits())
}

fn pn_from_f64(value: f64) -> Option<PreciseNumber> {
    PreciseNumber::new_from_inner_f64((value * 1e12f64).to_bits())
}

#[test]
fn convert_from_f64_test_pn_from_f64() {
    let a = pn8_from_f64(12.3f64).unwrap();
    assert_eq!(a.value, 123);

    let b = pn8_from_f64(0.1f64).unwrap();
    assert_eq!(b.value, 1);

    let c = pn8_from_f64(0.07f64).unwrap();
    assert_eq!(c.value, 0);

    assert!(pn8_from_f64(25.5f64).is_some());
    assert!(pn8_from_f64(25.59f64).is_some());
    assert!(pn8_from_f64(25.6f64).is_none());

    assert!(pn8_from_f64(-1.0f64).is_none());
}

#[test]
fn test_pn_raw_from_f64() {
    let a = TestPreciseNumber8::new_from_inner_f64(12.3f64.to_bits()).unwrap();
    assert_eq!(a.value, 12);

    let b = TestPreciseNumber8::new_from_inner_f64(0.1f64.to_bits()).unwrap();
    assert_eq!(b.value, 0);

    let c = TestPreciseNumber8::new_from_inner_f64(0.9f64.to_bits()).unwrap();
    assert_eq!(c.value, 0);

    assert!(TestPreciseNumber8::new_from_inner_f64(255.9f64.to_bits()).is_some());
    assert!(TestPreciseNumber8::new_from_inner_f64(256.0f64.to_bits()).is_none());
}

#[test]
fn convert_from_f64_test_u256_from_f64() {
    let value: f64 = 3e12 + 0.123456789;
    let combined = pn_from_f64(value).unwrap();

    assert_eq!(combined.value.as_u128(), 3000000000000123429978112);
}

#[test]
fn convert_from_f64_test_u256_from_f64_block0() {
    let u256 = u256_from_f64_bits(2f64.powi(20).to_bits());
    assert_eq!(u256.unwrap().as_u128(), 2u128.pow(20));
}

#[test]
fn convert_from_f64_test_u256_from_f64_block0and1() {
    let u256 = u256_from_f64_bits(2f64.powi(80).to_bits());
    assert_eq!(u256.unwrap().as_u128(), 2u128.pow(80));
}

#[test]
fn convert_from_f64_test_u256_from_f64_max() {
    let bits = 0f64.to_bits();
    // = largest mantissa
    const MAN_MASK: u64 = 0x000f_ffff_ffff_ffff;
    const EXP_MASK: u64 = 0x7ff0_0000_0000_0000;

    let exponent = 255 + 1023;
    let max_supported = f64::from_bits(bits | MAN_MASK | (exponent << 52 & EXP_MASK));
    assert_eq!(max_supported, 1.15792089237316182568e+77);

    let u256 = u256_from_f64_bits(max_supported.to_bits()).unwrap();
    // note: bit 53 is implicit from the mantissa interpretation as 1.xxxxx
    assert_eq!(u256.0, [0, 0, 0, 0xffff_ffff_ffff_f800]);

    let exponentplus1 = exponent + 1;
    let overflow_value2 =
        f64::from_bits((bits & !MAN_MASK + 1) | (exponentplus1 << 52 & EXP_MASK));

    let overflow_value =
        max_supported + 1.2855504354071922204335696738729300820177623950262342682411008e61;
    assert_eq!(overflow_value2, overflow_value);

    assert_eq!(u256_from_f64_bits(overflow_value.to_bits()), None);
}

#[test]
fn test_u256_from_f64_one() {
    let one: f64 = 1.0;
    let u256 = u256_from_f64_bits(one.to_bits()).unwrap();
    assert_eq!(u256.0, [1, 0, 0, 0]);
}

#[test]
fn test_u256_from_min() {
    let min_value: f64 = 3.7921553222237964e-231;

    let u256 = u256_from_f64_bits(min_value.to_bits()).unwrap();

    assert_eq!(u256.0, [0, 0, 0, 0]);
}

#[test]
fn test_u256_from_f64_min() {
    let min_value: f64 = f64::MIN_POSITIVE;

    let u256 = u256_from_f64_bits(min_value.to_bits()).unwrap();

    assert_eq!(u256.0, [0, 0, 0, 0]);
}

#[test]
fn test_u256_from_negative_f64() {
    let neg_value: f64 = -42.0;

    let u256 = u256_from_f64_bits(neg_value.to_bits());

    assert_eq!(u256, None);
}

#[test]
fn test_u256_from_negative_zer0() {
    let u256 = u256_from_f64_bits((-0.0f64).to_bits()).unwrap();

    assert_eq!(u256.0, [0, 0, 0, 0]);
}

#[test]
fn test_u256_from_f64_zero() {
    let min_value = 0.0f64;

    let u256 = u256_from_f64_bits(min_value.to_bits()).unwrap();

    assert_eq!(u256.0, [0, 0, 0, 0]);

    let underflow_value = -1e-100f64;
    assert_eq!(u256_from_f64_bits(underflow_value.to_bits()), None);
}

#[test]
fn test_u256_from_f64_block3() {
    // the mantissa is only 52 bits and fits in the highest block
    assert_eq!(
        u256_from_f64_bits(1.15e77f64.to_bits()).unwrap().0,
        [0, 0, 0, 18320556978023200768]
    );
}

#[test]
fn test_u256_from_f64_block2and3() {
    assert_eq!(
        u256_from_f64_bits((2.0f64.powi(222) * 1.1111).to_bits())
            .unwrap()
            .0,
        [0, 0, 11923974904812142592, 1193034540]
    );
}

#[test]
fn convert_from_f64_test_u256_from_f64_overflow() {
    // 2^256 => apprx 1.16e77
    assert_eq!(u256_from_f64_bits(1.16e77f64.to_bits()), None);
}

#[test]
fn convert_from_f64_test_u256_from_f64_bits_zero() {
    let u256 = u256_from_f64_bits(0.0f64.to_bits());
    assert_eq!(u256.unwrap().as_u128(), 0u128);
}

#[test]
fn convert_from_f64_test_u256_from_f64_bits_subnormal() {
    let bits = 0f64.to_bits();
    const MAN_MASK: u64 = 0x000f_ffff_ffff_ffff;
    let subnormal = f64::from_bits(bits | MAN_MASK);

    // subnormals are very small numbers and are guaranteed to be smaller than one
    assert_eq!(u256_from_f64_bits(subnormal.to_bits()), U256::zero().into());
}

#[test]
fn convert_from_f64_test_from_f64() {
    let pn = pn8_from_f64(12.3f64).unwrap();
    assert_eq!(pn.value, 123);
}

#[test]
fn decoder_rejects_nan_and_infinities() {
    assert_eq!(u256_from_f64_bits(f64::NAN.to_bits()), None);
    assert_eq!(u256_from_f64_bits((-f64::NAN).to_bits()), None);
    assert_eq!(u256_from_f64_bits(f64::INFINITY.to_bits()), None);
    assert_eq!(u256_from_f64_bits(f64::NEG_INFINITY.to_bits()), None);
    assert_eq!(u256_from_f64_bits(f64::MAX.to_bits()), None);
}

#[test]
fn decoder_ignores_the_fraction() {
    let samples = [
        0.0f64,
        0.5,
        0.999_999,
        1.0,
        1.5,
        2.75,
        1234.5678,
        4503599627370495.5,
        4503599627370497.0,
        9007199254740993.0,
        1.0e19,
        3.4e38,
        7.7e55,
        1.15792089237316182568e+77,
    ];
    for &value in samples.iter() {
        let decoded = u256_from_f64_bits(value.to_bits()).unwrap();
        let truncated = u256_from_f64_bits(value.trunc().to_bits()).unwrap();
        assert_eq!(decoded, truncated);
    }
    assert_eq!(
        u256_from_f64_bits(1234.5678f64.to_bits()).unwrap().as_u128(),
        1234
    );
    assert_eq!(
        u256_from_f64_bits(1.0e19f64.to_bits()).unwrap().as_u128(),
        10_000_000_000_000_000_000
    );
}

#[test]
fn decoder_in_the_native_widths() {
    assert_eq!(
        Pn64::new_from_inner_f64(18446744073709549568.0f64.to_bits())
            .unwrap()
            .value,
        18446744073709549568u64
    );
    assert!(Pn64::new_from_inner_f64(18446744073709551616.0f64.to_bits()).is_none());
    assert_eq!(
        Pn128::new_from_inner_f64(2f64.powi(100).to_bits())
            .unwrap()
            .value,
        1u128 << 100
    );
    assert_eq!(
        Pn128::new_from_inner_f64((2f64.powi(127) * 1.5).to_bits())
            .unwrap()
            .value,
        3u128 << 126
    );
    assert!(Pn128::new_from_inner_f64(2f64.powi(128).to_bits()).is_none());
}

#[test]
fn truncation_of_the_bits() {
    let samples = [
        0.0f64,
        -0.0,
        0.3,
        -0.3,
        0.999_999_999,
        1.0,
        -1.0,
        1.5,
        -1.5,
        2.999,
        1234.5678,
        -1234.5678,
        4503599627370495.5,
        4503599627370496.0,
        9007199254740993.0,
        1.0e300,
        -1.0e300,
        f64::MIN_POSITIVE,
        5e-324,
        f64::INFINITY,
        f64::NEG_INFINITY,
    ];
    for &value in samples.iter() {
        assert_eq!(trunc_f64_bits(value.to_bits()), value.trunc().to_bits());
    }
    let nan = f64::NAN.to_bits();
    assert_eq!(trunc_f64_bits(nan), nan);
    assert_eq!(trunc_f64_bits(2.75f64.to_bits()), 2.0f64.to_bits());
}
