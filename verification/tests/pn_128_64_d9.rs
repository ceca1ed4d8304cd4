use spl_math_evolved::precise_number::pn_128_64_d9::{
    PreciseNumber, MAXIMUM_SQRT_BASE, ONE_CONST, ROUNDING_CORRECTION,
};

#[test]
fn test_u128_max_outer_to_precise() {
    let a = PreciseNumber::new(u64::MAX).unwrap();
    assert_eq!(a.to_imprecise().unwrap(), u64::MAX);
    let a_plus_1 = a.checked_add(&PreciseNumber::one()).unwrap();
    assert!(a_plus_1.to_imprecise().is_none());
}

#[test]
fn test_u128_one_constant() {
    assert_eq!(ONE_CONST, 1_000_000_000);
}

#[test]
fn test_u128_rounding_correction_constant() {
    assert_eq!(ROUNDING_CORRECTION, 500_000_000);
}

#[test]
fn test_u128_maximum_sqrt_base_constant() {
    assert_eq!(MAXIMUM_SQRT_BASE, PreciseNumber::new(u64::MAX).unwrap().value);
}
