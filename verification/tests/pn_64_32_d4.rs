use spl_math_evolved::precise_number::pn_64_32_d4::{
    PreciseNumber, MAXIMUM_SQRT_BASE, ONE_CONST, ROUNDING_CORRECTION,
};

#[test]
fn test_u64_max_outer_to_precise() {
    let a = PreciseNumber::new(u32::MAX).unwrap();
    assert_eq!(a.to_imprecise().unwrap(), u32::MAX);
    let a_plus_1 = a.checked_add(&PreciseNumber::one()).unwrap();
    assert!(a_plus_1.to_imprecise().is_none());
}

#[test]
fn test_u64_one_constant() {
    assert_eq!(ONE_CONST, 10000);
}

#[test]
fn test_u64_rounding_correction_constant() {
    assert_eq!(ROUNDING_CORRECTION, 5000);
}

#[test]
fn test_u64_maximum_sqrt_base_constant() {
    assert_eq!(MAXIMUM_SQRT_BASE, PreciseNumber::new(u32::MAX).unwrap().value);
}
