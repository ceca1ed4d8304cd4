use spl_math_evolved::approximations::{sqrt, sqrt_binary_system_naiv};
use spl_math_evolved::uint::U256;
use spl_math_evolved::wide_int::WideInt;

#[test]
fn integer_square_root_small_values() {
    let expected: [u8; 17] = [0, 1, 1, 1, 2, 2, 2, 2, 2, 3, 3, 3, 3, 3, 3, 3, 4];
    for (n, root) in expected.iter().enumerate() {
        assert_eq!(sqrt(n as u8), Some(*root));
        assert_eq!(sqrt_binary_system_naiv(n as u8), Some(*root));
        assert_eq!(sqrt(n as u64), Some(*root as u64));
    }
    assert_eq!(sqrt(10000u32), Some(100));
    assert_eq!(sqrt(9999u32), Some(99));
    assert_eq!(sqrt(255u8), Some(15));
    assert_eq!(sqrt(u32::MAX), Some(65535));
    assert_eq!(sqrt(u64::MAX), Some(4294967295));
    assert_eq!(sqrt(u128::MAX), Some(18446744073709551615));
    assert_eq!(sqrt_binary_system_naiv(u128::MAX), Some(18446744073709551615));
}

#[test]
fn integer_square_root_every_byte_and_word() {
    for n in 0..=255u8 {
        let root = sqrt(n).unwrap() as u32;
        assert!(root * root <= n as u32 && (n as u32) < (root + 1) * (root + 1));
        assert_eq!(sqrt_binary_system_naiv(n), sqrt(n));
    }
    for n in (0..=65535u16).step_by(7) {
        let root = sqrt(n).unwrap() as u32;
        assert!(root * root <= n as u32 && (n as u32) < (root + 1) * (root + 1));
        assert_eq!(sqrt_binary_system_naiv(n), sqrt(n));
    }
}

#[test]
fn integer_square_root_wide() {
    // the root of 2^256 - 1 is 2^128 - 1
    assert_eq!(sqrt(U256::max_value()), Some(U256::from(u128::MAX)));
    assert_eq!(
        sqrt_binary_system_naiv(U256::max_value()),
        Some(U256::from(u128::MAX))
    );
    let n = U256::from(10u128.pow(38));
    assert_eq!(sqrt(n), Some(U256::from(10u128.pow(19))));
    let below = n.checked_sub(U256::from(1u128)).unwrap();
    assert_eq!(sqrt(below), Some(U256::from(10u128.pow(19) - 1)));
}
