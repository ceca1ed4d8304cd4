use spl_math_evolved::precise_number::pn_8_8_d1::PreciseNumber;

type TestPreciseNumber8 = PreciseNumber;

#[test]
fn pn_tests_pn_8_8_d1_test_to_imprecise_rounding() {
    fn calc(a: u8, b: u8) -> u8 {
        let a = TestPreciseNumber8::new(a).unwrap();
        let b = TestPreciseNumber8::new(b).unwrap();
        let c = a.checked_div(&b).unwrap();
        c.to_imprecise().unwrap()
    }

    // rounding mode HALF_DOWN
    assert_eq!(calc(11, 2), 5);
    assert_eq!(calc(5, 2), 2);
    assert_eq!(calc(4, 3), 1);
}

#[test]
fn pn_tests_pn_8_8_d1_test_ceiling_all() {
    for value in 0..=246 {
        let a = TestPreciseNumber8 { value };

        let ceil_expected = (value as f64 / 10.0).ceil() as u8;
        let ceiling = a.ceiling().unwrap();

        assert_eq!(ceiling.value, ceil_expected * 10);
    }

    for value in 247..=255 {
        let a = TestPreciseNumber8 { value };
        assert!(a.ceiling().is_none(), "will overflow");
    }
}
