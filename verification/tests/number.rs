use jlens::number::{bits_equal, bits_magnitude, INFINITY_BITS, SIGN_BIT};

#[test]
fn equality_on_bits_is_equality_of_the_numbers() {
    let samples = [
        0.0f64,
        -0.0,
        1.0,
        -1.0,
        42.0,
        3.14,
        -3.14,
        f64::MIN_POSITIVE,
        -f64::MIN_POSITIVE,
        5e-324,
        -5e-324,
        f64::MAX,
        f64::MIN,
        f64::INFINITY,
        f64::NEG_INFINITY,
        f64::NAN,
        -f64::NAN,
        f64::from_bits(0x7ff0_0000_0000_0001),
        f64::from_bits(0xfff8_0000_0000_0000),
        f64::from_bits(0x7fff_ffff_ffff_ffff),
        f64::EPSILON,
        1.0 + f64::EPSILON,
    ];
    for a in samples.iter() {
        for b in samples.iter() {
            assert_eq!(bits_equal(a.to_bits(), b.to_bits()), a == b, "{} against {}", a, b);
        }
    }
}

#[test]
fn the_two_zeros_are_equal() {
    assert!(bits_equal(0, SIGN_BIT));
    assert!(bits_equal(SIGN_BIT, 0));
    assert!(bits_equal(0, 0));
}

#[test]
fn what_is_not_a_number_equals_nothing() {
    let nan = INFINITY_BITS + 1;
    assert!(!bits_equal(nan, nan));
    assert!(!bits_equal(nan, 0));
    assert!(!bits_equal(0, nan));
    assert!(bits_equal(INFINITY_BITS, INFINITY_BITS));
    assert!(!bits_equal(INFINITY_BITS, INFINITY_BITS + SIGN_BIT));
}

#[test]
fn there_is_no_tolerance() {
    assert!(!bits_equal(1.0f64.to_bits(), (1.0f64 + f64::EPSILON).to_bits()));
    assert!(!bits_equal(0.1f64.to_bits(), (0.3f64 - 0.2f64).to_bits()));
}

#[test]
fn the_magnitude_clears_the_sign() {
    assert_eq!(bits_magnitude(0), 0);
    assert_eq!(bits_magnitude(SIGN_BIT), 0);
    assert_eq!(bits_magnitude((-2.5f64).to_bits()), 2.5f64.to_bits());
    assert_eq!(bits_magnitude(2.5f64.to_bits()), 2.5f64.to_bits());
    assert_eq!(bits_magnitude(u64::MAX), 0x7fff_ffff_ffff_ffff);
}
