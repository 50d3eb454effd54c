use raytracer::scalar::Scalar;
use raytracer::scalar::{HIDDEN_BIT, INFINITY_BITS, ONE_BITS, SIGN_BIT};

fn s(x: f64) -> Scalar {
    Scalar::from_bits(x.to_bits())
}

fn numbers() -> Vec<f64> {
    vec![
        0.0,
        -0.0,
        1.0,
        -1.0,
        0.5,
        -0.5,
        0.001,
        -0.001,
        2.0,
        3.0,
        255.0 / 256.0,
        1.0 - f64::EPSILON,
        1.0 + f64::EPSILON,
        1e-300,
        -1e-300,
        1e300,
        -1e300,
        5e-324,
        -5e-324,
        f64::MIN_POSITIVE,
        -f64::MIN_POSITIVE,
        f64::MAX,
        f64::MIN,
        f64::INFINITY,
        f64::NEG_INFINITY,
        f64::NAN,
        -f64::NAN,
        f64::from_bits(0x7FF0_0000_0000_0001),
        f64::from_bits(0xFFFF_FFFF_FFFF_FFFF),
        std::f64::consts::PI,
        -std::f64::consts::E,
    ]
}

#[test]
fn lt_is_the_comparison_of_doubles() {
    for a in numbers() {
        for b in numbers() {
            assert_eq!(s(a).lt(&s(b)), a < b, "{:?} < {:?}", a, b);
        }
    }
}

#[test]
fn gt_is_the_comparison_of_doubles() {
    for a in numbers() {
        for b in numbers() {
            assert_eq!(s(a).gt(&s(b)), a > b, "{:?} > {:?}", a, b);
        }
    }
}

#[test]
fn neg_is_the_negation_of_doubles() {
    for a in numbers() {
        assert_eq!(s(a).neg().to_bits(), (-a).to_bits(), "-({:?})", a);
        assert_eq!(s(a).neg().neg(), s(a));
    }
}

#[test]
fn nan_is_told_from_numbers() {
    for a in numbers() {
        assert_eq!(s(a).is_not_a_number(), a.is_nan(), "{:?}", a);
    }
    assert!(!Scalar::from_bits(INFINITY_BITS).is_not_a_number());
    assert!(Scalar::from_bits(INFINITY_BITS + 1).is_not_a_number());
    assert!(Scalar::from_bits(SIGN_BIT + INFINITY_BITS + 1).is_not_a_number());
}

#[test]
fn sign_is_the_sign_bit() {
    for a in numbers() {
        assert_eq!(s(a).is_negative(), a.is_sign_negative(), "{:?}", a);
    }
    assert!(s(-0.0).is_negative());
    assert!(!s(0.0).is_negative());
}

#[test]
fn both_zeros_have_key_zero() {
    assert_eq!(s(0.0).order_key(), 0);
    assert_eq!(s(-0.0).order_key(), 0);
    assert!(!s(-0.0).lt(&s(0.0)));
    assert!(!s(0.0).lt(&s(-0.0)));
}

#[test]
fn keys_of_some_numbers() {
    assert_eq!(s(1.0).order_key(), 0x3FF0_0000_0000_0000);
    assert_eq!(s(-1.0).order_key(), -0x3FF0_0000_0000_0000);
    assert_eq!(s(f64::INFINITY).order_key(), 0x7FF0_0000_0000_0000);
    assert_eq!(s(f64::NEG_INFINITY).order_key(), -0x7FF0_0000_0000_0000);
    assert_eq!(s(5e-324).order_key(), 1);
    assert_eq!(s(-5e-324).order_key(), -1);
    assert_eq!(Scalar::from_bits(u64::MAX).order_key(), -0x7FFF_FFFF_FFFF_FFFF);
}

#[test]
fn keys_keep_the_order_of_numbers() {
    for a in numbers() {
        for b in numbers() {
            if a.is_nan() || b.is_nan() {
                continue;
            }
            assert_eq!(s(a).order_key() < s(b).order_key(), a < b, "{:?} {:?}", a, b);
            assert_eq!(s(a).order_key() == s(b).order_key(), a == b, "{:?} {:?}", a, b);
        }
    }
}

#[test]
fn abs_bits_drop_the_sign() {
    for a in numbers() {
        assert_eq!(s(a).abs_bits(), a.abs().to_bits(), "{:?}", a);
    }
}

#[test]
fn constants_are_the_patterns_they_name() {
    assert_eq!(Scalar::zero().to_bits(), 0.0f64.to_bits());
    assert_eq!(Scalar::one().to_bits(), 1.0f64.to_bits());
    assert_eq!(ONE_BITS, 1.0f64.to_bits());
    assert_eq!(INFINITY_BITS, f64::INFINITY.to_bits());
    assert_eq!(SIGN_BIT, (-0.0f64).to_bits());
    assert_eq!(HIDDEN_BIT, 1u64 << 52);
}

#[test]
fn bits_go_in_and_out_unchanged() {
    for bits in [0u64, 1, 42, ONE_BITS, SIGN_BIT, u64::MAX] {
        assert_eq!(Scalar::from_bits(bits).to_bits(), bits);
        assert_eq!(Scalar::from_bits(bits).bits, bits);
    }
}
