use vehicle_toolkit::scalar::Scalar;
use vehicle_toolkit::scenes::simulation::{
    FLOOR_BITS, GRAVITY_BITS, HALF_BITS, RESTITUTION_BITS, SPRING_REST_BITS,
    SPRING_STIFFNESS_BITS,
};

fn s(x: f32) -> Scalar {
    Scalar::from_bits(x.to_bits())
}

fn samples() -> Vec<f32> {
    vec![
        0.0,
        -0.0,
        1.0,
        -1.0,
        0.5,
        -0.5,
        100.0,
        -100.0,
        600.0,
        600.0001,
        599.9999,
        f32::MIN_POSITIVE,
        -f32::MIN_POSITIVE,
        f32::from_bits(1),
        f32::from_bits(0x8000_0001),
        f32::MAX,
        f32::MIN,
        f32::INFINITY,
        f32::NEG_INFINITY,
        f32::NAN,
        -f32::NAN,
        f32::from_bits(0x7F80_0001),
        f32::from_bits(0xFFFF_FFFF),
        3.25,
        2500.0,
        50.0,
    ]
}

#[test]
fn bits_round_trip() {
    for x in samples() {
        assert_eq!(s(x).to_bits(), x.to_bits());
        assert_eq!(f32::from_bits(s(x).to_bits()).to_bits(), x.to_bits());
    }
    assert_eq!(Scalar::from_bits(0x4416_0000).to_bits(), 0x4416_0000);
}

#[test]
fn classification_agrees_with_hardware() {
    for x in samples() {
        assert_eq!(s(x).is_nan(), x.is_nan(), "is_nan {x}");
        assert_eq!(s(x).is_zero(), x == 0.0, "is_zero {x}");
        assert_eq!(s(x).is_negative(), x.is_sign_negative(), "is_negative {x}");
    }
}

#[test]
fn numeric_order_agrees_with_hardware() {
    for a in samples() {
        for b in samples() {
            assert_eq!(s(a).lt(s(b)), a < b, "{a} < {b}");
            assert_eq!(s(a).le(s(b)), a <= b, "{a} <= {b}");
            assert_eq!(s(a).gt(s(b)), a > b, "{a} > {b}");
            assert_eq!(s(a).ge(s(b)), a >= b, "{a} >= {b}");
        }
    }
}

#[test]
fn total_order_agrees_with_hardware() {
    for a in samples() {
        for b in samples() {
            let before = a.total_cmp(&b) == std::cmp::Ordering::Less;
            let not_after = a.total_cmp(&b) != std::cmp::Ordering::Greater;
            assert_eq!(s(a).total_lt(s(b)), before, "{a} before {b}");
            assert_eq!(s(a).total_le(s(b)), not_after, "{a} not after {b}");
        }
    }
}

#[test]
fn zeros_and_nans_are_told_apart_by_the_total_order_only() {
    assert!(!s(-0.0).lt(s(0.0)));
    assert!(s(-0.0).le(s(0.0)));
    assert!(s(-0.0).total_lt(s(0.0)));
    assert!(!s(0.0).total_le(s(-0.0)));
    assert!(!s(f32::NAN).le(s(f32::NAN)));
    assert!(s(f32::NAN).total_le(s(f32::NAN)));
    assert!(s(f32::INFINITY).total_lt(s(f32::NAN)));
    assert_ne!(s(0.0), s(-0.0));
    assert_eq!(s(f32::NAN), s(f32::NAN));
}

#[test]
fn solver_constants_are_the_numbers_they_stand_for() {
    assert_eq!(FLOOR_BITS, 600.0f32.to_bits());
    assert_eq!(GRAVITY_BITS, 500.0f32.to_bits());
    assert_eq!(RESTITUTION_BITS, 0.3f32.to_bits());
    assert_eq!(HALF_BITS, 0.5f32.to_bits());
    assert_eq!(SPRING_REST_BITS, 100.0f32.to_bits());
    assert_eq!(SPRING_STIFFNESS_BITS, 0.2f32.to_bits());
}
