use symi::rational::{gcd, lcm, Rational32};

#[test]
fn reduce_normalizes_fraction_and_sign() {
    assert_eq!(Rational32(2, 4).reduce(), Rational32(1, 2));
    assert_eq!(Rational32(2, -4).reduce(), Rational32(-1, 2));
    assert_eq!(Rational32(-2, -4).reduce(), Rational32(1, 2));
}

#[test]
fn add_and_add_assign_work() {
    let sum = Rational32(1, 2) + Rational32(1, 3);
    assert_eq!(sum.reduce(), Rational32(5, 6));
    assert_eq!(sum, Rational32(5, 6));

    let mut acc = Rational32(1, 2);
    acc += Rational32(1, 3);
    assert_eq!(acc.reduce(), Rational32(5, 6));
}

#[test]
fn add_uses_lcm_denominator() {
    let sum = Rational32(1, 6) + Rational32(1, 4);
    assert_eq!(sum, Rational32(5, 12));
}

#[test]
fn mul_and_div_produce_expected_results() {
    let product = Rational32(1, 2) * Rational32(1, 3);
    assert_eq!(product.reduce(), Rational32(1, 6));

    let quotient = Rational32(1, 2) / Rational32(2, 3);
    assert_eq!(quotient.reduce(), Rational32(3, 4));
}

#[test]
fn mul_by_integer_and_negation_work() {
    assert_eq!((Rational32(3, 5) * 2).reduce(), Rational32(6, 5));
    assert_eq!((-Rational32(3, 5)).reduce(), Rational32(-3, 5));
}

#[test]
fn ordering_and_equality_use_reduced_form() {
    assert_eq!(Rational32(1, 2), Rational32(2, 4));
    assert!(Rational32(1, 3) < Rational32(1, 2));
    assert!(Rational32(-1, 2) < Rational32(1, 3));
}

#[test]
fn reduct_to_converts_to_compatible_denominator() {
    let converted = Rational32(1, 2).reduct_to(6);
    assert_eq!(converted, Rational32(3, 6));
}

#[test]
fn reduct_to() {
    assert_eq!(Rational32(1, 2).reduct_to(4), Rational32(2, 4));
    assert_eq!(Rational32(1, 3).reduct_to(6), Rational32(2, 6));
    assert_eq!(Rational32(2, 8).reduct_to(4), Rational32(1, 4));
}

#[test]
fn zero_helpers_work() {
    assert_eq!(Rational32::zero(), Rational32(0, 1));
    assert!(Rational32::zero().is_zero());
    assert!(!Rational32(1, 4).is_zero());
    assert_eq!(Rational32::default(), Rational32(0, 1));
}

#[test]
fn exact_fields_after_operations() {
    let sum = Rational32(1, 6) + Rational32(1, 3);
    assert_eq!((sum.0, sum.1), (1, 2));
    let halves = Rational32(1, 2) + Rational32(1, 2);
    assert_eq!((halves.0, halves.1), (1, 1));
    let product = Rational32(2, 4) * Rational32(2, 3);
    assert_eq!((product.0, product.1), (1, 3));
    let quotient = Rational32(1, 2) / Rational32(-2, 3);
    assert_eq!((quotient.0, quotient.1), (-3, 4));
    let scaled = Rational32(1, 4) * 2;
    assert_eq!((scaled.0, scaled.1), (1, 2));
    let mut grown = Rational32(1, 4);
    grown += Rational32(1, 4);
    assert_eq!((grown.0, grown.1), (1, 2));
    let nothing = Rational32(1, 3) - Rational32(2, 6);
    assert_eq!((nothing.0, nothing.1), (0, 1));
    let difference = Rational32(1, 2) - Rational32(1, 3);
    assert_eq!((difference.0, difference.1), (1, 6));
    let kept = Rational32(2, 8).reduct_to(4);
    assert_eq!((kept.0, kept.1), (1, 4));
    let widened = Rational32(1, 3).reduct_to(-6);
    assert_eq!((widened.0, widened.1), (2, 6));
}

#[test]
fn new_carries_the_sign_in_the_numerator() {
    let r = Rational32::new(3, -6);
    assert_eq!((r.0, r.1), (-3, 6));
    let s = Rational32::new(3, 6);
    assert_eq!((s.0, s.1), (3, 6));
    assert_eq!(*s.numer(), 3);
    assert_eq!(*s.denom(), 6);
}

#[test]
fn conversions_work() {
    let r = Rational32::from_int(7i16);
    assert_eq!((r.0, r.1), (7, 1));
    let s = Rational32::from_integer(-4);
    assert_eq!((s.0, s.1), (-4, 1));
    let t: Rational32 = 9.into();
    assert_eq!((t.0, t.1), (9, 1));
    let pair: (i32, i32) = Rational32(5, 8).into();
    assert_eq!(pair, (5, 8));
}

#[test]
fn gcd_and_lcm_of_magnitudes() {
    assert_eq!(gcd(12, 18), 6);
    assert_eq!(gcd(-12, 18), 6);
    assert_eq!(gcd(0, 5), 5);
    assert_eq!(gcd(7, 0), 7);
    assert_eq!(lcm(4, 6), 12);
    assert_eq!(lcm(-4, 6), 12);
    assert_eq!(lcm(1, 1), 1);
}

#[test]
fn product_of_reduced_is_reduced_product() {
    let a = Rational32(6, 8);
    let b = Rational32(10, 4);
    let left = (a * b).reduce();
    let right = a.reduce() * b.reduce();
    assert_eq!((left.0, left.1), (right.0, right.1));
    assert_eq!((left.0, left.1), (15, 8));
}

#[test]
fn ordering_handles_negative_denominators() {
    assert!(Rational32(1, -2) < Rational32(1, 3));
    assert!(Rational32(1, 3) > Rational32(-1, 2));
    assert!(!(Rational32(1, 2) < Rational32(2, 4)));
    assert!(Rational32(1, 2) <= Rational32(2, 4));
}

#[test]
fn to_f32_and_zero_helpers_work() {
    assert_eq!(Rational32::zero(), Rational32(0, 1));
    assert!(Rational32::zero().is_zero());

    let quarter = Rational32(1, 4);
    let value = *quarter.numer() as f32 / *quarter.denom() as f32;
    assert!((value - 0.25).abs() < f32::EPSILON);
}
