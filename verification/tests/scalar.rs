use scalargrad::scalar::Scalar;

#[test]
fn exact_rational_arithmetic() {
    let half = Scalar::from_ratio(1, 2);
    let third = Scalar::from_ratio(1, 3);

    // 1/2 + 1/3 = 5/6
    assert!(half.add(third).same_value(&Scalar::from_ratio(5, 6)));
    // 1/2 - 1/3 = 1/6
    assert!(half.sub(third).same_value(&Scalar::from_ratio(1, 6)));
    // 1/2 * 1/3 = 1/6
    assert!(half.mul(third).same_value(&Scalar::from_ratio(1, 6)));
    // (1/2) / (1/3) = 3/2
    assert!(half.div(third).same_value(&Scalar::from_ratio(3, 2)));
}

#[test]
fn negative_denominators_normalize() {
    let a = Scalar::from_ratio(1, -2);
    assert!(a.same_value(&Scalar::from_ratio(-1, 2)));
    assert!(a.add(Scalar::from_ratio(1, 2)).same_value(&Scalar::zero()));
}

#[test]
fn zero_is_canonical() {
    let z = Scalar::from_ratio(0, 7);
    assert_eq!(z, Scalar::zero());
    let d = Scalar::from_int(4).sub(Scalar::from_int(4));
    assert_eq!(d, Scalar::zero());
}

#[test]
fn undefined_propagates() {
    let u = Scalar::from_int(1).div(Scalar::zero());
    assert!(!u.is_defined());
    assert!(!u.add(Scalar::one()).is_defined());
    assert!(!u.mul(Scalar::zero()).is_defined());
    assert!(!Scalar::one().sub(u).is_defined());
    assert!(u.same_value(&Scalar::undefined()));
}

#[test]
fn pow_integer_exponents() {
    let two = Scalar::from_int(2);
    assert_eq!(two.pow(Scalar::from_int(10)), Scalar::from_int(1024));
    assert_eq!(two.pow(Scalar::zero()), Scalar::one());
    assert!(two.pow(Scalar::from_int(-2)).same_value(&Scalar::from_ratio(1, 4)));
    // an exponent that is an integer in disguise
    assert_eq!(two.pow(Scalar::from_ratio(6, 3)), Scalar::from_int(4));
    // 0^0 = 1, 0^3 = 0, 0^-1 undefined
    let zero = Scalar::zero();
    assert_eq!(zero.pow(Scalar::zero()), Scalar::one());
    assert_eq!(zero.pow(Scalar::from_int(3)), Scalar::zero());
    assert!(!zero.pow(Scalar::from_int(-1)).is_defined());
}

#[test]
fn pow_unit_bases_stay_exact() {
    // a base carrying the value one, even unreduced, has exact powers
    let one_unreduced = Scalar::from_ratio(7, 7);
    assert_eq!(one_unreduced.pow(Scalar::from_int(1000)), Scalar::one());
    let minus_one = Scalar::from_ratio(-3, 3);
    assert_eq!(minus_one.pow(Scalar::from_int(7)), Scalar::from_int(-1));
    assert_eq!(minus_one.pow(Scalar::from_int(8)), Scalar::one());
}

#[test]
fn pow_fractional_exponent_undefined() {
    let nine = Scalar::from_int(9);
    assert!(!nine.pow(Scalar::from_ratio(1, 2)).is_defined());
}

#[test]
fn pow_overflow_becomes_undefined() {
    let two = Scalar::from_int(2);
    assert!(!two.pow(Scalar::from_int(100)).is_defined());
}

#[test]
fn tanh_exact_domain() {
    assert_eq!(Scalar::zero().tanh(), Scalar::zero());
    assert!(!Scalar::one().tanh().is_defined());
}

#[test]
fn relu_scalar() {
    assert_eq!(Scalar::from_int(5).relu(), Scalar::from_int(5));
    assert_eq!(Scalar::from_int(-5).relu(), Scalar::zero());
    assert_eq!(Scalar::zero().relu(), Scalar::zero());
}

#[test]
fn same_value_ignores_representation() {
    assert!(Scalar::from_ratio(2, 4).same_value(&Scalar::from_ratio(1, 2)));
    assert!(!Scalar::from_ratio(2, 4).same_value(&Scalar::from_ratio(1, 3)));
    assert!(Scalar::undefined().same_value(&Scalar::undefined()));
    assert!(!Scalar::undefined().same_value(&Scalar::zero()));
}
