use evolutionary_algebra::rational::Rational;

#[test]
fn rational_arithmetic_is_exact() {
    let a = Rational::new(1, 3);
    let b = Rational::new(1, 6);
    assert!(a.add(&b).same(&Rational::new(1, 2)));
    assert!(a.sub(&b).same(&Rational::new(1, 6)));
    assert!(a.mul(&b).same(&Rational::new(1, 18)));
    assert!(a.div(&b).same(&Rational::from_int(2)));
    assert!(a.neg().same(&Rational::new(-1, 3)));
    assert!(!a.add(&b).same(&a));
}

#[test]
fn rational_constants() {
    assert!(Rational::zero().same(&Rational::from_int(0)));
    assert!(Rational::one().same(&Rational::from_int(1)));
    assert!(Rational::zero().is_zero());
    assert!(!Rational::one().is_zero());
    assert!(Rational::new(0, -7).is_zero());
}

#[test]
fn rational_fraction_is_reduced_by_value() {
    assert!(Rational::new(2, 4).same(&Rational::new(1, 2)));
    assert!(Rational::new(-2, -4).same(&Rational::new(1, 2)));
    assert!(Rational::new(2, -4).same(&Rational::new(-1, 2)));
}

#[test]
fn rational_absolute_value() {
    assert!(Rational::new(-5, 3).abs().same(&Rational::new(5, 3)));
    assert!(Rational::new(5, 3).abs().same(&Rational::new(5, 3)));
    assert!(Rational::zero().abs().is_zero());
}

#[test]
fn rational_order() {
    let a = Rational::new(1, 3);
    let b = Rational::new(1, 2);
    assert!(a.lt(&b));
    assert!(!b.lt(&a));
    assert!(b.gt(&a));
    assert!(!a.gt(&a));
    assert!(Rational::from_int(-1).lt(&Rational::zero()));
}

#[test]
fn rational_large_values_do_not_overflow() {
    let big = Rational::from_int(i64::MAX);
    let square = big.mul(&big);
    assert!(square.div(&big).same(&big));
    assert!(square.gt(&big));
    let small = Rational::new(1, i64::MAX);
    assert!(small.mul(&small).mul(&square).same(&Rational::one()));
    let low = Rational::from_int(i64::MIN);
    assert!(low.add(&big).same(&Rational::from_int(-1)));
}

#[test]
fn rational_checked_constructor_rejects_zero_denominator() {
    assert!(Rational::checked_new(1, 0).is_none());
    assert!(Rational::checked_new(3, 6).unwrap().same(&Rational::new(1, 2)));
}

#[test]
fn rational_checked_division_rejects_zero() {
    let a = Rational::new(3, 4);
    assert!(a.checked_div(&Rational::zero()).is_none());
    assert!(a.checked_div(&Rational::new(3, 2)).unwrap().same(&Rational::new(1, 2)));
}

#[test]
fn rational_text() {
    assert_eq!(Rational::new(1, 2).to_text(), "1/2");
    assert_eq!(Rational::new(6, 4).to_text(), "3/2");
    assert_eq!(Rational::new(-6, 4).to_text(), "-3/2");
    assert_eq!(Rational::from_int(-3).to_text(), "-3");
    assert_eq!(Rational::zero().to_text(), "0");
}

#[test]
fn rational_clone_keeps_the_value() {
    let a = Rational::new(-7, 12);
    let b = a.clone();
    assert!(a.same(&b));
}
