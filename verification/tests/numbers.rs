use die_sir::parsedie::number::Number;

#[test]
fn fractions_are_kept_in_lowest_terms() {
    let n = Number::new(10, 4).unwrap();
    assert_eq!((n.numerator(), n.denominator()), (5, 2));
    let n = Number::new(10, -4).unwrap();
    assert_eq!((n.numerator(), n.denominator()), (-5, 2));
    let n = Number::new(0, -9).unwrap();
    assert_eq!((n.numerator(), n.denominator()), (0, 1));
    let n = Number::new(i128::MIN, 2).unwrap();
    assert_eq!((n.numerator(), n.denominator()), (i128::MIN / 2, 1));
    assert_eq!(Number::new(6, 3), Some(Number::from_int(2)));
}

#[test]
fn fractions_without_a_value_are_refused() {
    assert_eq!(Number::new(1, 0), None);
    assert_eq!(Number::new(i128::MIN, -1), None);
    assert_eq!(Number::new(1, i128::MIN), None);
}

#[test]
fn sums_and_differences() {
    let a = Number::new(1, 6).unwrap();
    let b = Number::new(1, 3).unwrap();
    assert_eq!(a.add(&b), Number::new(1, 2));
    assert_eq!(a.sub(&b), Number::new(-1, 6));
    assert_eq!(Number::from_int(i128::MAX).add(&Number::from_int(1)), None);
    assert_eq!(Number::from_int(i128::MIN).sub(&Number::from_int(1)), None);
}

#[test]
fn products_and_quotients() {
    let a = Number::new(2, 3).unwrap();
    let b = Number::new(-9, 4).unwrap();
    assert_eq!(a.mul(&b), Number::new(-3, 2));
    assert_eq!(a.div(&b), Number::new(-8, 27));
    assert_eq!(a.div(&Number::from_int(0)), None);
    assert_eq!(Number::from_int(i128::MAX).mul(&Number::from_int(2)), None);
}

#[test]
fn negation() {
    assert_eq!(Number::new(3, 7).unwrap().neg(), Number::new(-3, 7));
    assert_eq!(Number::from_int(i128::MIN).neg(), None);
    assert_eq!(Number::from_int(0).neg(), Some(Number::from_int(0)));
}

#[test]
fn integer_powers() {
    let a = Number::new(-2, 3).unwrap();
    assert_eq!(a.pow(3), Number::new(-8, 27));
    assert_eq!(a.pow(-2), Number::new(9, 4));
    assert_eq!(a.pow(0), Some(Number::from_int(1)));
    assert_eq!(Number::from_int(0).pow(-1), None);
    assert_eq!(Number::from_int(0).pow(5), Some(Number::from_int(0)));
    assert_eq!(Number::from_int(1).pow(i128::MIN), Some(Number::from_int(1)));
    assert_eq!(Number::from_int(-1).pow(i128::MIN), Some(Number::from_int(1)));
    assert_eq!(Number::from_int(10).pow(38), Number::new(10i128.pow(38), 1));
    assert_eq!(Number::from_int(10).pow(39), None);
    assert_eq!(Number::from_int(2).pow(-126), Number::new(1, 1i128 << 126));
    assert_eq!(Number::from_int(2).pow(-127), None);
}

#[test]
fn truncation_rounds_toward_zero() {
    assert_eq!(Number::new(7, 2).unwrap().trunc(), 3);
    assert_eq!(Number::new(-7, 2).unwrap().trunc(), -3);
    assert_eq!(Number::new(1, 2).unwrap().trunc(), 0);
    assert_eq!(Number::new(-1, 2).unwrap().trunc(), 0);
    assert_eq!(Number::from_int(i128::MIN).trunc(), i128::MIN);
    assert_eq!(Number::new(i128::MIN, 3).unwrap().trunc(), i128::MIN / 3);
}

#[test]
fn zero_and_whole_numbers_are_told_apart() {
    assert!(Number::from_int(0).is_zero());
    assert!(!Number::new(1, 1000).unwrap().is_zero());
    assert!(Number::new(4, 2).unwrap().is_integer());
    assert!(!Number::new(4, 3).unwrap().is_integer());
}

#[test]
fn roots() {
    let n = |a, b| Number::new(a, b).unwrap();
    assert_eq!(n(4, 1).root(2), Some(n(2, 1)));
    assert_eq!(n(4, 9).root(2), Some(n(2, 3)));
    assert_eq!(n(1000, 27).root(3), Some(n(10, 3)));
    assert_eq!(n(0, 1).root(5), Some(n(0, 1)));
    assert_eq!(n(1, 1).root(i128::MAX), Some(n(1, 1)));
    assert_eq!(n(7, 3).root(1), Some(n(7, 3)));
    assert_eq!(n(1i128 << 126, 1).root(63), Some(n(4, 1)));
    assert_eq!(n(1i128 << 126, 1).root(126), Some(n(2, 1)));
    assert_eq!(
        n(170141183460469231696480166149958048521, 1).root(2),
        Some(n(13043817825332782211, 1))
    );
    assert_eq!(n(2, 1).root(2), None);
    assert_eq!(n(4, 3).root(2), None);
    assert_eq!(n(3, 4).root(2), None);
    assert_eq!(n(i128::MAX, 1).root(2), None);
    assert_eq!(n(1i128 << 126, 1).root(127), None);
    assert_eq!(n(-8, 1).root(3), None);
    assert_eq!(n(4, 1).root(0), None);
    assert_eq!(n(4, 1).root(-2), None);
}
