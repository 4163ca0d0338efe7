use kalman_rs::rational::{Rational, LIMIT};

fn ratio(n: i64, d: i64) -> Rational {
    Rational::new(n, d).unwrap()
}

#[test]
fn sum_of_thirds_is_reduced() {
    let c = ratio(1, 3).add(&ratio(1, 6)).unwrap();
    assert_eq!(c.numer(), 1);
    assert_eq!(c.denom(), 2);
}

#[test]
fn new_reduces_and_keeps_the_denominator_positive() {
    let r = ratio(6, -4);
    assert_eq!((r.numer(), r.denom()), (-3, 2));
    let z = ratio(0, -7);
    assert_eq!((z.numer(), z.denom()), (0, 1));
    assert_eq!(ratio(-10, -5), Rational::from_int(2));
}

#[test]
fn new_refuses_a_zero_denominator() {
    assert_eq!(Rational::new(1, 0), None);
    assert_eq!(Rational::new(0, 0), None);
}

#[test]
fn new_refuses_what_does_not_fit() {
    assert_eq!(LIMIT, i64::MAX);
    assert_eq!(Rational::new(i64::MIN, 1), None);
    assert_eq!(Rational::new(1, i64::MIN), None);
    // but the same numbers fit once they are reduced
    let r = ratio(i64::MIN, 2);
    assert_eq!((r.numer(), r.denom()), (-(1i64 << 62), 1));
    let s = ratio(i64::MIN, i64::MIN);
    assert_eq!(s, Rational::one());
    assert_eq!(ratio(i64::MAX, 1).numer(), i64::MAX);
}

#[test]
fn the_four_operations_are_exact() {
    let a = ratio(3, 4);
    let b = ratio(-5, 6);
    assert_eq!(a.add(&b), Some(ratio(-1, 12)));
    assert_eq!(a.sub(&b), Some(ratio(19, 12)));
    assert_eq!(a.mul(&b), Some(ratio(-5, 8)));
    assert_eq!(a.div(&b), Some(ratio(-9, 10)));
    assert_eq!(b.div(&a), Some(ratio(-10, 9)));
    assert_eq!(a.neg(), ratio(-3, 4));
    assert_eq!(Rational::zero().neg(), Rational::zero());
}

#[test]
fn a_tenth_added_ten_times_is_one() {
    let tenth = ratio(1, 10);
    let mut sum = Rational::zero();
    for _ in 0..10 {
        sum = sum.add(&tenth).unwrap();
    }
    assert_eq!(sum, Rational::one());
}

#[test]
fn division_by_zero_gives_nothing() {
    assert_eq!(ratio(1, 2).div(&Rational::zero()), None);
    assert_eq!(Rational::zero().div(&Rational::zero()), None);
    assert_eq!(Rational::zero().div(&ratio(1, 2)), Some(Rational::zero()));
}

#[test]
fn results_that_do_not_fit_give_nothing() {
    let big = ratio(i64::MAX, 1);
    let small = ratio(1, i64::MAX);
    assert_eq!(big.add(&Rational::one()), None);
    assert_eq!(big.neg().sub(&Rational::one()), None);
    assert_eq!(big.mul(&ratio(2, 1)), None);
    assert_eq!(small.div(&ratio(2, 1)), None);
    assert_eq!(small.add(&ratio(1, 2)), None);
    // what cancels is kept
    assert_eq!(big.mul(&small), Some(Rational::one()));
    assert_eq!(big.sub(&big), Some(Rational::zero()));
    assert_eq!(big.add(&big.neg()), Some(Rational::zero()));
    assert_eq!(big.div(&big), Some(Rational::one()));
}

#[test]
fn order_is_that_of_the_values() {
    let a = ratio(-1, 2);
    let b = ratio(1, 3);
    let c = ratio(2, 6);
    assert!(a.lt(&b) && !b.lt(&a));
    assert!(!b.lt(&c) && !c.lt(&b));
    assert!(b.le(&c) && c.le(&b) && a.le(&b) && !b.le(&a));
    assert!(b.eq_value(&c) && !a.eq_value(&b));
    assert!(a.is_negative() && !b.is_negative() && !Rational::zero().is_negative());
    assert!(Rational::zero().is_zero() && !a.is_zero());
    assert!(ratio(i64::MAX, 1).lt(&ratio(i64::MAX, 1)) == false);
    assert!(ratio(1, i64::MAX).lt(&ratio(1, i64::MAX - 1)));
    assert!(ratio(-i64::MAX, 1).lt(&ratio(i64::MAX, 1)));
}

#[test]
fn whole_numbers_have_denominator_one() {
    let n = Rational::from_int(-42);
    assert_eq!((n.numer(), n.denom()), (-42, 1));
    assert_eq!(Rational::from_int(i32::MIN).numer(), i32::MIN as i64);
    assert_eq!(Rational::one().numer(), 1);
    assert_eq!(Rational::zero().denom(), 1);
}
