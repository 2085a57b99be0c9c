use rustmania::fraction::{gcd, Fraction};

#[test]
fn fractions_simplify() {
    let half = Fraction::new(1, 2);
    let alt_half = Fraction::new(2, 4);
    assert_eq!(half, alt_half);
}

#[test]
fn negatives_simplify() {
    let neg_third = Fraction::new(-1, 3);
    let alt_neg_third = Fraction::new(-4, 12);
    assert_eq!(neg_third, alt_neg_third);
}

#[test]
fn zeros_equal() {
    let zero = Fraction::new(0, 2);
    let other_zero = Fraction::new(0, 3);
    assert_eq!(zero, other_zero);
}

#[test]
fn reject_nan() {
    let nan = Fraction::new(2, 0);
    assert_eq!(nan, None);
}

#[test]
fn it_works() {
    assert_eq!(2 + 2, 4);
}

#[test]
fn gcd_of_known_pairs() {
    assert_eq!(gcd(12, 18), 6);
    assert_eq!(gcd(18, 12), 6);
    assert_eq!(gcd(7, 13), 1);
    assert_eq!(gcd(0, 5), 5);
    assert_eq!(gcd(5, 0), 5);
    assert_eq!(gcd(0, 0), 0);
    assert_eq!(gcd(192, 64), 64);
}

#[test]
fn contents_are_in_lowest_terms() {
    assert_eq!(Fraction::new(6, 8).unwrap().contents(), (3, 4));
    assert_eq!(Fraction::new(-6, 8).unwrap().contents(), (-3, 4));
    assert_eq!(Fraction::new(0, 7).unwrap().contents(), (0, 1));
    assert_eq!(Fraction::new(5, 1).unwrap().contents(), (5, 1));
}

#[test]
fn extreme_numerators_simplify() {
    assert_eq!(
        Fraction::new(i64::MIN, 1 << 63).unwrap().contents(),
        (-1, 1)
    );
    assert_eq!(
        Fraction::new(i64::MIN, 1 << 62).unwrap().contents(),
        (-2, 1)
    );
    assert_eq!(
        Fraction::new(i64::MAX, i64::MAX as u64).unwrap().contents(),
        (1, 1)
    );
    assert_eq!(Fraction::new(i64::MIN, 2).unwrap().contents(), (i64::MIN / 2, 1));
    assert_eq!(
        Fraction::new(i64::MAX, u64::MAX).unwrap().contents(),
        (i64::MAX, u64::MAX)
    );
    assert_eq!(Fraction::new(1, u64::MAX).unwrap().contents(), (1, u64::MAX));
    assert_eq!(Fraction::new(-3, u64::MAX).unwrap().contents(), (-1, u64::MAX / 3));
    assert_eq!(gcd(u64::MAX, 1), 1);
    assert_eq!(gcd(u64::MAX, u64::MAX - 1), 1);
    assert_eq!(gcd(1 << 63, 1 << 40), 1 << 40);
}

#[test]
fn multiplying_by_a_whole_number() {
    let quarter = Fraction::new(1, 4).unwrap();
    assert_eq!(quarter.mul(2), Fraction::new(1, 2).unwrap());
    assert_eq!(quarter.mul(4).contents(), (1, 1));
    assert_eq!(quarter.mul(-3).contents(), (-3, 4));
    assert_eq!(quarter.mul(0).contents(), (0, 1));
}

#[test]
fn fractions_compare_by_value() {
    let third = Fraction::new(1, 3).unwrap();
    let half = Fraction::new(1, 2).unwrap();
    let minus_half = Fraction::new(-1, 2).unwrap();
    assert!(third.lt(&half));
    assert!(!half.lt(&third));
    assert!(!half.lt(&half));
    assert!(half.le(&half));
    assert!(minus_half.lt(&third));
    assert!(third.is_proper());
    assert!(!minus_half.is_proper());
    assert!(!Fraction::new(1, 1).unwrap().is_proper());
    assert!(Fraction::new(0, 1).unwrap().is_proper());
}
