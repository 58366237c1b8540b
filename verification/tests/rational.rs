use rhythm_core::rat::Rat;

#[test]
fn construction_checks_the_parts() {
    assert!(Rat::new(1, 2).is_some());
    assert!(Rat::new(-3, 2).is_some());
    assert!(Rat::new(1, 0).is_none());
    assert!(Rat::new(1, -2).is_none());
    assert!(Rat::new(i64::MIN, 2).is_none());
}

#[test]
fn sums_are_exact_and_reduced() {
    let half = Rat::new(2, 4).unwrap();
    let one = half.add(&half).unwrap();
    assert_eq!(one, Rat::from_int(1));
    let third = Rat::new(1, 3).unwrap();
    let sum = half.add(&third).unwrap();
    assert_eq!(sum, Rat::new(5, 6).unwrap());
}

#[test]
fn differences_products_quotients() {
    let a = Rat::new(7, 2).unwrap();
    let b = Rat::new(1, 6).unwrap();
    assert_eq!(a.sub(&b).unwrap(), Rat::new(10, 3).unwrap());
    assert_eq!(a.mul(&b).unwrap(), Rat::new(7, 12).unwrap());
    assert_eq!(a.div(&b).unwrap(), Rat::from_int(21));
    let neg = b.sub(&a).unwrap();
    assert_eq!(neg, Rat::new(-10, 3).unwrap());
}

#[test]
fn overflow_is_reported() {
    let big = Rat::new(i64::MAX, 1).unwrap();
    assert!(big.add(&big).is_none());
    assert!(big.mul(&big).is_none());
    // the same magnitudes cancel instead of overflowing
    assert_eq!(big.sub(&big).unwrap(), Rat::from_int(0));
    let tiny = Rat::new(1, i64::MAX).unwrap();
    assert!(tiny.mul(&tiny).is_none());
    assert_eq!(tiny.div(&tiny).unwrap(), Rat::from_int(1));
}

#[test]
fn comparisons_follow_values() {
    let a = Rat::new(1, 3).unwrap();
    let b = Rat::new(2, 6).unwrap();
    let c = Rat::new(1, 2).unwrap();
    assert!(a.eq_val(&b));
    assert!(!a.eq_val(&c));
    assert!(a.le(&c));
    assert!(a.lt(&c));
    assert!(!c.le(&a));
    assert!(a.le(&b));
    assert!(!a.lt(&b));
    assert!(Rat::new(-1, 2).unwrap().lt(&Rat::from_int(0)));
}

#[test]
fn zero_and_sign_tests() {
    assert!(Rat::new(0, 5).unwrap().is_zero());
    assert!(!Rat::new(1, 5).unwrap().is_zero());
    assert!(Rat::new(1, 5).unwrap().is_pos());
    assert!(!Rat::new(-1, 5).unwrap().is_pos());
    assert!(!Rat::from_int(0).is_pos());
}

#[test]
fn min_max_and_abs_diff() {
    let a = Rat::new(1, 3).unwrap();
    let c = Rat::new(1, 2).unwrap();
    assert_eq!(a.min(&c), a);
    assert_eq!(a.max(&c), c);
    assert_eq!(c.min(&a), a);
    assert_eq!(c.max(&a), c);
    assert_eq!(a.abs_diff(&c).unwrap(), Rat::new(1, 6).unwrap());
    assert_eq!(c.abs_diff(&a).unwrap(), Rat::new(1, 6).unwrap());
    assert_eq!(a.abs_diff(&a).unwrap(), Rat::from_int(0));
}
