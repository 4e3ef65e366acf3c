use recipies::rat::Rat;

fn r(n: i64, d: i64) -> Rat {
    Rat::new(n, d).unwrap()
}

#[test]
fn construction_reduces_to_lowest_terms() {
    assert_eq!(r(2, 4), r(1, 2));
    assert_eq!(r(-6, 8), r(-3, 4));
    assert_eq!(r(3, -6), r(-1, 2));
    assert_eq!(r(0, 7), r(0, 1));
    assert_eq!(r(5, 1).numerator(), 5);
    assert_eq!(r(5, 1).denominator(), 1);
}

#[test]
fn zero_denominator_is_rejected() {
    assert!(Rat::new(1, 0).is_none());
    assert!(Rat::new(0, 0).is_none());
}

#[test]
fn arithmetic_is_exact() {
    assert_eq!(r(1, 2).plus(r(1, 3)).unwrap(), r(5, 6));
    assert_eq!(r(1, 2).minus(r(1, 3)).unwrap(), r(1, 6));
    assert_eq!(r(1, 2).times(r(2, 3)).unwrap(), r(1, 3));
    assert_eq!(r(1, 2).over(r(3, 4)).unwrap(), r(2, 3));
    assert_eq!(r(-7, 3).negate(), r(7, 3));
    assert_eq!(r(-7, 3).abs_val(), r(7, 3));
}

#[test]
fn division_by_zero_is_none() {
    assert!(r(1, 2).over(r(0, 1)).is_none());
}

#[test]
fn comparisons_follow_the_rational_order() {
    assert!(r(1, 3).lt(r(1, 2)));
    assert!(r(-1, 2).lt(r(1, 3)));
    assert!(r(1, 2).le(r(1, 2)));
    assert!(r(2, 4).eq_val(r(1, 2)));
    assert!(!r(1, 2).lt(r(1, 2)));
    assert!(r(0, 1).is_zero());
    assert!(!r(1, 5).is_zero());
}

#[test]
fn overflow_is_reported_as_none() {
    let big = Rat::new(i64::MAX, 1).unwrap();
    assert!(big.plus(big).is_none());
    assert!(big.times(big).is_none());
}

#[test]
fn from_int_and_constants() {
    assert_eq!(Rat::from_int(7), r(7, 1));
    assert_eq!(Rat::zero(), r(0, 1));
    assert_eq!(Rat::one(), r(1, 1));
}
