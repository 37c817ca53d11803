use archimedes::rational::Rational;
use std::cmp::Ordering;

#[test]
fn rational_test() {
    // Math ops
    assert!(Rational::new(1, 2) + Rational::new(1, 2) == Rational::from(1));
    assert!(Rational::new(1, 2) - Rational::new(1, 2) == Rational::from(0));
    assert!(Rational::new(1, 2) * Rational::new(1, 2) == Rational::new(1, 4));
    assert!(Rational::new(1, 2) / 2 == Rational::new(1, 4));

    // Comparisons
    assert!(Rational::new(1, 3) < Rational::new(1, 2));
    assert!(Rational::from(1) > Rational::new(1, 2));

    // Absolute value
    assert_eq!(Rational::new(-2, -4).simplify().abs().numerator(), 1);
}

#[test]
fn arithmetic_is_unreduced() {
    let s = Rational::new(1, 2) + Rational::new(1, 3);
    assert_eq!((s.numerator(), s.denominator()), (5, 6));
    let s = Rational::new(1, 2) + Rational::new(1, 2);
    assert_eq!((s.numerator(), s.denominator()), (4, 4));
    let d = Rational::new(1, 2) - Rational::new(3, 4);
    assert_eq!((d.numerator(), d.denominator()), (-2, 8));
    let p = Rational::new(2, 3) * Rational::new(-3, 5);
    assert_eq!((p.numerator(), p.denominator()), (-6, 15));
    let q = Rational::new(1, 2) / Rational::new(3, 4);
    assert_eq!((q.numerator(), q.denominator()), (4, 6));
    assert!(Rational::new(1, 2) / Rational::from(2) == Rational::new(1, 4));
    let q = Rational::new(1, 2) / -3;
    assert_eq!((q.numerator(), q.denominator()), (1, -6));
}

#[test]
fn negation_keeps_the_sign_where_it_was() {
    let n = -Rational::new(1, -2);
    assert_eq!((n.numerator(), n.denominator()), (1, 2));
    let n = -Rational::new(1, 2);
    assert_eq!((n.numerator(), n.denominator()), (-1, 2));
    let n = -Rational::new(-3, 4);
    assert_eq!((n.numerator(), n.denominator()), (3, 4));
}

#[test]
fn compound_assignment() {
    let mut x = Rational::new(1, 2);
    x.add_assign(Rational::new(1, 3));
    assert_eq!((x.numerator(), x.denominator()), (5, 6));
    x.sub_assign(Rational::new(1, 6));
    assert_eq!((x.numerator(), x.denominator()), (24, 36));
    x.mul_assign(Rational::new(3, 2));
    assert_eq!((x.numerator(), x.denominator()), (72, 72));
    x.div_assign(Rational::new(2, 1));
    assert_eq!((x.numerator(), x.denominator()), (72, 144));
    x.div_assign_int(-2);
    assert_eq!((x.numerator(), x.denominator()), (72, -288));
}

#[test]
fn equality_is_by_cross_products() {
    assert!(Rational::new(1, 2) == Rational::new(-1, -2));
    assert!(Rational::new(2, 4) == Rational::new(1, 2));
    assert!(Rational::new(1, 2) != Rational::new(-1, 2));
    assert!(Rational::new(0, 5) == Rational::new(0, -3));
    assert!(Rational::new(i64::MAX, i64::MAX) == Rational::new(i64::MIN, i64::MIN));
}

#[test]
fn ordering_respects_denominator_signs() {
    assert!(Rational::new(1, -2) < Rational::new(1, 3));
    assert!(Rational::new(-1, 2) < Rational::new(1, -3));
    assert!(Rational::new(-1, -2) > Rational::new(1, 3));
    assert_eq!(Rational::new(2, 4).partial_cmp(&Rational::new(-1, -2)), Some(Ordering::Equal));
    assert!(Rational::new(3, 1) >= Rational::new(6, 2));
    assert!(Rational::new(3, 1) <= Rational::new(6, 2));
}

#[test]
fn ordering_at_the_integer_boundary() {
    assert!(Rational::new(i64::MIN, -1) > Rational::new(i64::MAX, 1));
    assert!(Rational::new(i64::MIN, 1) < Rational::new(i64::MIN + 1, 1));
    assert!(Rational::new(1, i64::MIN) < Rational::new(1, i64::MAX));
    assert!(Rational::new(i64::MAX, i64::MIN) < Rational::new(-1, 2));
}

#[test]
fn simplify_reduces_and_keeps_signs() {
    let s = Rational::new(6, -8).simplify();
    assert_eq!((s.numerator(), s.denominator()), (3, -4));
    // gcd(0, 5) is 5, so a zero numerator brings the denominator down to one.
    let s = Rational::new(0, 5).simplify();
    assert_eq!((s.numerator(), s.denominator()), (0, 1));
    let s = Rational::new(0, -5).simplify();
    assert_eq!((s.numerator(), s.denominator()), (0, -1));
    let s = Rational::new(3, 7).simplify();
    assert_eq!((s.numerator(), s.denominator()), (3, 7));
    let s = Rational::new(i64::MIN, i64::MIN).simplify();
    assert_eq!((s.numerator(), s.denominator()), (-1, -1));
    let s = Rational::new(-2, -4).simplify();
    assert_eq!((s.numerator(), s.denominator()), (-1, -2));
}

#[test]
fn simplify_is_idempotent() {
    for (t, b) in [(6, -8), (0, 5), (12, 18), (-100, 75), (i64::MIN, 2)] {
        let once = Rational::new(t, b).simplify();
        let twice = once.simplify();
        assert_eq!(
            (once.numerator(), once.denominator()),
            (twice.numerator(), twice.denominator())
        );
    }
}

#[test]
fn flip_signs_moves_the_sign_to_the_numerator() {
    let f = Rational::new(1, -2).flip_signs();
    assert_eq!((f.numerator(), f.denominator()), (-1, 2));
    let f = Rational::new(-1, -2).flip_signs();
    assert_eq!((f.numerator(), f.denominator()), (1, 2));
    let f = Rational::new(-1, 2).flip_signs();
    assert_eq!((f.numerator(), f.denominator()), (-1, 2));
    let twice = Rational::new(3, 4).flip_signs().flip_signs();
    assert_eq!((twice.numerator(), twice.denominator()), (3, 4));
}

#[test]
fn abs_takes_magnitudes() {
    let a = Rational::new(-3, 4).abs();
    assert_eq!((a.numerator(), a.denominator()), (3, 4));
    let a = Rational::new(3, -4).abs();
    assert_eq!((a.numerator(), a.denominator()), (3, 4));
}

#[test]
fn construction_and_defaults() {
    let z = Rational::default();
    assert_eq!((z.numerator(), z.denominator()), (0, 1));
    let f = Rational::from(-7);
    assert_eq!((f.numerator(), f.denominator()), (-7, 1));
    assert!(Rational::try_new(3, 0).is_none());
    assert!(Rational::try_new(i64::MIN, 0).is_none());
    let t = Rational::try_new(3, -5).unwrap();
    assert_eq!((t.numerator(), t.denominator()), (3, -5));
}

#[test]
fn checked_arithmetic_reports_overflow() {
    let big = Rational::new(i64::MAX, 1);
    assert!(big.checked_add(&Rational::new(1, 1)).is_none());
    assert!(big.checked_add(&Rational::new(-1, 1)).is_some());
    assert!(Rational::new(i64::MIN, 1).checked_sub(&Rational::new(1, 1)).is_none());
    assert!(big.checked_mul(&Rational::new(2, 1)).is_none());
    assert!(Rational::new(1, i64::MAX).checked_mul(&Rational::new(1, 2)).is_none());
    assert!(Rational::new(1, 2).checked_div(&Rational::new(0, 3)).is_none());
    assert!(Rational::new(i64::MAX, 1).checked_div(&Rational::new(1, 2)).is_none());
    let q = Rational::new(i64::MIN, 1).checked_div(&Rational::new(-1, 1)).unwrap();
    assert_eq!((q.numerator(), q.denominator()), (i64::MIN, -1));
    let s = Rational::new(1, 2).checked_add(&Rational::new(1, 3)).unwrap();
    assert_eq!((s.numerator(), s.denominator()), (5, 6));
    let d = Rational::new(1, 2).checked_sub(&Rational::new(1, 3)).unwrap();
    assert_eq!((d.numerator(), d.denominator()), (1, 6));
    let p = Rational::new(1, 2).checked_mul(&Rational::new(1, 2)).unwrap();
    assert_eq!((p.numerator(), p.denominator()), (1, 4));
    let q = Rational::new(1, 2).checked_div(&Rational::new(2, 1)).unwrap();
    assert_eq!((q.numerator(), q.denominator()), (1, 4));
    let edge = Rational::new(i64::MIN, 1).checked_add(&Rational::new(i64::MIN, 1));
    assert!(edge.is_none());
    let edge = Rational::new(i64::MIN, 1).checked_sub(&Rational::new(i64::MIN, 1)).unwrap();
    assert_eq!((edge.numerator(), edge.denominator()), (0, 1));
}
