//! Exact rational arithmetic and interval fitting.

use tree_game::interval::Interval;
use tree_game::line::{line_line_intersect, Line};
use tree_game::point::Point2;
use tree_game::rat::Rat;

#[test]
fn add_reduces_to_lowest_terms() {
    let r = Rat::new(1, 2).add(Rat::new(1, 3)).unwrap();
    assert_eq!(r.num(), 5);
    assert_eq!(r.den(), 6);
}

#[test]
fn sub_crosses_zero() {
    let r = Rat::new(1, 4).sub(Rat::new(3, 4)).unwrap();
    assert!(r.value_eq(Rat::new(-1, 2)));
    assert_eq!(r.num(), -1);
    assert_eq!(r.den(), 2);
}

#[test]
fn mul_reduces() {
    let r = Rat::new(2, 3).mul(Rat::new(9, 4)).unwrap();
    assert_eq!(r.num(), 3);
    assert_eq!(r.den(), 2);
}

#[test]
fn div_by_negative_keeps_denominator_positive() {
    let r = Rat::new(1, 2).div(Rat::new(-1, 3)).unwrap();
    assert_eq!(r.num(), -3);
    assert_eq!(r.den(), 2);
}

#[test]
fn neg_and_abs() {
    let r = Rat::new(-7, 3);
    let n = r.neg().unwrap();
    assert!(n.value_eq(Rat::new(7, 3)));
    let a = r.abs().unwrap();
    assert!(a.value_eq(Rat::new(7, 3)));
}

#[test]
fn pow_exact() {
    let r = Rat::new(2, 3).pow(3).unwrap();
    assert_eq!(r.num(), 8);
    assert_eq!(r.den(), 27);
    let one = Rat::new(5, 7).pow(0).unwrap();
    assert!(one.value_eq(Rat::from_int(1)));
}

#[test]
fn comparisons() {
    let a = Rat::new(1, 3);
    let b = Rat::new(2, 6);
    let c = Rat::new(1, 2);
    assert!(a.value_eq(b));
    assert!(a.le(b));
    assert!(!a.lt(b));
    assert!(a.lt(c));
    assert!(!c.le(a));
    assert!(Rat::zero().is_zero());
    assert!(!a.is_zero());
}

#[test]
fn addition_overflow_is_reported() {
    let big = Rat::new(i64::MAX, 1);
    assert!(big.add(big).is_none());
}

#[test]
fn reduction_rescues_large_intermediates() {
    // 1/3 + 2/3 has unreduced form 9/9 but is stored as 1/1.
    let s = Rat::new(1, 3).add(Rat::new(2, 3)).unwrap();
    assert_eq!(s.num(), 1);
    assert_eq!(s.den(), 1);
    // The reduced value must itself fit: (MAX + 1) / 3 does not.
    let r = Rat::new(i64::MAX, 3).add(Rat::new(1, 3));
    assert!(r.is_none());
}

#[test]
fn interval_contains_is_closed() {
    let iv = Interval::new(Rat::new(1, 2), Rat::new(3, 2));
    assert!(iv.contains(Rat::new(1, 2)));
    assert!(iv.contains(Rat::from_int(1)));
    assert!(iv.contains(Rat::new(3, 2)));
    assert!(!iv.contains(Rat::new(2, 1)));
    assert!(!iv.contains(Rat::new(1, 4)));
}

#[test]
fn interval_scale() {
    let iv = Interval::new(Rat::from_int(1), Rat::from_int(2));
    let s = iv.scale(Rat::new(1, 2)).unwrap();
    assert!(s.get_start().value_eq(Rat::new(1, 2)));
    assert!(s.get_end().value_eq(Rat::from_int(1)));
}

#[test]
fn fit_preserves_endpoints() {
    let src = Interval::new(Rat::from_int(0), Rat::from_int(2));
    let dst = Interval::new(Rat::from_int(10), Rat::from_int(20));
    let lo = src.fit_point_to(Rat::from_int(0), dst).unwrap();
    let hi = src.fit_point_to(Rat::from_int(2), dst).unwrap();
    assert!(lo.value_eq(Rat::from_int(10)));
    assert!(hi.value_eq(Rat::from_int(20)));
}

#[test]
fn fit_is_affine_and_monotonic() {
    let src = Interval::new(Rat::from_int(0), Rat::from_int(2));
    let dst = Interval::new(Rat::from_int(10), Rat::from_int(20));
    let mid = src.fit_point_to(Rat::from_int(1), dst).unwrap();
    assert!(mid.value_eq(Rat::from_int(15)));
    let a = src.fit_point_to(Rat::new(1, 2), dst).unwrap();
    let b = src.fit_point_to(Rat::new(3, 2), dst).unwrap();
    assert!(a.lt(b));
    assert!(a.value_eq(Rat::new(25, 2)));
    assert!(b.value_eq(Rat::new(35, 2)));
}

#[test]
fn fit_into_reversed_interval() {
    // A decreasing target flips the orientation but keeps endpoints.
    let src = Interval::new(Rat::from_int(0), Rat::from_int(1));
    let dst = Interval::new(Rat::from_int(5), Rat::from_int(3));
    let lo = src.fit_point_to(Rat::from_int(0), dst).unwrap();
    let hi = src.fit_point_to(Rat::from_int(1), dst).unwrap();
    assert!(lo.value_eq(Rat::from_int(5)));
    assert!(hi.value_eq(Rat::from_int(3)));
}

#[test]
fn segment_intersection_parameters() {
    let a = Line::new(
        Point2::new(Rat::zero(), Rat::zero()),
        Point2::new(Rat::from_int(1), Rat::zero()),
    );
    let b = Line::new(
        Point2::new(Rat::new(1, 2), Rat::from_int(-1)),
        Point2::new(Rat::new(1, 2), Rat::from_int(1)),
    );
    let (t, s) = line_line_intersect(&a, &b).unwrap().unwrap();
    assert!(t.value_eq(Rat::new(1, 2)));
    assert!(s.value_eq(Rat::new(1, 2)));
}

#[test]
fn parallel_segments_do_not_intersect() {
    let a = Line::new(
        Point2::new(Rat::zero(), Rat::zero()),
        Point2::new(Rat::from_int(1), Rat::zero()),
    );
    let b = Line::new(
        Point2::new(Rat::zero(), Rat::from_int(1)),
        Point2::new(Rat::from_int(1), Rat::from_int(1)),
    );
    assert!(line_line_intersect(&a, &b).unwrap().is_none());
}
