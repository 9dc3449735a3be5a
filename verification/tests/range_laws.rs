//! The range algebra on concrete values: set-algebra laws and the exact
//! singleton range.

use elm_test_deps::range::Range;
use elm_test_deps::version::Version;

fn v(major: u64, minor: u64, patch: u64) -> Version {
    Version::new(major, minor, patch)
}

#[test]
fn intersection_is_commutative() {
    let a = Range::between(v(1, 0, 0), v(2, 0, 0));
    let b = Range::between(v(1, 5, 0), v(3, 0, 0));
    assert_eq!(a.intersection(&b), b.intersection(&a));
    let c = Range::none();
    assert_eq!(a.intersection(&c), c.intersection(&a));
    let d = Range::any();
    assert_eq!(a.intersection(&d), d.intersection(&a));
}

#[test]
fn union_is_commutative() {
    let a = Range::between(v(1, 0, 0), v(2, 0, 0));
    let b = Range::between(v(3, 0, 0), v(4, 0, 0));
    assert_eq!(a.union(&b), b.union(&a));
    let c = Range::higher_than(v(2, 5, 0));
    assert_eq!(a.union(&c), c.union(&a));
}

#[test]
fn intersection_and_union_are_idempotent() {
    let a = Range::between(v(1, 0, 0), v(2, 0, 0)).union(&Range::between(v(3, 0, 0), v(4, 0, 0)));
    assert_eq!(a.intersection(&a), a);
    assert_eq!(a.union(&a), a);
}

#[test]
fn complement_is_involutive() {
    let a = Range::between(v(1, 0, 0), v(2, 0, 0)).union(&Range::higher_than(v(5, 0, 0)));
    assert_eq!(a.complement().complement(), a);
    let e = Range::none();
    assert_eq!(e.complement().complement(), e);
    let f = Range::any();
    assert_eq!(f.complement().complement(), f);
}

#[test]
fn intersection_with_complement_is_empty() {
    let a = Range::between(v(1, 0, 0), v(2, 0, 0));
    let both = a.intersection(&a.complement());
    assert!(both.is_empty());
    assert_eq!(both, Range::none());
}

#[test]
fn contains_agrees_with_complement() {
    let a = Range::between(v(1, 0, 0), v(2, 0, 0)).union(&Range::between(v(3, 0, 0), v(4, 0, 0)));
    let c = a.complement();
    for w in [
        v(0, 9, 9),
        v(1, 0, 0),
        v(1, 5, 3),
        v(2, 0, 0),
        v(2, 5, 0),
        v(3, 0, 0),
        v(3, 9, 9),
        v(4, 0, 0),
        v(100, 0, 0),
    ] {
        assert_eq!(a.contains(&w), !c.contains(&w));
    }
}

#[test]
fn exact_is_a_singleton() {
    let e = Range::exact(v(1, 2, 3));
    assert!(e.contains(&v(1, 2, 3)));
    for w in [v(1, 2, 2), v(1, 2, 4), v(1, 3, 3), v(2, 2, 3), v(0, 0, 0)] {
        assert!(!e.contains(&w));
    }
}

#[test]
fn union_merges_touching_intervals() {
    let a = Range::between(v(1, 0, 0), v(2, 0, 0));
    let b = Range::between(v(2, 0, 0), v(3, 0, 0));
    let joined = a.union(&b);
    assert_eq!(joined, Range::between(v(1, 0, 0), v(3, 0, 0)));
}

#[test]
fn de_morgan_for_union() {
    let a = Range::between(v(1, 0, 0), v(2, 0, 0));
    let b = Range::between(v(1, 5, 0), v(4, 0, 0));
    let left = a.union(&b).complement();
    let right = a.complement().intersection(&b.complement());
    assert_eq!(left, right);
}

#[test]
fn de_morgan_for_intersection() {
    let a = Range::between(v(1, 0, 0), v(2, 0, 0));
    let b = Range::between(v(1, 5, 0), v(4, 0, 0));
    let left = a.intersection(&b).complement();
    let right = a.complement().union(&b.complement());
    assert_eq!(left, right);
}

#[test]
fn subset_and_emptiness() {
    let a = Range::between(v(1, 0, 0), v(2, 0, 0));
    let wide = Range::between(v(0, 1, 0), v(3, 0, 0));
    assert!(a.subset_of(&wide));
    assert!(!wide.subset_of(&a));
    assert!(Range::none().is_empty());
    assert!(!a.is_empty());
    assert!(Range::between(v(2, 0, 0), v(1, 0, 0)).is_empty());
    assert!(Range::strictly_lower_than(v(1, 0, 0)).contains(&v(0, 19, 1)));
}
