use numgen::estimate::heuristic_estimate;
use numgen::ladder::{LadderPath, Step};
use numgen::{LatticePath, SignedRatio, UnsignedRatio};

fn ur(numer: u64, denom: u64) -> UnsignedRatio {
    UnsignedRatio { numer, denom }
}

#[test]
fn ratios_compare_by_value() {
    assert!(ur(1, 2).same_value(&ur(2, 4)));
    assert!(!ur(1, 2).same_value(&ur(1, 3)));
    assert!(ur(1, 3).le(&ur(1, 2)));
    assert!(!ur(2, 3).le(&ur(1, 2)));
    assert!(ur(u64::MAX, 1).le(&ur(u64::MAX, 1)));
    assert!(ur(4, 2).is_integer());
    assert!(!ur(3, 2).is_integer());
    assert!(ur(0, 7).is_zero());
}

#[test]
fn magnitude_and_sign() {
    let t = SignedRatio { numer: -3, denom: 4 };
    assert!(t.is_negative());
    assert_eq!(t.unsigned_abs(), ur(3, 4));
    let m = SignedRatio { numer: i64::MIN, denom: 1 };
    assert_eq!(m.unsigned_abs(), ur(1u64 << 63, 1));
    assert!(!SignedRatio { numer: 5, denom: 1 }.is_negative());
}

#[test]
fn estimate_values() {
    assert_eq!(heuristic_estimate(0, &ur(0, 1), &ur(3, 1)), 3);
    assert_eq!(heuristic_estimate(2, &ur(12, 1), &ur(3, 1)), 4);
    assert_eq!(heuristic_estimate(1, &ur(5, 1), &ur(3, 1)), 3);
    assert_eq!(heuristic_estimate(4, &ur(0, 1), &ur(0, 1)), 5);
    assert_eq!(heuristic_estimate(0, &ur(0, 1), &ur(11, 1)), 2);
    assert_eq!(heuristic_estimate(0, &ur(0, 1), &ur(6, 1)), 2);
    assert_eq!(heuristic_estimate(3, &ur(7, 3), &ur(1, 2)), 7);
    assert_eq!(heuristic_estimate(0, &ur(u64::MAX, 1), &ur(1, u64::MAX)), 129);
}

#[test]
fn ladder_moves() {
    let root = LadderPath::zero(false);
    assert_eq!(root.value().numer, 0);
    let a = root.with_angle(&Step::Increment).unwrap();
    assert_eq!(a.value, 2);
    let b = root.with_angle(&Step::Double).unwrap();
    assert_eq!(b.value, 2);
    assert!(root.with_angle(&Step::Decrement).is_none());
    let c = b.with_angle(&Step::Decrement).unwrap();
    assert_eq!((c.value, c.moves), (1, 2));
    assert!(a.is_better_than(&b));
    assert!(!b.is_better_than(&a));
    assert!(a.should_replace(&None));
    assert!(a.should_replace(&Some(b)));
    assert!(!b.should_replace(&Some(a)));
    assert_eq!(LadderPath::directions().len(), 3);
}
