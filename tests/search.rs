use numgen::{AStarPathGenerator, LadderPath, SignedRatio};

fn search(numer: i64, denom: u64, trim_larger: bool, allow_fractions: bool) -> Option<LadderPath> {
    AStarPathGenerator::<LadderPath>::new(SignedRatio { numer, denom }, trim_larger, allow_fractions).run()
}

#[test]
fn zero_target_gives_empty_path_for_every_flag() {
    for trim in [false, true] {
        for frac in [false, true] {
            let p = search(0, 1, trim, frac).expect("a zero target is always met");
            assert_eq!(p.moves, 0);
            assert_eq!(p.value, 0);
            assert!(!p.negative);
        }
    }
}

#[test]
fn target_three_takes_two_increments() {
    let p = search(3, 1, true, true).expect("three is reachable");
    assert_eq!(p.value, 3);
    assert_eq!(p.moves, 2);
    assert_eq!(p.increments, 2);
    assert_eq!(p.doublings, 0);
    assert_eq!(p.decrements, 0);
}

#[test]
fn half_without_fractions_is_absent() {
    assert_eq!(search(1, 2, false, false), None);
}

#[test]
fn half_is_absent_on_whole_number_ladder() {
    assert_eq!(search(1, 2, false, true), None);
    assert_eq!(search(2, 4, true, true), None);
}

#[test]
fn target_beyond_reach_is_absent() {
    assert_eq!(search(1000, 1, true, true), None);
}

#[test]
fn trim_larger_forbids_overshoot() {
    let free = search(15, 1, false, true).expect("fifteen is reachable");
    assert_eq!(free.value, 15);
    assert_eq!(free.moves, 5);
    assert_eq!(free.decrements, 1);
    let trimmed = search(15, 1, true, true).expect("fifteen is reachable without overshoot");
    assert_eq!(trimmed.value, 15);
    assert_eq!(trimmed.moves, 6);
    assert_eq!(trimmed.decrements, 0);
}

#[test]
fn fewest_moves_then_fewest_doublings() {
    let free = search(15, 1, false, true).unwrap();
    assert_eq!((free.moves, free.doublings), (5, 3));
    let trimmed = search(15, 1, true, true).unwrap();
    assert_eq!((trimmed.moves, trimmed.doublings), (6, 2));
    let six = search(6, 1, true, false).unwrap();
    assert_eq!((six.moves, six.doublings), (3, 1));
}

#[test]
fn runs_are_deterministic() {
    for target in [3i64, 6, 15, 22] {
        for trim in [false, true] {
            assert_eq!(search(target, 1, trim, true), search(target, 1, trim, true));
        }
    }
}

#[test]
fn result_value_equals_target() {
    for target in 1i64..=20 {
        let p = search(target, 1, false, false).expect("small whole numbers are reachable");
        assert_eq!(p.value as i64, target);
    }
}

#[test]
fn negative_target_keeps_sign() {
    let p = search(-3, 1, true, true).expect("minus three is reachable");
    assert!(p.negative);
    assert_eq!(p.value, 3);
    assert_eq!(p.moves, 2);
}

#[test]
fn whole_number_written_as_fraction_is_found() {
    let p = search(6, 2, true, false).expect("six halves is three");
    assert_eq!(p.value, 3);
    assert_eq!(p.moves, 2);
}

