use turtles::IndexedStep;
use turtles::get_critical_number;

#[test]
fn finds_violation_after_one_shift() {
    let steps: Vec<u128> = vec![5, 4, 7, 9, 14];
    let answer = get_critical_number(&steps, 3);
    assert_eq!(answer, Some(IndexedStep { step: 14, index: 4 }));
}

#[test]
fn safe_when_every_step_is_covered() {
    let steps: Vec<u128> = vec![5, 4, 9];
    let answer = get_critical_number(&steps, 2);
    assert_eq!(answer, None);
}

#[test]
fn vacuously_safe_when_seeding_consumes_everything() {
    let steps: Vec<u128> = vec![5, 4, 18];
    let answer = get_critical_number(&steps, 3);
    assert_eq!(answer, None);
}

#[test]
fn safe_on_empty_sequence() {
    let steps: Vec<u128> = vec![];
    assert_eq!(get_critical_number(&steps, 1), None);
    assert_eq!(get_critical_number(&steps, 5), None);
}

#[test]
fn safe_when_sequence_is_shorter_than_window() {
    let steps: Vec<u128> = vec![1, 2];
    assert_eq!(get_critical_number(&steps, 5), None);
}

#[test]
fn equal_valued_occurrences_pair_in_scan() {
    let steps: Vec<u128> = vec![1, 1, 2];
    assert_eq!(get_critical_number(&steps, 2), None);
}

#[test]
fn window_of_one_never_covers_a_step() {
    let steps: Vec<u128> = vec![5, 10];
    assert_eq!(get_critical_number(&steps, 1), Some(IndexedStep { step: 10, index: 1 }));
}

#[test]
fn first_step_after_seed_can_fail() {
    let steps: Vec<u128> = vec![1, 2, 100];
    assert_eq!(get_critical_number(&steps, 2), Some(IndexedStep { step: 100, index: 2 }));
}

#[test]
fn step_smaller_than_whole_window_fails() {
    // 3 is below every window value, so the ordered search exits at once.
    let steps: Vec<u128> = vec![5, 4, 7, 3];
    assert_eq!(get_critical_number(&steps, 3), Some(IndexedStep { step: 3, index: 3 }));
}

#[test]
fn zero_step_is_never_covered() {
    // Two zero occurrences are live, but the ordered search stops as soon as
    // the smallest value reaches the candidate, so a zero step always fails.
    let steps: Vec<u128> = vec![0, 0, 0];
    assert_eq!(get_critical_number(&steps, 2), Some(IndexedStep { step: 0, index: 2 }));
}

#[test]
fn finds_violation_in_longer_sequence() {
    let steps: Vec<u128> = vec![
        35, 20, 15, 25, 47, 40, 62, 55, 65, 95, 102, 117, 150, 182, 127, 219, 299, 277, 309, 576,
    ];
    let answer = get_critical_number(&steps, 5);
    assert_eq!(answer, Some(IndexedStep { step: 127, index: 14 }));
}

#[test]
fn scan_stops_at_first_violation() {
    // Both 50 and 60 are uncovered; only the first is reported.
    let steps: Vec<u128> = vec![1, 2, 50, 60];
    assert_eq!(get_critical_number(&steps, 2), Some(IndexedStep { step: 50, index: 2 }));
}

#[test]
fn repeated_scans_agree() {
    let steps: Vec<u128> = vec![5, 4, 7, 9, 14, 28, 20];
    let first = get_critical_number(&steps, 3);
    let second = get_critical_number(&steps, 3);
    assert_eq!(first, second);
    let safe_steps: Vec<u128> = vec![1, 1, 2, 3, 5, 8];
    assert_eq!(get_critical_number(&safe_steps, 2), get_critical_number(&safe_steps, 2));
    assert_eq!(get_critical_number(&safe_steps, 2), None);
}
