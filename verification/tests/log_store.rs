use raft_core::log_store::{
    apply_range, batch_follows, find_conflict, is_up_to_date, last_term_of, matches_prev, merge_at,
    tail_from, term_of,
};
use raft_core::Log;

fn entry(index: usize, term: usize, delta: i32) -> Log {
    Log { index, delta, term }
}

fn sample() -> Vec<Log> {
    vec![entry(1, 1, 10), entry(2, 1, 20), entry(3, 2, 30)]
}

#[test]
fn last_term_of_empty_log_is_zero() {
    assert_eq!(last_term_of(&Vec::new()), 0);
}

#[test]
fn last_term_of_takes_the_last_entry() {
    assert_eq!(last_term_of(&sample()), 2);
}

#[test]
fn term_of_looks_up_by_one_based_index() {
    let log = sample();
    assert_eq!(term_of(&log, 0), 0);
    assert_eq!(term_of(&log, 1), 1);
    assert_eq!(term_of(&log, 2), 1);
    assert_eq!(term_of(&log, 3), 2);
    assert_eq!(term_of(&log, 4), 0);
}

#[test]
fn up_to_date_compares_term_first_then_index() {
    let log = sample();
    assert!(is_up_to_date(3, 0, &log));
    assert!(is_up_to_date(2, 3, &log));
    assert!(is_up_to_date(2, 7, &log));
    assert!(!is_up_to_date(2, 2, &log));
    assert!(!is_up_to_date(1, 9, &log));
    assert!(is_up_to_date(0, 0, &Vec::new()));
}

#[test]
fn prev_index_zero_always_matches() {
    assert!(matches_prev(&Vec::new(), 0, 0));
    assert!(matches_prev(&sample(), 0, 5));
}

#[test]
fn prev_must_be_held_with_the_same_term() {
    let log = sample();
    assert!(matches_prev(&log, 2, 1));
    assert!(matches_prev(&log, 3, 2));
    assert!(!matches_prev(&log, 3, 1));
    assert!(!matches_prev(&log, 4, 2));
}

#[test]
fn batch_must_be_numbered_from_prev() {
    assert!(batch_follows(&Vec::new(), 7));
    assert!(batch_follows(&vec![entry(4, 2, 1), entry(5, 2, 1)], 3));
    assert!(!batch_follows(&vec![entry(4, 2, 1), entry(6, 2, 1)], 3));
    assert!(!batch_follows(&vec![entry(3, 2, 1)], 3));
    assert!(!batch_follows(&vec![entry(1, 2, 1)], 3));
}

#[test]
fn conflict_is_the_first_entry_missing_or_of_another_term() {
    let log = sample();
    assert_eq!(find_conflict(&log, 1, &vec![entry(2, 1, 20), entry(3, 2, 30)]), 2);
    assert_eq!(find_conflict(&log, 1, &vec![entry(2, 1, 20), entry(3, 3, 99)]), 1);
    assert_eq!(find_conflict(&log, 3, &vec![entry(4, 2, 40)]), 0);
    assert_eq!(find_conflict(&log, 2, &vec![entry(3, 2, 30), entry(4, 2, 40)]), 1);
    assert_eq!(find_conflict(&log, 0, &Vec::new()), 0);
    assert_eq!(find_conflict(&log, 5, &vec![entry(6, 2, 1)]), 0);
}

#[test]
fn merge_leaves_an_agreeing_log_unchanged() {
    let mut log = sample();
    let batch = vec![entry(2, 1, 20)];
    let j = find_conflict(&log, 1, &batch);
    merge_at(&mut log, 1, &batch, j);
    assert_eq!(log, sample());
}

#[test]
fn merge_cuts_at_the_conflict_and_appends_the_rest() {
    let mut log = sample();
    let batch = vec![entry(2, 1, 20), entry(3, 3, 33), entry(4, 3, 44)];
    let j = find_conflict(&log, 1, &batch);
    assert_eq!(j, 1);
    merge_at(&mut log, 1, &batch, j);
    assert_eq!(log, vec![entry(1, 1, 10), entry(2, 1, 20), entry(3, 3, 33), entry(4, 3, 44)]);
}

#[test]
fn merge_appends_to_a_shorter_log() {
    let mut log = sample();
    let batch = vec![entry(4, 2, 40), entry(5, 2, 50)];
    let j = find_conflict(&log, 3, &batch);
    merge_at(&mut log, 3, &batch, j);
    assert_eq!(log.len(), 5);
    assert_eq!(log[4], entry(5, 2, 50));
}

#[test]
fn tail_from_copies_the_entries_after_start() {
    let log = sample();
    assert_eq!(tail_from(&log, 0), sample());
    assert_eq!(tail_from(&log, 2), vec![entry(3, 2, 30)]);
    assert_eq!(tail_from(&log, 3), Vec::new());
}

#[test]
fn apply_range_adds_the_deltas_in_order() {
    let log = sample();
    assert_eq!(apply_range(0, &log, 0, 3), 60);
    assert_eq!(apply_range(10, &log, 1, 3), 60);
    assert_eq!(apply_range(30, &log, 2, 2), 30);
}

#[test]
fn apply_range_wraps_around() {
    let log = vec![entry(1, 1, i32::MAX), entry(2, 1, 1)];
    assert_eq!(apply_range(0, &log, 0, 2), i32::MIN);
}
