use raft::log::{
    append_entries, holds_prefix, last_log_term, matching_prefix, payloads_between, suffix,
};
use raft::types::LogEntry;

fn log(terms: &[u64]) -> Vec<LogEntry> {
    terms.iter().enumerate().map(|(i, t)| LogEntry { term: *t, payload: 100 + i as u64 }).collect()
}

#[test]
fn the_last_term_of_an_empty_log_is_zero() {
    assert_eq!(last_log_term(&vec![]), 0);
    assert_eq!(last_log_term(&log(&[1, 4])), 4);
}

#[test]
fn every_log_holds_the_empty_prefix() {
    assert!(holds_prefix(&vec![], -1, 0));
    assert!(holds_prefix(&log(&[1]), -1, 7));
    assert!(!holds_prefix(&vec![], 0, 0));
    assert!(!holds_prefix(&log(&[1]), -2, 1));
    assert!(holds_prefix(&log(&[1, 2]), 1, 2));
    assert!(!holds_prefix(&log(&[1, 2]), 1, 1));
    assert!(!holds_prefix(&log(&[1, 2]), 2, 2));
}

#[test]
fn suffix_and_payloads_slice_the_log() {
    let l = log(&[1, 1, 2]);
    assert_eq!(suffix(&l, 0), l);
    assert_eq!(suffix(&l, 2), vec![LogEntry { term: 2, payload: 102 }]);
    assert!(suffix(&l, 3).is_empty());
    assert_eq!(payloads_between(&l, 0, 3), vec![100, 101, 102]);
    assert_eq!(payloads_between(&l, 1, 2), vec![101]);
    assert!(payloads_between(&l, 2, 2).is_empty());
}

#[test]
fn matching_prefix_counts_entries_that_agree_by_term() {
    let l = log(&[1, 1, 2]);
    assert_eq!(matching_prefix(&l, 0, &log(&[1, 1, 2])), 3);
    assert_eq!(matching_prefix(&l, 1, &log(&[1, 3])), 1);
    assert_eq!(matching_prefix(&l, 2, &log(&[2, 2])), 1);
    assert_eq!(matching_prefix(&l, 3, &log(&[2])), 0);
    assert_eq!(matching_prefix(&l, 0, &vec![]), 0);
}

#[test]
fn append_entries_cuts_only_on_conflict() {
    // Pure append.
    let mut l = log(&[1]);
    append_entries(&mut l, 1, &vec![LogEntry { term: 2, payload: 7 }]);
    assert_eq!(l, vec![LogEntry { term: 1, payload: 100 }, LogEntry { term: 2, payload: 7 }]);
    // Entries already there: nothing changes, the longer log stays.
    let mut l = log(&[1, 1, 2]);
    append_entries(&mut l, 0, &vec![LogEntry { term: 1, payload: 0 }]);
    assert_eq!(l, log(&[1, 1, 2]));
    // A conflict in the middle: cut there, then append the rest.
    let mut l = log(&[1, 1, 2]);
    append_entries(
        &mut l,
        1,
        &vec![LogEntry { term: 1, payload: 0 }, LogEntry { term: 3, payload: 8 }],
    );
    assert_eq!(
        l,
        vec![
            LogEntry { term: 1, payload: 100 },
            LogEntry { term: 1, payload: 101 },
            LogEntry { term: 3, payload: 8 },
        ]
    );
    // No entries: nothing changes.
    let mut l = log(&[1, 1]);
    append_entries(&mut l, 1, &vec![]);
    assert_eq!(l, log(&[1, 1]));
}
