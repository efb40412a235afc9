use raft::common::{Command, K, V};
use raft::log::{LogEntry, RaftLog};

fn put(key: &[u8], value: &[u8]) -> Command {
    Command::PUT(K::from(key.to_vec()), V::from(value.to_vec()))
}

fn entry(index: u64, term: u64) -> LogEntry {
    LogEntry::new(index, term, put(b"k", b"v"))
}

fn terms(log: &RaftLog) -> Vec<u64> {
    (log.offset() + 1..=log.latest_log_index()).map(|i| log.term(i)).collect()
}

#[test]
fn new_log_is_empty() {
    let log = RaftLog::new(7);
    assert_eq!(log.offset(), 7);
    assert_eq!(log.len(), 0);
    assert_eq!(log.latest_log_index(), 0);
    assert_eq!(log.latest_log_term(), 0);
    assert_eq!(log.term(7), 0);
    assert_eq!(log.term(100), 0);
    assert!(log.entry(7).is_none());
    assert!(log.entry(8).is_none());
    assert!(log.entries(7, 7).is_empty());
}

#[test]
fn log_entry_new_keeps_its_fields() {
    let e = LogEntry::new(3, 2, Command::GET(K::from(b"x".to_vec())));
    assert_eq!(e.index, 3);
    assert_eq!(e.term, 2);
    assert_eq!(e.command, Command::GET(K::from(b"x".to_vec())));
    assert_eq!(e.clone(), e);
}

#[test]
fn append_to_empty_log() {
    let mut log = RaftLog::new(0);
    let next = log.append(0, vec![entry(1, 1)]);
    assert_eq!(next, 2);
    assert_eq!(log.offset(), 0);
    assert_eq!(log.len(), 1);
    assert_eq!(log.latest_log_index(), 1);
    assert_eq!(log.latest_log_term(), 1);
    assert_eq!(log.term(1), 1);
    assert_eq!(log.entry(1), Some(&entry(1, 1)));
    assert!(log.entry(0).is_none());
    assert!(log.entry(2).is_none());
    assert_eq!(log.term(2), 0);
}

#[test]
fn entries_are_found_by_their_index() {
    let mut log = RaftLog::new(0);
    let next = log.append(0, vec![entry(1, 1), entry(2, 2)]);
    assert_eq!(next, 3);
    assert_eq!(log.term(1), 1);
    assert_eq!(log.term(2), 2);
    assert_eq!(log.entry(2), Some(&entry(2, 2)));
}

#[test]
fn append_several_and_read_a_range() {
    let mut log = RaftLog::new(0);
    let next = log.append(0, vec![entry(1, 1), entry(2, 2), entry(3, 3)]);
    assert_eq!(next, 4);
    assert_eq!(log.offset(), 0);
    assert_eq!(log.latest_log_index(), 3);
    assert_eq!(log.latest_log_term(), 3);
    assert_eq!(log.term(2), 2);
    assert_eq!(log.term(4), 0);
    assert_eq!(log.entry(3), Some(&entry(3, 3)));
    assert_eq!(log.entries(1, 3), &[entry(1, 1), entry(2, 2), entry(3, 3)][..]);
    assert_eq!(log.entries(2, 3), &[entry(2, 2), entry(3, 3)][..]);
    assert!(log.entries(3, 3).is_empty());
    assert!(log.entries(3, 2).is_empty());
}

#[test]
fn between_gives_the_entries_after_an_index() {
    let mut log = RaftLog::new(0);
    log.append(0, vec![entry(1, 1), entry(2, 1), entry(3, 2)]);
    assert_eq!(log.between(0, 3), &[entry(1, 1), entry(2, 1), entry(3, 2)][..]);
    assert_eq!(log.between(1, 2), &[entry(2, 1)][..]);
    assert!(log.between(2, 2).is_empty());
    assert!(log.between(3, 1).is_empty());
    assert_eq!(log.between(0, 10).len(), 3);
    assert!(log.between(5, 9).is_empty());
}

#[test]
fn append_with_conflicting_term_truncates() {
    let mut log = RaftLog::new(0);
    log.append(0, vec![entry(1, 1), entry(2, 1), entry(3, 1)]);
    let next = log.append(1, vec![entry(2, 2)]);
    assert_eq!(next, 3);
    assert_eq!(log.offset(), 0);
    assert_eq!(log.len(), 2);
    assert_eq!(log.latest_log_index(), 2);
    assert_eq!(log.latest_log_term(), 2);
    assert_eq!(log.term(1), 1);
    assert_eq!(log.term(2), 2);
}

#[test]
fn append_with_same_term_keeps_existing() {
    let mut log = RaftLog::new(0);
    log.append(0, vec![entry(1, 1), entry(2, 1), entry(3, 1)]);
    let next = log.append(0, vec![entry(1, 1)]);
    assert_eq!(next, 2);
    assert_eq!(log.len(), 3);
    assert_eq!(log.latest_log_index(), 3);
    assert_eq!(log.latest_log_term(), 1);
}

#[test]
fn append_twice_is_idempotent() {
    let mut a = RaftLog::new(0);
    a.append(0, vec![entry(1, 1), entry(2, 1), entry(3, 1)]);
    let r1 = a.append(1, vec![entry(2, 2), entry(3, 2)]);
    let once = terms(&a);
    let r2 = a.append(1, vec![entry(2, 2), entry(3, 2)]);
    assert_eq!(once, vec![1, 2, 2]);
    assert_eq!(terms(&a), once);
    assert_eq!((r1, r2), (4, 4));
    let mut b = RaftLog::new(0);
    b.append(0, vec![entry(1, 1), entry(2, 2), entry(3, 2)]);
    assert_eq!(a, b);
}

#[test]
fn append_past_the_end_pushes() {
    let mut log = RaftLog::new(0);
    let next = log.append(10, vec![entry(11, 1)]);
    assert_eq!(next, 12);
    assert_eq!(log.len(), 1);
    assert_eq!(log.offset(), 0);
}

#[test]
fn truncate_discards_committed_entries() {
    let mut log = RaftLog::new(0);
    log.append(0, vec![entry(1, 1), entry(2, 1)]);
    assert_eq!(log.truncate(0), 0);
    assert_eq!(log.len(), 2);
    assert_eq!(log.truncate(1), 1);
    assert_eq!(log.offset(), 1);
    assert_eq!(log.len(), 1);
    assert_eq!(log.entry(2), Some(&entry(2, 1)));
    assert_eq!(log.latest_log_index(), 2);
    assert_eq!(log.term(2), 1);
    // an index at or below the offset changes nothing
    assert_eq!(log.truncate(1), 1);
    assert_eq!(log.len(), 1);
    assert_eq!(log.truncate(5), 5);
    assert_eq!(log.len(), 0);
    assert_eq!(log.latest_log_index(), 0);
}

#[test]
fn truncate_up_to_the_last_index_empties_the_log() {
    let mut log = RaftLog::new(0);
    log.append(0, vec![entry(1, 1), entry(2, 1), entry(3, 1), entry(4, 1)]);
    assert_eq!(log.truncate(3), 3);
    assert_eq!(log.len(), 1);
    assert_eq!(log.latest_log_index(), 4);
    assert_eq!(log.truncate(4), 4);
    assert_eq!(log.len(), 0);
    assert_eq!(log.latest_log_index(), 0);
    let next = log.append(4, vec![entry(5, 2)]);
    assert_eq!(next, 6);
    assert_eq!(log.entry(5), Some(&entry(5, 2)));
}
