use raft::common::{Command, K, V};
use raft::log::LogEntry;
use raft::storage::{MemKVStateMachine, Snapshot, StateMachine};

fn key(s: &[u8]) -> K {
    K::from(s.to_vec())
}

fn val(s: &[u8]) -> V {
    V::from(s.to_vec())
}

#[test]
fn test1() {
    let mut state_mechine = MemKVStateMachine::default();
    let put = Command::PUT(K::from(b"hello".to_vec()), V::from(b"world".to_vec()));
    let logs = vec![LogEntry::new(1, 1, put)];
    state_mechine.apply(&logs);
    let res = state_mechine.query(K::from(b"hello".to_vec()));
    assert_eq!(res.unwrap(), V::from(b"world".to_vec()));
}

#[test]
fn default_machine_is_empty() {
    let m = MemKVStateMachine::default();
    assert_eq!(m.get_last_index(), 0);
    assert_eq!(m.get_last_term(), 0);
    assert_eq!(m.query(key(b"a")), None);
}

#[test]
fn later_write_wins_and_delete_removes() {
    let mut m = MemKVStateMachine::default();
    m.apply(&[
        LogEntry::new(1, 1, Command::PUT(key(b"a"), val(b"1"))),
        LogEntry::new(2, 1, Command::PUT(key(b"b"), val(b"2"))),
        LogEntry::new(3, 1, Command::PUT(key(b"a"), val(b"3"))),
        LogEntry::new(4, 1, Command::GET(key(b"b"))),
    ]);
    assert_eq!(m.query(key(b"a")), Some(val(b"3")));
    assert_eq!(m.query(key(b"b")), Some(val(b"2")));
    m.apply(&[LogEntry::new(5, 1, Command::DELETE(key(b"a")))]);
    assert_eq!(m.query(key(b"a")), None);
    assert_eq!(m.query(key(b"b")), Some(val(b"2")));
    m.apply(&[LogEntry::new(6, 1, Command::DELETE(key(b"missing")))]);
    assert_eq!(m.query(key(b"b")), Some(val(b"2")));
    assert_eq!(m.get_last_index(), 0);
}

#[test]
fn applying_in_batches_is_applying_at_once() {
    let entries = vec![
        LogEntry::new(1, 1, Command::PUT(key(b"x"), val(b"1"))),
        LogEntry::new(2, 1, Command::DELETE(key(b"x"))),
        LogEntry::new(3, 1, Command::PUT(key(b"y"), val(b"2"))),
    ];
    let mut once = MemKVStateMachine::default();
    once.apply(&entries);
    let mut twice = MemKVStateMachine::default();
    twice.apply(&entries[..2]);
    twice.apply(&entries[2..]);
    for k in [b"x", b"y"] {
        assert_eq!(once.query(key(k)), twice.query(key(k)));
    }
    assert_eq!(once.query(key(b"x")), None);
}

#[test]
fn snapshot_moves_only_forward() {
    let mut m = MemKVStateMachine::default();
    let mut s = m.snapshot();
    assert_eq!(s.last_index(), 0);
    assert_eq!(s.last_term(), 0);
    s.set_last_index(5);
    s.set_last_term(2);
    assert_eq!(s.last_index(), 5);
    assert_eq!(s.last_term(), 2);
    m.take_a_snapshot(s);
    assert_eq!(m.get_last_index(), 5);
    assert_eq!(m.get_last_term(), 2);
    // an older index does not move it
    let mut older = Snapshot::default();
    older.set_last_index(3);
    older.set_last_term(9);
    m.take_a_snapshot(older);
    assert_eq!(m.get_last_index(), 5);
    assert_eq!(m.get_last_term(), 2);
    // the same term does not move it either
    let mut same_term = Snapshot::default();
    same_term.set_last_index(9);
    same_term.set_last_term(2);
    m.take_a_snapshot(same_term);
    assert_eq!(m.get_last_index(), 5);
    let snap = m.snapshot();
    assert_eq!((snap.last_index(), snap.last_term()), (5, 2));
}

#[test]
fn restore_snapshot_succeeds() {
    let mut m = MemKVStateMachine::default();
    m.apply(&[LogEntry::new(1, 1, Command::PUT(key(b"a"), val(b"1")))]);
    assert!(m.restore_snapshot(Snapshot::default()).is_ok());
    assert_eq!(m.query(key(b"a")), Some(val(b"1")));
}

#[test]
fn machines_with_the_same_content_are_equal() {
    let mut a = MemKVStateMachine::default();
    a.apply(&[
        LogEntry::new(1, 1, Command::PUT(key(b"x"), val(b"1"))),
        LogEntry::new(2, 1, Command::PUT(key(b"y"), val(b"2"))),
    ]);
    let mut b = MemKVStateMachine::default();
    b.apply(&[
        LogEntry::new(1, 1, Command::PUT(key(b"y"), val(b"2"))),
        LogEntry::new(2, 1, Command::PUT(key(b"z"), val(b"9"))),
        LogEntry::new(3, 1, Command::PUT(key(b"x"), val(b"1"))),
        LogEntry::new(4, 1, Command::DELETE(key(b"z"))),
    ]);
    assert_eq!(a, b);
    b.apply(&[LogEntry::new(5, 1, Command::PUT(key(b"x"), val(b"3")))]);
    assert_ne!(a, b);
    let mut c = MemKVStateMachine::default();
    assert_ne!(a, c);
    assert_eq!(c, MemKVStateMachine::default());
    let mut s = Snapshot::default();
    s.set_last_index(1);
    s.set_last_term(1);
    c.take_a_snapshot(s);
    assert_ne!(c, MemKVStateMachine::default());
}
