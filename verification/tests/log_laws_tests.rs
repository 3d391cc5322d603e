use simple_raft::log::command::{LogCommand, LogReply};
use simple_raft::log::log_actor::LogActor;
use simple_raft::log::raft_log::{EntryType, LogEntry, RaftLog};

fn normal(i: u64, t: u64, s: &[u8]) -> LogEntry {
    LogEntry::normal(i, t, s.to_vec())
}

fn filled() -> RaftLog {
    let mut log = RaftLog::new();
    assert!(log.append(
        0,
        0,
        vec![normal(1, 1, b"a"), normal(2, 1, b"b"), normal(3, 2, b"c")],
    ));
    log
}

#[test]
fn appended_entries_are_found_by_index_with_their_term() {
    let mut log = filled();
    let sent = vec![normal(3, 3, b"x"), normal(4, 3, b"y"), normal(5, 3, b"z")];
    assert!(log.append(2, 1, sent.clone()));
    for e in &sent {
        assert_eq!(log.term_at(e.index), Some(e.term));
        assert_eq!(log.get(e.index).unwrap().data, e.data);
    }
    // entries up to the previous index are untouched
    assert_eq!(log.get(1).unwrap().data, b"a");
    assert_eq!(log.get(2).unwrap().data, b"b");
    assert_eq!(log.last_index(), 5);
}

#[test]
fn conflict_drops_stale_tail_beyond_new_entries() {
    let mut log = filled();
    // index 2 conflicts; the stale index 3 must go although it is not resent
    assert!(log.append(1, 1, vec![normal(2, 5, b"B")]));
    assert_eq!(log.last_index(), 2);
    assert_eq!(log.last_term(), 5);
    assert_eq!(log.get(3), None);
}

#[test]
fn matching_prefix_keeps_longer_log() {
    let mut log = filled();
    // entries already present with the same term: nothing is deleted
    assert!(log.append(0, 0, vec![normal(1, 1, b"other")]));
    assert_eq!(log.last_index(), 3);
    assert_eq!(log.get(1).unwrap().data, b"a");
}

#[test]
fn append_twice_is_idempotent() {
    let mut once = filled();
    let sent = vec![normal(3, 4, b"c4"), normal(4, 4, b"d4")];
    assert!(once.append(2, 1, sent.clone()));
    let mut twice = filled();
    assert!(twice.append(2, 1, sent.clone()));
    assert!(twice.append(2, 1, sent));
    assert_eq!(once.entries, twice.entries);
}

#[test]
fn failed_append_leaves_log_unchanged() {
    let mut log = filled();
    let before = log.entries.clone();
    assert!(!log.append(3, 1, vec![normal(4, 1, b"d")]));
    assert_eq!(log.entries, before);
}

#[test]
fn gap_detection() {
    let log = filled();
    assert!(log.append_leaves_gap(3, 2, &vec![normal(5, 2, b"e")]));
    assert!(!log.append_leaves_gap(3, 2, &vec![normal(4, 2, b"d")]));
    // the consistency check fails first: no append, no gap
    assert!(!log.append_leaves_gap(3, 9, &vec![normal(5, 2, b"e")]));
    // a conflict at 3 truncates to index 2, after which 3 follows without a gap
    assert!(!log.append_leaves_gap(1, 1, &vec![normal(3, 7, b"x"), normal(2, 7, b"y")]));
    // a conflict at 1 empties the log, after which index 2 would leave a gap
    assert!(log.append_leaves_gap(0, 0, &vec![normal(2, 1, b"b"), normal(1, 9, b"z")]));
}

#[test]
fn term_at_and_last_term() {
    let log = filled();
    assert_eq!(log.term_at(0), Some(0));
    assert_eq!(log.term_at(3), Some(2));
    assert_eq!(log.term_at(4), None);
    assert_eq!(log.last_term(), 2);
    assert_eq!(log.len(), 3);
    assert!(!log.is_empty());
}

#[test]
fn slice_indices_are_consecutive() {
    let log = filled();
    let s = log.slice(1, 3);
    let idx: Vec<u64> = s.iter().map(|e| e.index).collect();
    assert_eq!(idx, vec![1, 2, 3]);
    assert_eq!(s[2].data, b"c");
    assert_eq!(s[2].entry_type, EntryType::Normal);
}

#[test]
fn truncate_suffix_at_max_is_noop() {
    let mut log = filled();
    assert_eq!(log.truncate_suffix(u64::MAX), 0);
    assert_eq!(log.last_index(), 3);
    assert_eq!(log.truncate_suffix(0), 3);
    assert!(log.is_empty());
}

#[test]
fn remove_single_entries() {
    let mut log = filled();
    assert_eq!(log.remove(0), None);
    assert_eq!(log.remove(4), None);
    let last = log.remove(3).unwrap();
    assert_eq!(last.index, 3);
    assert_eq!(log.last_index(), 2);
    let first = log.remove(1).unwrap();
    assert_eq!(first.data, b"a");
    // the slot of index 1 now holds the entry that carries index 2
    assert_eq!(log.get(1).unwrap().index, 2);
    assert_eq!(log.len(), 1);
}

#[test]
fn entry_clone_keeps_fields() {
    let e = LogEntry::empty(4, 9);
    let c = e.clone();
    assert_eq!(c, e);
}

#[test]
fn actor_answers_each_command() {
    let mut actor = LogActor::new();
    match actor.handle(LogCommand::Append {
        prev_log_index: 0,
        prev_log_term: 0,
        entries: vec![normal(1, 1, b"a"), normal(2, 2, b"b"), normal(3, 2, b"c")],
    }) {
        LogReply::Appended(ok) => assert!(ok),
        _ => panic!("wrong reply"),
    }
    match actor.handle(LogCommand::LastInfo) {
        LogReply::LastInfo(i, t) => assert_eq!((i, t), (3, 2)),
        _ => panic!("wrong reply"),
    }
    match actor.handle(LogCommand::Matches { prev_log_index: 2, prev_log_term: 1 }) {
        LogReply::Matches(m) => assert!(!m),
        _ => panic!("wrong reply"),
    }
    match actor.handle(LogCommand::Get { index: 2 }) {
        LogReply::Entry(e) => assert_eq!(e.unwrap().data, b"b"),
        _ => panic!("wrong reply"),
    }
    match actor.handle(LogCommand::Slice { from: 2, to: 9 }) {
        LogReply::Entries(v) => assert_eq!(v.len(), 2),
        _ => panic!("wrong reply"),
    }
    match actor.handle(LogCommand::TruncateSuffix { upto_index: 2 }) {
        LogReply::Removed(n) => assert_eq!(n, 1),
        _ => panic!("wrong reply"),
    }
    match actor.handle(LogCommand::TruncateFrom { from_index: 1 }) {
        LogReply::Removed(n) => assert_eq!(n, 2),
        _ => panic!("wrong reply"),
    }
    assert!(actor.log().is_empty());
    let gap = LogCommand::Append {
        prev_log_index: 0,
        prev_log_term: 0,
        entries: vec![normal(2, 1, b"x")],
    };
    assert!(actor.append_leaves_gap(&gap));
}

#[test]
fn log_clone_and_default() {
    let log = filled();
    let copy = log.clone();
    assert_eq!(copy.entries, log.entries);
    assert_eq!(copy.offset, log.offset);
    let mut d = RaftLog::default();
    assert_eq!(d.offset, 0);
    assert!(d.is_empty());
    // an offset-0 log takes empty appends and refuses mismatched ones
    assert!(d.append(0, 0, vec![]));
    assert!(!d.append(3, 1, vec![normal(4, 1, b"d")]));
    assert!(d.is_empty());
}
