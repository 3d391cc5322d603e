use simple_raft::log::raft_log::{EntryType, LogEntry, RaftLog};

fn normal(i: u64, t: u64, s: &[u8]) -> LogEntry {
    LogEntry::normal(i, t, s.to_vec())
}

// ------------LogEntry-------------

#[test]
fn entry_helper() {
    let n = LogEntry::normal(1, 2, b"x".to_vec());
    assert_eq!(n.entry_type, EntryType::Normal);
    assert!(!n.is_empty());

    let e = LogEntry::empty(3, 4);
    assert_eq!(e.entry_type, EntryType::Empty);
    assert!(e.is_empty());
    assert!(e.data.is_empty());
}

#[test]
fn empty_log() {
    let log = RaftLog::new();
    assert_eq!(log.last_index(), 0);
    assert_eq!(log.last_term(), 0);
    assert!(log.is_empty());
    assert_eq!(log.len(), 0);
    assert!(log.get(1).is_none());
    assert_eq!(log.term_at(0), Some(0));
    assert_eq!(log.term_at(1), None);
}

#[test]
fn append_from_scratch() {
    let mut log = RaftLog::new();
    let ok = log.append(0, 0, vec![normal(1, 1, b"a"), normal(2, 1, b"b")]);
    assert!(ok);
    assert_eq!(log.last_index(), 2);
    assert_eq!(log.last_term(), 1);
    assert_eq!(log.get(1).unwrap().data, b"a");
    assert_eq!(log.get(2).unwrap().data, b"b");
}

#[test]
fn append_rejects_bad_prev() {
    let mut log = RaftLog::new();

    log.append(0, 0, vec![normal(1, 1, b"a")]);

    assert!(!log.append(1, 99, vec![normal(2, 1, b"b")]));

    assert!(!log.append(5, 1, vec![normal(6, 1, b"b")]));

    assert_eq!(log.last_index(), 1);
}

#[test]
fn truncate_from_middle() {
    let mut log = RaftLog::new();
    log.append(
        0,
        0,
        vec![
            normal(1, 1, b"a"),
            normal(2, 1, b"b"),
            normal(3, 1, b"c"),
            normal(4, 2, b"d"),
        ],
    );

    assert_eq!(log.last_index(), 4);

    let removed = log.truncate_from(3);
    assert_eq!(removed, 2);
    assert_eq!(log.last_index(), 2);
    assert_eq!(log.get(3), None);
    assert_eq!(log.get(4), None);
}

#[test]
fn truncate_from_all() {
    let mut log = RaftLog::new();
    log.append(0, 0, vec![normal(1, 1, b"a"), normal(2, 1, b"b")]);

    let removed = log.truncate_from(log.offset);
    assert_eq!(removed, 2);
    assert!(log.is_empty());
    assert!(log.entries.is_empty());
}

#[test]
fn truncate_from_out_of_range_is_noop() {
    let mut log = RaftLog::new();
    log.append(0, 0, vec![normal(1, 1, b"a")]);

    assert_eq!(log.truncate_from(99), 0);
    assert_eq!(log.truncate_from(0), 0);
    assert_eq!(log.last_index(), 1);
}

#[test]
fn truncate_suffix_keeps_prefix() {
    let mut log = RaftLog::new();
    log.append(
        0,
        0,
        vec![normal(1, 1, b"a"), normal(2, 1, b"b"), normal(3, 1, b"c")],
    );

    let removed = log.truncate_suffix(1);
    assert_eq!(removed, 2);
    assert_eq!(log.last_index(), 1);
    assert_eq!(log.get(1).unwrap().data, b"a");
}

#[test]
fn append_overwriters_on_term_conflict() {
    let mut log = RaftLog::new();
    log.append(
        0,
        0,
        vec![normal(1, 1, b"a"), normal(2, 1, b"b"), normal(3, 1, b"c")],
    );

    let ok = log.append(1, 1, vec![normal(2, 2, b"B"), normal(3, 2, b"C")]);
    assert!(ok);
    assert_eq!(log.last_index(), 3);
    assert_eq!(log.last_term(), 2);
    assert_eq!(log.get(2).unwrap().data, b"B");
    assert_eq!(log.get(3).unwrap().data, b"C");
}

#[test]
fn append_is_idempotent_on_same_entries() {
    let mut log = RaftLog::new();
    let entries = vec![normal(1, 1, b"a"), normal(2, 1, b"b")];
    log.append(0, 0, entries.clone());

    let ok = log.append(0, 0, entries);
    assert!(ok);
    assert_eq!(log.last_index(), 2);
    assert_eq!(log.len(), 2);
}

#[test]
fn append_partial_overlap() {
    let mut log = RaftLog::new();
    log.append(0, 0, vec![normal(1, 1, b"a"), normal(2, 1, b"b")]);

    let ok = log.append(
        1,
        1,
        vec![normal(2, 1, b"b"), normal(3, 1, b"c"), normal(4, 1, b"d")],
    );

    assert!(ok);
    assert_eq!(log.last_index(), 4);
    assert_eq!(log.len(), 4);
}

#[test]
fn append_extends_with_higher_term() {
    let mut log = RaftLog::new();
    log.append(0, 0, vec![normal(1, 1, b"a"), normal(2, 1, b"b")]);

    let ok = log.append(2, 1, vec![normal(3, 2, b"c"), normal(4, 2, b"d")]);
    assert!(ok);
    assert_eq!(log.last_index(), 4);
    assert_eq!(log.last_term(), 2);
}

#[test]
fn slice_closed_interval() {
    let mut log = RaftLog::new();
    log.append(
        0,
        0,
        vec![
            normal(1, 1, b"a"),
            normal(2, 1, b"b"),
            normal(3, 2, b"c"),
            normal(4, 2, b"d"),
        ],
    );
    let s = log.slice(2, 3);
    assert_eq!(s.len(), 2);
    assert_eq!(s[0].index, 2);
    assert_eq!(s[1].index, 3);

    let s = log.slice(3, 3);
    assert_eq!(s.len(), 1);
    assert_eq!(s[0].index, 3);

    assert!(log.slice(10, 20).is_empty());
    assert!(log.slice(0, 2).is_empty());
    assert!(log.slice(3, 2).is_empty());

    let s = log.slice(3, 100);
    assert_eq!(s.len(), 2);
}

#[test]
fn matches_sentinel_and_real() {
    let mut log = RaftLog::new();
    log.append(0, 0, vec![normal(1, 1, b"a"), normal(2, 2, b"b")]);

    assert!(log.matches(0, 0));
    assert!(log.matches(0, 999));
    assert!(log.matches(1, 1));
    assert!(log.matches(2, 2));
    assert!(!log.matches(1, 2));
    assert!(!log.matches(3, 2));
}

#[test]
fn follower_overwrite_scenario() {
    let mut log = RaftLog::new();
    log.append(
        0,
        0,
        vec![
            normal(1, 1, b"a"),
            normal(2, 1, b"b"),
            normal(3, 1, b"stale"),
        ],
    );

    let ok = log.append(
        1,
        1,
        vec![normal(2, 2, b"B"), normal(3, 2, b"C"), normal(4, 2, b"D")],
    );
    assert!(ok);
    assert_eq!(log.last_index(), 4);
    assert_eq!(log.get(1).unwrap().term, 1);
    assert_eq!(log.get(2).unwrap().term, 2);
    assert_eq!(log.get(3).unwrap().term, 2);
    assert_eq!(log.get(4).unwrap().term, 2);
    assert_eq!(log.get(3).unwrap().data, b"C");
}
