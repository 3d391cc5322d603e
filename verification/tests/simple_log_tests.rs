use simple_raft::raft_log::{Entry, RaftLog};

#[test]
fn raft_log() {
    let mut raft_log = RaftLog::new();
    let entry = raft_log.get_entry(1);
    assert!(entry.is_none());

    let entrys = vec![Entry::new(1, 1, vec![0x48])];
    raft_log.append(entrys);

    let entry = raft_log.get_entry(0);

    assert!(entry.is_none());

    let entry = raft_log.get_entry(1);

    let entry_test = Entry::new(1, 1, vec![0x48]);
    assert!(entry.unwrap() == &entry_test);
    let mut append_entrys = Vec::<Entry>::new();
    for i in 2..=10 {
        let entry = Entry::new(i, i, vec![0x48]);
        append_entrys.push(entry);
    }

    raft_log.append(append_entrys);

    let entry = raft_log.get_last_entry();
    assert!(entry.unwrap().index == 10);

    raft_log.truncate(5);

    println!("{:?}", raft_log);

    let entry = raft_log.get_last_entry();
    assert!(entry.unwrap().index == 5);
}
