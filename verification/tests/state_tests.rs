use simple_raft::raft::command::{InspectResult, ProposeResut};
use simple_raft::raft::role::RaftRole;
use simple_raft::raft::state::{CandidateState, LeaderState, RaftState};
use simple_raft::raft::{Raft, RaftState as PeerRole};
use simple_raft::raft_log::{Entry, RaftLog};

#[test]
fn role_predicates() {
    assert!(RaftRole::Leader.is_ledaer());
    assert!(!RaftRole::Leader.is_follower());
    assert!(RaftRole::Follower.is_follower());
    assert!(RaftRole::Candidate.is_candidate());
    assert!(!RaftRole::Candidate.is_ledaer());
}

#[test]
fn candidate_votes() {
    let mut c = CandidateState::new(1);
    assert_eq!(c.count(), 1);
    assert!(!c.is_majority(3));
    assert_eq!(c.grant(2), 2);
    assert_eq!(c.grant(2), 2);
    assert!(c.is_majority(3));
    assert!(!c.is_majority(4));
    let copy = c.clone();
    assert_eq!(copy.votes, c.votes);
    assert_eq!(CandidateState::default().count(), 0);
}

#[test]
fn leader_progress_starts_after_last_index() {
    let l = LeaderState::new(&[2, 3], 7);
    assert_eq!(l.next_index.get(&2), Some(&8));
    assert_eq!(l.next_index.get(&3), Some(&8));
    assert_eq!(l.match_index.get(&3), Some(&0));
    assert_eq!(l.next_index.len(), 2);
}

#[test]
fn role_transitions() {
    let mut s = RaftState::new();
    assert!(s.invariants_ok());
    s.check_invariants();
    s.become_candidate(5);
    assert_eq!(s.current_term, 1);
    assert_eq!(s.voted_for, Some(5));
    assert_eq!(s.role, RaftRole::Candidate);
    assert_eq!(s.as_candidate().unwrap().count(), 1);
    s.check_invariants();
    s.as_candidate_mut().unwrap().grant(6);
    assert_eq!(s.as_candidate().unwrap().count(), 2);

    s.become_leader(&[6, 7], 0);
    assert!(s.invariants_ok());
    s.check_invariants();
    assert_eq!(s.role, RaftRole::Leader);
    assert!(s.as_candidate().is_none());
    assert_eq!(s.as_leader().unwrap().next_index.get(&7), Some(&1));
    s.as_leader_mut().unwrap().match_index.insert(7, 3);
    assert_eq!(s.as_leader().unwrap().match_index.get(&7), Some(&3));

    // same term: the vote stays
    s.become_follower(1);
    assert_eq!(s.voted_for, Some(5));
    assert_eq!(s.role, RaftRole::Follower);
    assert!(s.as_leader().is_none());
    // newer term: the vote is cleared
    s.become_follower(4);
    assert_eq!(s.current_term, 4);
    assert_eq!(s.voted_for, None);
    // older term: nothing but the role changes
    s.become_follower(2);
    assert_eq!(s.current_term, 4);
}

#[test]
fn propose_and_inspect_results() {
    let r = ProposeResut::rejectd();
    assert!(!r.accepted);
    assert_eq!(r.index, None);
    let i = InspectResult {
        role: RaftRole::Follower,
        term: 1,
        commit_index: 0,
        last_index: 0,
        voted_for: None,
    };
    assert_eq!(i.clone(), i);
}

#[test]
fn raft_peer_starts_as_follower() {
    let r = Raft::new(1, vec![2, 3]);
    // per-role check passes after each transition
    let mut f = RaftState::new();
    f.become_follower(3);
    assert!(f.invariants_ok());
    f.check_invariants();
    let shown = format!("{:?}", r);
    assert!(shown.contains("Follower"));
    assert_eq!(PeerRole::Master, PeerRole::Master);
}

#[test]
fn simple_log_numbers_appended_entries() {
    let mut log = RaftLog::new();
    log.append(vec![Entry::new(1, 42, vec![1]), Entry::new(1, 42, vec![2])]);
    assert_eq!(log.get_entry(1).unwrap().index, 1);
    assert_eq!(log.get_entry(2).unwrap().index, 2);
    assert_eq!(log.get_entry(2).unwrap().command, vec![2]);
    assert!(log.get_entry(3).is_none());
    log.truncate(0);
    assert!(log.get_last_entry().is_none());
    assert!(log.get_entry(1).is_none());
}

#[test]
fn invariant_check_spots_mismatched_records() {
    let mut s = RaftState::new();
    s.become_candidate(1);
    assert!(s.invariants_ok());
    s.role = RaftRole::Leader;
    assert!(!s.invariants_ok());
    s.role = RaftRole::Follower;
    assert!(!s.invariants_ok());
    let l = LeaderState::new(&[], u64::MAX);
    assert!(l.next_index.is_empty());
}
