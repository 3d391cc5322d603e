use simple_raft::log::raft_log::{LogEntry, RaftLog};
use simple_raft::raft::message::RaftMessage;
use simple_raft::raft::node::{Action, RaftNode};
use simple_raft::raft::role::RaftRole;

fn normal(i: u64, t: u64, s: &[u8]) -> LogEntry {
    LogEntry::normal(i, t, s.to_vec())
}

fn node(id: u64, peers: Vec<u64>) -> RaftNode {
    RaftNode::new(id, peers, RaftLog::new())
}

fn vote_resp(a: &Action) -> (u64, u64, bool) {
    match a {
        Action::Send(to, RaftMessage::VoteResp { term, vote_granted }) => (*to, *term, *vote_granted),
        _ => panic!("not a vote response"),
    }
}

fn append_resp(a: &Action) -> (u64, u64, bool, u64) {
    match a {
        Action::Send(to, RaftMessage::AppendEntiresResp { term, success, match_index }) => {
            (*to, *term, *success, *match_index)
        }
        _ => panic!("not an append response"),
    }
}

#[test]
fn single_node_wins_at_once() {
    let mut n = node(1, vec![]);
    let acts = n.become_candidate();
    assert_eq!(acts.len(), 2);
    assert!(matches!(acts[0], Action::Broadcast(RaftMessage::RequestVote { term: 1, candidate_id: 1, .. })));
    assert!(matches!(&acts[1], Action::Broadcast(RaftMessage::AppendEntires { term: 1, leader_id: 1, entries, .. }) if entries.is_empty()));
    assert_eq!(n.state().role, RaftRole::Leader);
}

#[test]
fn election_with_two_peers() {
    let mut n = node(1, vec![2, 3]);
    let acts = n.become_candidate();
    assert_eq!(acts.len(), 1);
    assert_eq!(n.state().role, RaftRole::Candidate);
    // a refused vote changes nothing
    assert!(n.handle_request_vote_resp(2, 1, false).is_empty());
    assert_eq!(n.state().role, RaftRole::Candidate);
    // a granted vote gives a majority of 2 out of 3
    let acts = n.handle_request_vote_resp(2, 1, true);
    assert_eq!(acts.len(), 1);
    assert_eq!(n.state().role, RaftRole::Leader);
    assert_eq!(n.state().as_leader().unwrap().next_index.get(&3), Some(&1));
    // a newer term makes it step down
    assert!(n.handle_request_vote_resp(3, 5, false).is_empty());
    assert_eq!(n.state().role, RaftRole::Follower);
    assert_eq!(n.state().current_term, 5);
}

#[test]
fn vote_is_granted_once_per_term() {
    let mut n = node(1, vec![2, 3]);
    let acts = n.handle_request_vote(2, 1, 2, 1, 1);
    assert!(matches!(acts[0], Action::ResetElectionTimer));
    assert_eq!(vote_resp(&acts[1]), (2, 1, true));
    assert_eq!(n.state().voted_for, Some(2));
    // another candidate in the same term is refused
    let acts = n.handle_request_vote(3, 1, 3, 5, 5);
    assert_eq!(acts.len(), 1);
    assert_eq!(vote_resp(&acts[0]), (3, 1, false));
    assert_eq!(n.state().voted_for, Some(2));
    // an older term is refused at once
    let acts = n.handle_request_vote(3, 0, 3, 5, 5);
    assert_eq!(vote_resp(&acts[0]), (3, 0, false));
}

#[test]
fn vote_needs_a_more_up_to_date_log() {
    let mut n = node(1, vec![2]);
    let acts = n.handle_append_entries(2, 1, 2, 0, 0, vec![normal(1, 1, b"a")], 0);
    assert_eq!(append_resp(&acts[1]), (2, 1, true, 1));
    // same last term and same last index is not enough
    let acts = n.handle_request_vote(2, 2, 2, 1, 1);
    assert_eq!(vote_resp(&acts[0]), (2, 2, false));
    assert_eq!(n.state().current_term, 2);
    assert_eq!(n.state().voted_for, None);
    // a higher last term is
    let acts = n.handle_request_vote(2, 2, 2, 1, 2);
    assert_eq!(vote_resp(&acts[1]), (2, 2, true));
}

#[test]
fn append_entries_flow() {
    let mut n = node(1, vec![2]);
    // older term is refused with the last index
    let _ = n.handle_request_vote(2, 3, 2, 0, 0);
    let acts = n.handle_append_entries(2, 2, 2, 0, 0, vec![normal(1, 2, b"a")], 0);
    assert_eq!(acts.len(), 1);
    assert_eq!(append_resp(&acts[0]), (2, 2, false, 0));
    // success: the commit index follows the leader, bounded by the new entries
    let acts = n.handle_append_entries(
        2,
        3,
        2,
        0,
        0,
        vec![normal(1, 3, b"a"), normal(2, 3, b"b")],
        10,
    );
    assert!(matches!(acts[0], Action::ResetElectionTimer));
    assert_eq!(append_resp(&acts[1]), (2, 3, true, 2));
    assert_eq!(n.state().commit_index, 2);
    assert_eq!(n.log().last_index(), 2);
    // mismatch at the previous index is refused
    let acts = n.handle_append_entries(2, 3, 2, 2, 9, vec![], 10);
    assert_eq!(append_resp(&acts[0]), (2, 3, false, 2));
}

#[test]
fn leader_handles_append_responses() {
    let mut n = node(1, vec![2]);
    let _ = n.handle_append_entries(
        2,
        1,
        2,
        0,
        0,
        vec![normal(1, 1, b"a"), normal(2, 1, b"b"), normal(3, 1, b"c")],
        0,
    );
    let _ = n.become_candidate();
    let _ = n.handle_request_vote_resp(2, 2, true);
    assert_eq!(n.state().role, RaftRole::Leader);
    assert_eq!(n.state().as_leader().unwrap().next_index.get(&2), Some(&4));

    // success records the follower's progress and leaves the term alone
    assert!(n.handle_append_entries_resp(2, 2, true, 2).is_empty());
    assert_eq!(n.state().as_leader().unwrap().match_index.get(&2), Some(&2));
    assert_eq!(n.state().as_leader().unwrap().next_index.get(&2), Some(&3));
    assert_eq!(n.state().current_term, 2);
    assert_eq!(n.state().commit_index, 0);

    // failure lowers next index by one and resends from there
    let acts = n.handle_append_entries_resp(2, 2, false, 0);
    assert_eq!(n.state().as_leader().unwrap().next_index.get(&2), Some(&2));
    assert_eq!(acts.len(), 1);
    match &acts[0] {
        Action::Send(to, RaftMessage::AppendEntires { term, leader_id, prev_log_index, prev_log_term, entries, leader_commit }) => {
            assert_eq!((*to, *term, *leader_id, *prev_log_index, *prev_log_term, *leader_commit), (2, 2, 1, 1, 1, 0));
            // the entries from the next index (2) up to the last index (3)
            let idx: Vec<u64> = entries.iter().map(|e| e.index).collect();
            assert_eq!(idx, vec![2, 3]);
        }
        _ => panic!("not an append request"),
    }
    // a newer term makes the leader step down
    assert!(n.handle_append_entries_resp(2, 9, false, 0).is_empty());
    assert_eq!(n.state().role, RaftRole::Follower);
    assert_eq!(n.state().current_term, 9);
}

#[test]
fn send_append_entries_to_unknown_peer_sends_nothing() {
    let mut n = node(1, vec![]);
    assert!(n.send_append_entries_to(2).is_empty());
    let _ = n.become_candidate();
    assert!(n.send_append_entries_to(2).is_empty());
    let hb = n.broadcast_heartbeat();
    assert!(matches!(hb[0], Action::Broadcast(RaftMessage::AppendEntires { term: 1, prev_log_index: 0, .. })));
}

#[test]
fn advance_commit_needs_current_term_majority() {
    let mut n = node(1, vec![]);
    let _ = n.handle_append_entries(2, 1, 2, 0, 0, vec![normal(1, 1, b"a")], 0);
    let _ = n.become_candidate();
    // the only entry is of an older term: nothing is committed
    n.maybe_advance_commit();
    assert_eq!(n.state().current_term, 2);
    assert_eq!(n.state().commit_index, 0);
    assert_eq!(n.id(), 1);
    assert!(n.peers().is_empty());
}

#[test]
fn leader_commits_what_a_majority_holds_in_its_term() {
    let mut n = node(1, vec![2, 3]);
    // entries of term 2, received while in term 1
    let _ = n.handle_append_entries(2, 1, 2, 0, 0, vec![normal(1, 2, b"a"), normal(2, 2, b"b")], 0);
    let _ = n.become_candidate();
    let _ = n.handle_request_vote_resp(2, 2, true);
    assert_eq!(n.state().role, RaftRole::Leader);
    assert_eq!(n.state().current_term, 2);
    // held: leader 2, peer 2 at 1, peer 3 at 0 -> a majority holds index 1
    assert!(n.handle_append_entries_resp(2, 2, true, 1).is_empty());
    assert_eq!(n.state().commit_index, 1);
    // peer 3 reaches 2 -> a majority holds index 2
    assert!(n.handle_append_entries_resp(3, 2, true, 2).is_empty());
    assert_eq!(n.state().commit_index, 2);
    n.maybe_advance_commit();
    assert_eq!(n.state().commit_index, 2);
}
