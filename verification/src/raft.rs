pub mod command;
pub mod message;
pub mod node;
pub mod role;
pub mod state;

use vstd::prelude::*;

use crate::raft_log::{Entry, RaftLog};

verus! {

/// The role of a `Raft` peer.
#[derive(Debug, PartialEq, Eq, Structural)]
pub enum RaftState {
    Master,
    Candidate,
    Follower,
}

/// The persistent and volatile state of one peer of the simple cluster.
#[derive(Debug)]
pub struct Raft {
    peers: Vec<u64>,
    state: RaftState,
    current_term: u64,
    voted_for: u64,
    log: RaftLog,
    commit_index: u64,
    last_applied: u64,
    next_index: Vec<u64>,
    match_index: Vec<u64>,
    me: u64,
}

/// What a `Raft` peer holds, with its collections as sequences.
pub struct RaftView {
    pub peers: Seq<u64>,
    pub state: RaftState,
    pub current_term: u64,
    pub voted_for: u64,
    pub log: Seq<Entry>,
    pub log_first: int,
    pub commit_index: u64,
    pub last_applied: u64,
    pub next_index: Seq<u64>,
    pub match_index: Seq<u64>,
    pub me: u64,
}

impl View for Raft {
    type V = RaftView;

    closed spec fn view(&self) -> RaftView {
        RaftView {
            peers: self.peers@,
            state: self.state,
            current_term: self.current_term,
            voted_for: self.voted_for,
            log: self.log@,
            log_first: self.log.first(),
            commit_index: self.commit_index,
            last_applied: self.last_applied,
            next_index: self.next_index@,
            match_index: self.match_index@,
            me: self.me,
        }
    }
}

impl Raft {
    /// The peer starts as a follower in term 0 with an empty log from index 1,
    /// no vote, nothing committed or applied, and no per-peer progress.
    pub fn new(me: u64, peers: Vec<u64>) -> (res: Self)
        ensures
            res@ == (RaftView {
                peers: peers@,
                state: RaftState::Follower,
                current_term: 0,
                voted_for: 0,
                log: Seq::<Entry>::empty(),
                log_first: 1,
                commit_index: 0,
                last_applied: 0,
                next_index: Seq::<u64>::empty(),
                match_index: Seq::<u64>::empty(),
                me,
            }),
    {
        Raft {
            peers,
            state: RaftState::Follower,
            current_term: 0,
            voted_for: 0,
            log: RaftLog::new(),
            commit_index: 0,
            last_applied: 0,
            next_index: Vec::new(),
            match_index: Vec::new(),
            me,
        }
    }
}

} // verus!
