use std::collections::{HashMap, HashSet};
use vstd::prelude::*;
use vstd::std_specs::iter::IteratorSpec;

use crate::raft::role::RaftRole;

verus! {

pub type NodeId = u64;

// ============================================================
// LeaderState
// ============================================================

/// What a leader tracks of each peer: the next index to send and the highest
/// index known to be replicated.
#[derive(Debug, Clone)]
pub struct LeaderState {
    pub next_index: HashMap<NodeId, u64>,
    pub match_index: HashMap<NodeId, u64>,
}

impl LeaderState {
    /// Every peer starts with `next_index` just past the leader's last index
    /// and `match_index` 0.
    pub fn new(peers: &[NodeId], last_log_index: u64) -> (res: Self)
        requires
            peers@.len() > 0 ==> last_log_index < u64::MAX,
        ensures
            forall|p: NodeId| #[trigger] res.next_index@.contains_key(p) == peers@.contains(p),
            forall|p: NodeId| #[trigger] res.match_index@.contains_key(p) == peers@.contains(p),
            forall|p: NodeId|
                res.next_index@.contains_key(p) ==> #[trigger] res.next_index@[p] == last_log_index
                    + 1,
            forall|p: NodeId|
                res.match_index@.contains_key(p) ==> #[trigger] res.match_index@[p] == 0,
    {
        let mut next_index: HashMap<NodeId, u64> = HashMap::new();
        let mut match_index: HashMap<NodeId, u64> = HashMap::new();
        let mut i: usize = 0;
        while i < peers.len()
            invariant
                0 <= i <= peers@.len(),
                peers@.len() > 0 ==> last_log_index < u64::MAX,
                forall|p: NodeId|
                    #[trigger] next_index@.contains_key(p) == peers@.take(i as int).contains(p),
                forall|p: NodeId|
                    #[trigger] match_index@.contains_key(p) == peers@.take(i as int).contains(p),
                forall|p: NodeId|
                    next_index@.contains_key(p) ==> #[trigger] next_index@[p] == last_log_index + 1,
                forall|p: NodeId| match_index@.contains_key(p) ==> #[trigger] match_index@[p] == 0,
            decreases peers@.len() - i,
        {
            let p = peers[i];
            next_index.insert(p, last_log_index + 1);
            match_index.insert(p, 0);
            proof {
                assert forall|q: NodeId| peers@.take(i + 1).contains(q) == (peers@.take(
                    i as int,
                ).contains(q) || q == p) by {
                    if peers@.take(i + 1).contains(q) {
                        let j = choose|j: int| 0 <= j < i + 1 && #[trigger] peers@.take(i + 1)[j] == q;
                        if j < i {
                            assert(peers@.take(i as int)[j] == q);
                        }
                    }
                    if peers@.take(i as int).contains(q) {
                        let j = choose|j: int| 0 <= j < i && #[trigger] peers@.take(i as int)[j] == q;
                        assert(peers@.take(i + 1)[j] == q);
                    }
                    if q == p {
                        assert(peers@.take(i + 1)[i as int] == q);
                    }
                }
            }
            i = i + 1;
        }
        assert(peers@.take(peers@.len() as int) =~= peers@);
        LeaderState { next_index, match_index }
    }
}

// ============================================================
// CandidateState
// ============================================================

/// The votes a candidate has collected in its term.
#[derive(Debug)]
pub struct CandidateState {
    pub votes: HashSet<NodeId>,
}

impl Clone for CandidateState {
    fn clone(&self) -> (res: Self)
        ensures
            res.votes@ == self.votes@,
    {
        let mut votes: HashSet<NodeId> = HashSet::new();
        let ghost keys = vstd::std_specs::hash::spec_hash_keys_iter(&self.votes).remaining().unref();
        proof {
            vstd::std_specs::hash::axiom_spec_hash_keys_iter(&self.votes);
        }
        for v in it: self.votes.iter()
            invariant
                it.seq().unref() == keys,
                keys.to_set() == self.votes@,
                forall|x: NodeId|
                    #[trigger] votes@.contains(x) <==> keys.take(it.index() as int).contains(x),
        {
            proof {
                assert forall|x: NodeId| #[trigger]
                    keys.take(it.index() + 1).contains(x) <==> (keys.take(
                        it.index() as int,
                    ).contains(x) || x == keys[it.index() as int]) by {
                    if keys.take(it.index() + 1).contains(x) {
                        let j = choose|j: int|
                            0 <= j < it.index() + 1 && #[trigger] keys.take(it.index() + 1)[j] == x;
                        if j < it.index() {
                            assert(keys.take(it.index() as int)[j] == x);
                        }
                    }
                    if keys.take(it.index() as int).contains(x) {
                        let j = choose|j: int|
                            0 <= j < it.index() && #[trigger] keys.take(it.index() as int)[j] == x;
                        assert(keys.take(it.index() + 1)[j] == x);
                    }
                    if x == keys[it.index() as int] {
                        assert(keys.take(it.index() + 1)[it.index() as int] == x);
                    }
                }
            }
            votes.insert(*v);
        }
        assert(votes@ =~= self.votes@) by {
            assert(keys.take(keys.len() as int) =~= keys);
        }
        CandidateState { votes }
    }
}

impl Default for CandidateState {
    fn default() -> (res: Self)
        ensures
            res.votes@ == Set::<NodeId>::empty(),
    {
        CandidateState { votes: HashSet::new() }
    }
}

impl CandidateState {
    /// Initialize when changing to candidate:
    /// vote for yourself
    pub fn new(id: NodeId) -> (res: Self)
        ensures
            res.votes@ == Set::<NodeId>::empty().insert(id),
            res.votes@.finite(),
            res.votes@.len() == 1,
    {
        let mut votes = HashSet::new();
        votes.insert(id);
        CandidateState { votes }
    }

    /// Records the vote of `from`; returns the number of distinct voters.
    pub fn grant(&mut self, from: NodeId) -> (count: usize)
        ensures
            final(self).votes@ == old(self).votes@.insert(from),
            count == final(self).votes@.len(),
            old(self).votes@.finite() ==> final(self).votes@.finite() && count == old(
                self,
            ).votes@.len() + if old(self).votes@.contains(from) {
                0int
            } else {
                1int
            },
    {
        self.votes.insert(from);
        self.votes.len()
    }

    pub fn count(&self) -> (count: usize)
        ensures
            count == self.votes@.len(),
    {
        self.votes.len()
    }

    /// More than half of a cluster of `cluster_size` nodes voted.
    pub fn is_majority(&self, cluster_size: usize) -> (res: bool)
        ensures
            res == (self.votes@.len() >= cluster_size / 2 + 1),
    {
        self.count() >= cluster_size / 2 + 1
    }
}

// ============================================================
// RaftState
// ============================================================

/// The volatile state of a node: its role, its term, its vote and what its
/// role tracks.
pub struct RaftState {
    pub role: RaftRole,
    pub current_term: u64,
    pub voted_for: Option<NodeId>,
    pub commit_index: u64,
    pub last_applied: u64,
    pub leader: Option<LeaderState>,
    pub candidate: Option<CandidateState>,
}

impl RaftState {
    /// Each role keeps exactly its own record: a follower neither, a
    /// candidate its votes, a leader its per-peer progress. `check_invariants`
    /// checks this.
    pub open spec fn invariants_hold(&self) -> bool {
        match self.role {
            RaftRole::Follower => self.candidate is None && self.leader is None,
            RaftRole::Candidate => self.candidate is Some && self.leader is None,
            RaftRole::Leader => self.leader is Some && self.candidate is None,
        }
    }

    pub fn new() -> (res: Self)
        ensures
            res.role == RaftRole::Follower,
            res.current_term == 0,
            res.voted_for is None,
            res.commit_index == 0,
            res.last_applied == 0,
            res.leader is None,
            res.candidate is None,
    {
        RaftState {
            role: RaftRole::Follower,
            current_term: 0,
            voted_for: None,
            commit_index: 0,
            last_applied: 0,
            leader: None,
            candidate: None,
        }
    }

    /// Steps down to follower; a higher term is adopted, and with it the vote
    /// is cleared.
    pub fn become_follower(&mut self, term: u64)
        ensures
            final(self).invariants_hold(),
            final(self).role == RaftRole::Follower,
            final(self).current_term == if term > old(self).current_term {
                term
            } else {
                old(self).current_term
            },
            final(self).voted_for == if term > old(self).current_term {
                None
            } else {
                old(self).voted_for
            },
            final(self).commit_index == old(self).commit_index,
            final(self).last_applied == old(self).last_applied,
            final(self).leader is None,
            final(self).candidate is None,
    {
        if term > self.current_term {
            self.current_term = term;
            self.voted_for = None;
        }
        self.role = RaftRole::Follower;
        self.leader = None;
        self.candidate = None;
    }

    /// Starts an election: a new term, a vote for itself.
    pub fn become_candidate(&mut self, id: NodeId)
        requires
            old(self).current_term < u64::MAX,
        ensures
            final(self).invariants_hold(),
            final(self).role == RaftRole::Candidate,
            final(self).current_term == old(self).current_term + 1,
            final(self).voted_for == Some(id),
            final(self).commit_index == old(self).commit_index,
            final(self).last_applied == old(self).last_applied,
            final(self).leader is None,
            final(self).candidate matches Some(c) && c.votes@ == Set::<NodeId>::empty().insert(id),
    {
        self.current_term = self.current_term + 1;
        self.voted_for = Some(id);
        self.role = RaftRole::Candidate;
        self.leader = None;
        self.candidate = Some(CandidateState::new(id))
    }

    /// Takes the lead: per-peer progress starts just past `last_log_index`.
    pub fn become_leader(&mut self, peers: &[NodeId], last_log_index: u64)
        requires
            peers@.len() > 0 ==> last_log_index < u64::MAX,
        ensures
            final(self).invariants_hold(),
            final(self).role == RaftRole::Leader,
            final(self).current_term == old(self).current_term,
            final(self).voted_for == old(self).voted_for,
            final(self).commit_index == old(self).commit_index,
            final(self).last_applied == old(self).last_applied,
            final(self).candidate is None,
            final(self).leader matches Some(l) && {
                &&& forall|p: NodeId| #[trigger] l.next_index@.contains_key(p) == peers@.contains(p)
                &&& forall|p: NodeId| #[trigger] l.match_index@.contains_key(p) == peers@.contains(p)
                &&& forall|p: NodeId|
                    l.next_index@.contains_key(p) ==> #[trigger] l.next_index@[p] == last_log_index + 1
                &&& forall|p: NodeId|
                    l.match_index@.contains_key(p) ==> #[trigger] l.match_index@[p] == 0
            },
    {
        self.role = RaftRole::Leader;
        self.candidate = None;
        self.leader = Some(LeaderState::new(peers, last_log_index))
    }

    pub fn as_leader(&self) -> (res: Option<&LeaderState>)
        ensures
            res == match self.leader {
                Some(l) => Some(&l),
                None => None::<&LeaderState>,
            },
    {
        self.leader.as_ref()
    }

    pub fn as_leader_mut(&mut self) -> (res: Option<&mut LeaderState>)
        ensures
            match res {
                Some(l) => {
                    &&& old(self).leader == Some(*l)
                    &&& *final(self) == RaftState { leader: Some(*final(l)), ..*old(self) }
                },
                None => {
                    &&& old(self).leader is None
                    &&& *final(self) == *old(self)
                },
            },
    {
        self.leader.as_mut()
    }

    pub fn as_candidate(&self) -> (res: Option<&CandidateState>)
        ensures
            res == match self.candidate {
                Some(c) => Some(&c),
                None => None::<&CandidateState>,
            },
    {
        self.candidate.as_ref()
    }

    pub fn as_candidate_mut(&mut self) -> (res: Option<&mut CandidateState>)
        ensures
            match res {
                Some(c) => {
                    &&& old(self).candidate == Some(*c)
                    &&& *final(self) == RaftState { candidate: Some(*final(c)), ..*old(self) }
                },
                None => {
                    &&& old(self).candidate is None
                    &&& *final(self) == *old(self)
                },
            },
    {
        self.candidate.as_mut()
    }

    /// Whether each role keeps exactly its own record, tested at run time:
    /// the states on which `check_invariants` passes.
    pub fn invariants_ok(&self) -> (ok: bool)
        ensures
            ok == self.invariants_hold(),
    {
        match self.role {
            RaftRole::Follower => self.candidate.is_none() && self.leader.is_none(),
            RaftRole::Candidate => self.candidate.is_some() && self.leader.is_none(),
            RaftRole::Leader => self.leader.is_some() && self.candidate.is_none(),
        }
    }

    /// Checks, for the current role, which of the leader and candidate
    /// records are present; the check passes on exactly the states of
    /// `invariants_hold` (test them first with `invariants_ok`).
    pub fn check_invariants(&self)
        requires
            self.invariants_hold(),
        ensures
            self.invariants_hold(),
    {
        match self.role {
            RaftRole::Follower => {
                assert(self.candidate is None);
                assert(self.leader is None);
            },
            RaftRole::Candidate => {
                assert(self.candidate is Some);
                assert(self.leader is None);
            },
            RaftRole::Leader => {
                assert(self.leader is Some);
                assert(self.candidate is None);
            },
        }
    }
}

} // verus!
