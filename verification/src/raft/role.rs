use vstd::prelude::*;

verus! {

/// The role a node plays in the cluster.
#[derive(Debug, Clone, Copy, PartialEq, Eq, Structural, PartialOrd)]
pub enum RaftRole {
    Follower,
    Candidate,
    Leader,
}

impl RaftRole {
    pub fn is_ledaer(self) -> (res: bool)
        ensures
            res == (self == RaftRole::Leader),
    {
        matches!(self, RaftRole::Leader)
    }

    pub fn is_follower(self) -> (res: bool)
        ensures
            res == (self == RaftRole::Follower),
    {
        matches!(self, RaftRole::Follower)
    }

    pub fn is_candidate(self) -> (res: bool)
        ensures
            res == (self == RaftRole::Candidate),
    {
        matches!(self, RaftRole::Candidate)
    }
}

} // verus!
