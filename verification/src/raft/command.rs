use vstd::prelude::*;

use crate::raft::role::RaftRole;
use crate::raft::state::NodeId;

verus! {

/// The answer to a client proposal.
#[derive(Debug, Clone, PartialEq, Eq)]
pub struct ProposeResut {
    pub accepted: bool,
    pub index: Option<u64>,
}

impl ProposeResut {
    pub fn rejectd() -> (res: Self)
        ensures
            !res.accepted,
            res.index is None,
    {
        ProposeResut { accepted: false, index: None }
    }
}

/// A snapshot of what a node is.
#[derive(Debug, Clone, PartialEq, Eq)]
pub struct InspectResult {
    pub role: RaftRole,
    pub term: u64,
    pub commit_index: u64,
    pub last_index: u64,
    pub voted_for: Option<NodeId>,
}

} // verus!
