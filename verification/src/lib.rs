//! A small Raft core: the replicated log, the per-node role state and the
//! message-handling rules of a Raft node, with their contracts proved by Verus.
pub mod log;
pub mod raft;
pub mod raft_log;
