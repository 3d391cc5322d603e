pub mod command;
pub mod log_actor;
pub mod raft_log;
