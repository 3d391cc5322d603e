use vstd::prelude::*;

use crate::log::raft_log::LogEntry;

verus! {

/// A request to the log actor; the reply travels back as a `LogReply`.
pub enum LogCommand {
    /// raft core: append / overwrite logs
    /// return true indicates that the consistency check has been passed.
    Append { prev_log_index: u64, prev_log_term: u64, entries: Vec<LogEntry> },
    /// delete from (and including) the index from_index.
    /// return the number of delete items.
    TruncateFrom { from_index: u64 },
    /// Retain up to and including the upto_index. and delete the rest.
    /// return the number of deleted items.
    TruncateSuffix { upto_index: u64 },
    /// get last entry index / term
    LastInfo,
    /// get log by index
    Get { index: u64 },
    /// get log slice by [from, to]
    Slice { from: u64, to: u64 },
    /// Consistency check (without modification)
    Matches { prev_log_index: u64, prev_log_term: u64 },
}

/// The answer to a `LogCommand`, one variant per kind of command.
pub enum LogReply {
    /// the consistency check passed and the entries were written
    Appended(bool),
    /// the number of deleted entries
    Removed(usize),
    /// last index and last term
    LastInfo(u64, u64),
    /// a copy of the entry at the requested index
    Entry(Option<LogEntry>),
    /// copies of the entries of the requested interval
    Entries(Vec<LogEntry>),
    /// result of the consistency check
    Matches(bool),
}

} // verus!
