use vstd::prelude::*;

use crate::log::command::{LogCommand, LogReply};
use crate::log::raft_log::{
    append_gap_free, appended, entry_at, is_contiguous, last_index_of, last_term_of,
    lemma_append_keeps_contiguous, lemma_contiguous_entry_at, lemma_truncate_keeps_contiguous,
    matches_of, saturating_succ, slice_of, truncated_from, LogEntry, RaftLog,
};

verus! {

/// The state of the log actor: one log that it alone changes, one command at
/// a time.
pub struct LogActor {
    log: RaftLog,
}

impl LogActor {
    /// The log of the actor.
    pub closed spec fn log_view(&self) -> RaftLog {
        self.log
    }

    /// The log is well formed and its entries carry consecutive indices.
    pub open spec fn inv(&self) -> bool {
        &&& self.log_view().wf()
        &&& is_contiguous(self.log_view()@, self.log_view().first())
    }

    pub fn new() -> (actor: Self)
        ensures
            actor.inv(),
            actor.log_view().offset == 1,
            actor.log_view()@ == Seq::<LogEntry>::empty(),
    {
        LogActor { log: RaftLog::new() }
    }

    /// The log that the actor holds.
    pub fn log(&self) -> (log: &RaftLog)
        ensures
            *log == self.log_view(),
    {
        &self.log
    }

    /// Whether an `Append` command would leave a gap in the log, which the
    /// actor does not accept (see `handle`).
    pub fn append_leaves_gap(&self, cmd: &LogCommand) -> (res: bool)
        requires
            self.inv(),
        ensures
            res == (*cmd matches LogCommand::Append { prev_log_index, prev_log_term, entries }
                && matches_of(
                self.log_view()@,
                self.log_view().first(),
                prev_log_index as int,
                prev_log_term,
            ) && !append_gap_free(self.log_view()@, self.log_view().first(), entries@)),
    {
        match cmd {
            LogCommand::Append { prev_log_index, prev_log_term, entries } => {
                self.log.append_leaves_gap(*prev_log_index, *prev_log_term, entries)
            },
            _ => false,
        }
    }

    /// handle single command
    pub fn handle(&mut self, cmd: LogCommand) -> (reply: LogReply)
        requires
            old(self).inv(),
            cmd matches LogCommand::Append { prev_log_index, prev_log_term, entries } ==> (
            matches_of(
                old(self).log_view()@,
                old(self).log_view().first(),
                prev_log_index as int,
                prev_log_term,
            ) ==> append_gap_free(old(self).log_view()@, old(self).log_view().first(), entries@)),
        ensures
            final(self).inv(),
            final(self).log_view().offset == old(self).log_view().offset,
            ({
                let s = old(self).log_view()@;
                let first = old(self).log_view().first();
                let t = final(self).log_view()@;
                match cmd {
                    LogCommand::Append { prev_log_index, prev_log_term, entries } => {
                        let ok = matches_of(s, first, prev_log_index as int, prev_log_term);
                        &&& reply == LogReply::Appended(ok)
                        &&& t == if ok {
                            appended(s, first, entries@)
                        } else {
                            s
                        }
                    },
                    LogCommand::TruncateFrom { from_index } => {
                        &&& t == truncated_from(s, first, from_index as int)
                        &&& reply == LogReply::Removed((s.len() - t.len()) as usize)
                    },
                    LogCommand::TruncateSuffix { upto_index } => {
                        &&& t == truncated_from(s, first, saturating_succ(upto_index) as int)
                        &&& reply == LogReply::Removed((s.len() - t.len()) as usize)
                    },
                    LogCommand::LastInfo => {
                        &&& t == s
                        &&& reply == LogReply::LastInfo(
                            last_index_of(s, first) as u64,
                            last_term_of(s),
                        )
                    },
                    LogCommand::Get { index } => {
                        &&& t == s
                        &&& reply matches LogReply::Entry(e)
                        &&& e is Some == entry_at(s, first, index as int) is Some
                        &&& e matches Some(e) ==> e@ == entry_at(s, first, index as int)->0@
                    },
                    LogCommand::Slice { from, to } => {
                        &&& t == s
                        &&& reply matches LogReply::Entries(v)
                        &&& v@.len() == slice_of(s, first, from as int, to as int).len()
                        &&& forall|i: int|
                            0 <= i < v@.len() ==> #[trigger] v@[i]@ == slice_of(
                                s,
                                first,
                                from as int,
                                to as int,
                            )[i]@
                    },
                    LogCommand::Matches { prev_log_index, prev_log_term } => {
                        &&& t == s
                        &&& reply == LogReply::Matches(
                            matches_of(s, first, prev_log_index as int, prev_log_term),
                        )
                    },
                }
            }),
    {
        let ghost s = self.log@;
        let ghost first = self.log.first();
        proof {
            lemma_contiguous_entry_at(s, first, 0);
        }
        match cmd {
            LogCommand::Append { prev_log_index, prev_log_term, entries } => {
                let ghost es = entries@;
                let ok = self.log.append(prev_log_index, prev_log_term, entries);
                proof {
                    if ok {
                        lemma_append_keeps_contiguous(s, first, es);
                    }
                }
                LogReply::Appended(ok)
            },
            LogCommand::TruncateFrom { from_index } => {
                proof {
                    lemma_contiguous_entry_at(s, first, from_index as int);
                    lemma_truncate_keeps_contiguous(s, first, from_index as int);
                }
                let removed = self.log.truncate_from(from_index);
                LogReply::Removed(removed)
            },
            LogCommand::TruncateSuffix { upto_index } => {
                proof {
                    lemma_contiguous_entry_at(s, first, saturating_succ(upto_index) as int);
                    lemma_truncate_keeps_contiguous(s, first, saturating_succ(upto_index) as int);
                }
                let removed = self.log.truncate_suffix(upto_index);
                LogReply::Removed(removed)
            },
            LogCommand::LastInfo => LogReply::LastInfo(self.log.last_index(), self.log.last_term()),
            LogCommand::Get { index } => {
                let e = match self.log.get(index) {
                    Some(e) => Some(e.clone()),
                    None => None,
                };
                LogReply::Entry(e)
            },
            LogCommand::Slice { from, to } => LogReply::Entries(self.log.slice(from, to)),
            LogCommand::Matches { prev_log_index, prev_log_term } => {
                LogReply::Matches(self.log.matches(prev_log_index, prev_log_term))
            },
        }
    }
}

} // verus!
