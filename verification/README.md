# simple_raft

A small Raft core whose logic is verified with Verus.

- `src/log/raft_log.rs`: the replicated log (`RaftLog`, `LogEntry`) with the
  append/overwrite rule, truncation, slicing and the consistency check, and
  the laws of the log (contiguity, the append law, idempotence).
- `src/log/command.rs`, `src/log/log_actor.rs`: the commands of the log actor
  and the step that answers one of them.
- `src/raft/`: roles, the per-role state (`RaftState`, `LeaderState`,
  `CandidateState`), the messages, and `node.rs`, the decision core of a node:
  each handler takes one event and returns the actions (sends, broadcasts,
  timer resets) it asks for.
- `src/raft.rs`, `src/raft_log.rs`: the simpler peer record and its log.
- `app/`: the tokio shell (log actor task and handle, node driver that
  performs the actions) and the serde forms of the wire types.
