use vstd::prelude::*;

use crate::log::raft_log::{
    append_gap_free, appended, is_contiguous, last_index_of, last_term_of,
    lemma_append_keeps_contiguous, lemma_contiguous_entry_at, lemma_slice_contiguous, matches_of,
    entry_at, slice_of, term_at_of,
    LogEntry, RaftLog,
};
use crate::raft::message::RaftMessage;
use crate::raft::role::RaftRole;
use crate::raft::state::{LeaderState, NodeId, RaftState};

verus! {

/// What a node asks its surroundings to do, in the order it is asked.
pub enum Action {
    /// send the message to every peer
    Broadcast(RaftMessage),
    /// send the message to one peer
    Send(NodeId, RaftMessage),
    /// restart the election timeout
    ResetElectionTimer,
}

/// `s` after `become_follower(term)`.
pub open spec fn followed(s: RaftState, term: u64) -> RaftState {
    RaftState {
        role: RaftRole::Follower,
        current_term: if term > s.current_term {
            term
        } else {
            s.current_term
        },
        voted_for: if term > s.current_term {
            None
        } else {
            s.voted_for
        },
        leader: None,
        candidate: None,
        ..s
    }
}

/// `t` is `s` after `become_leader(peers, last_log_index)`: the role is
/// leader and every peer's progress starts just past `last_log_index`.
pub open spec fn led(s: RaftState, t: RaftState, peers: Seq<NodeId>, last_log_index: int) -> bool {
    &&& t.current_term == s.current_term
    &&& t.voted_for == s.voted_for
    &&& t.commit_index == s.commit_index
    &&& t.last_applied == s.last_applied
    &&& fresh_leader(t, peers, last_log_index)
}

/// `t` is a leader whose record starts every peer just past `last_log_index`.
pub open spec fn fresh_leader(t: RaftState, peers: Seq<NodeId>, last_log_index: int) -> bool {
    &&& t.role == RaftRole::Leader
    &&& t.candidate is None
    &&& t.leader matches Some(l) && {
        &&& forall|p: NodeId| #[trigger] l.next_index@.contains_key(p) == peers.contains(p)
        &&& forall|p: NodeId| #[trigger] l.match_index@.contains_key(p) == peers.contains(p)
        &&& forall|p: NodeId|
            l.next_index@.contains_key(p) ==> #[trigger] l.next_index@[p] == last_log_index + 1
        &&& forall|p: NodeId| l.match_index@.contains_key(p) ==> #[trigger] l.match_index@[p] == 0
    }
}

/// `a` broadcasts a heartbeat: an append of no entries after the last entry
/// of `log`, in term `term`, from `leader_id`, with the given commit index.
pub open spec fn is_heartbeat(a: Action, term: u64, leader_id: NodeId, log: RaftLog, commit: u64) -> bool {
    a matches Action::Broadcast(
        RaftMessage::AppendEntires {
            term: t,
            leader_id: l,
            prev_log_index: p,
            prev_log_term: pt,
            entries: es,
            leader_commit: c,
        },
    ) && t == term && l == leader_id && p == last_index_of(log@, log.first()) && pt
        == last_term_of(log@) && es@.len() == 0 && c == commit
}

/// Terms only grow, and within one term a vote once cast stays with the
/// candidate it went to: at most one vote per term.
pub open spec fn keeps_term_and_vote(before: RaftState, after: RaftState) -> bool {
    &&& after.current_term >= before.current_term
    &&& after.current_term == before.current_term && before.voted_for is Some ==> after.voted_for
        == before.voted_for
}

/// The number of nodes that form a majority of a cluster of `peers + 1`.
pub open spec fn majority_of(peers: nat) -> int {
    ((peers + 1) / 2 + 1) as int
}

/// `actions` is the single append request that a leader in state `s`, with
/// log `log` and id `id`, sends to `peer`: the entries from the peer's next
/// index up to the last index (none when the log does not reach the next
/// index), after the previous index and its term, with the commit index. It is
/// empty when there is no leader record, no next index for the peer, or no
/// term at the previous index.
pub open spec fn is_append_request(
    actions: Seq<Action>,
    s: RaftState,
    id: NodeId,
    log: RaftLog,
    peer: NodeId,
) -> bool {
    match s.leader {
        None => actions.len() == 0,
        Some(l) => if !l.next_index@.contains_key(peer) {
            actions.len() == 0
        } else {
            let next = l.next_index@[peer];
            let prev = next - 1;
            let last = last_index_of(log@, log.first());
            match term_at_of(log@, log.first(), prev) {
                None => actions.len() == 0,
                Some(pt) => {
                    let expected = if last >= next {
                        slice_of(log@, log.first(), next as int, last)
                    } else {
                        Seq::empty()
                    };
                    &&& actions.len() == 1
                    &&& actions[0] matches Action::Send(
                        to,
                        RaftMessage::AppendEntires {
                            term,
                            leader_id,
                            prev_log_index,
                            prev_log_term,
                            entries,
                            leader_commit,
                        },
                    )
                    &&& to == peer
                    &&& term == s.current_term
                    &&& leader_id == id
                    &&& prev_log_index == prev
                    &&& prev_log_term == pt
                    &&& leader_commit == s.commit_index
                    &&& entries@.len() == expected.len()
                    &&& forall|i: int| 0 <= i < expected.len() ==> #[trigger] entries@[i]@ == expected[i]@
                },
            }
        },
    }
}

/// The order of indices.
pub open spec fn index_leq() -> spec_fn(u64, u64) -> bool {
    |a: u64, b: u64| a <= b
}

/// The highest index that a leader with record `l` knows `p` to hold: its
/// match index, 0 when it has none.
pub open spec fn peer_match(l: LeaderState, p: NodeId) -> u64 {
    if l.match_index@.contains_key(p) {
        l.match_index@[p]
    } else {
        0
    }
}

/// The indices known to be held across the cluster: the leader's own last
/// index, then each peer's match index.
pub open spec fn held_indices(last_index: u64, l: LeaderState, peers: Seq<NodeId>) -> Seq<u64> {
    seq![last_index] + peers.map_values(|p: NodeId| peer_match(l, p))
}

/// The highest index that at least `majority` of `indices` reach: the
/// `majority`-th largest of them.
pub open spec fn majority_index(indices: Seq<u64>, majority: int) -> u64 {
    indices.sort_by(index_leq())[indices.len() - majority]
}

/// The commit index after `maybe_advance_commit`: a leader moves it up to the
/// highest index that a majority holds, when that index is above the commit
/// index and its entry is of the current term (a missing entry counts as
/// term 0).
pub open spec fn advanced_commit(s: RaftState, log: RaftLog, peers: Seq<NodeId>) -> u64 {
    if s.role == RaftRole::Leader && s.leader is Some {
        let n = majority_index(
            held_indices(last_index_of(log@, log.first()) as u64, s.leader->0, peers),
            majority_of(peers.len()),
        );
        let t = match term_at_of(log@, log.first(), n as int) {
            Some(t) => t,
            None => 0,
        };
        if n > s.commit_index && t == s.current_term {
            n
        } else {
            s.commit_index
        }
    } else {
        s.commit_index
    }
}

/// How many of `s` are at least `n`.
pub open spec fn count_at_least(s: Seq<u64>, n: u64) -> nat
    decreases s.len(),
{
    if s.len() == 0 {
        0
    } else {
        count_at_least(s.drop_last(), n) + if s.last() >= n {
            1nat
        } else {
            0nat
        }
    }
}

proof fn lemma_count_remove(s: Seq<u64>, n: u64, i: int)
    requires
        0 <= i < s.len(),
    ensures
        count_at_least(s, n) == count_at_least(s.remove(i), n) + if s[i] >= n {
            1nat
        } else {
            0nat
        },
    decreases s.len(),
{
    if i == s.len() - 1 {
        assert(s.remove(i) =~= s.drop_last());
    } else {
        lemma_count_remove(s.drop_last(), n, i);
        assert(s.remove(i).drop_last() =~= s.drop_last().remove(i));
        assert(s.remove(i).last() == s.last());
    }
}

/// Reordering a sequence keeps how many of it are at least `n`.
proof fn lemma_count_permutation(a: Seq<u64>, b: Seq<u64>, n: u64)
    requires
        a.to_multiset() == b.to_multiset(),
    ensures
        count_at_least(a, n) == count_at_least(b, n),
    decreases a.len(),
{
    broadcast use vstd::seq_lib::group_to_multiset_ensures;
    broadcast use vstd::multiset::group_multiset_properties;

    if a.len() == 0 {
        vstd::seq_lib::to_multiset_len(a);
        vstd::seq_lib::to_multiset_len(b);
        assert(b.len() == 0);
    } else {
        let x = a.last();
        assert(a.to_multiset().count(x) > 0) by {
            assert(a.contains(x)) by {
                assert(a[a.len() - 1] == x);
            }
        }
        assert(b.contains(x));
        let i = choose|i: int| 0 <= i < b.len() && b[i] == x;
        let rest_a = a.drop_last();
        let rest_b = b.remove(i);
        vstd::seq_lib::to_multiset_remove(b, i);
        assert(a =~= rest_a.push(x));
        vstd::seq_lib::to_multiset_build(rest_a, x);
        assert(rest_a.to_multiset() =~= a.to_multiset().remove(x));
        lemma_count_permutation(rest_a, rest_b, n);
        lemma_count_remove(b, n, i);
    }
}

proof fn lemma_count_tail(s: Seq<u64>, n: u64, p: int)
    requires
        0 <= p <= s.len(),
        forall|k: int| p <= k < s.len() ==> s[k] >= n,
    ensures
        count_at_least(s, n) >= s.len() - p,
    decreases s.len(),
{
    if s.len() > p {
        lemma_count_tail(s.drop_last(), n, p);
    }
}

/// Whenever `maybe_advance_commit` moves a leader's commit index, it moves it
/// up, to an index whose entry is of the leader's current term, and that a
/// majority of the cluster holds.
pub proof fn lemma_commit_advance_is_safe(s: RaftState, log: RaftLog, peers: Seq<NodeId>)
    requires
        advanced_commit(s, log, peers) != s.commit_index,
    ensures
        ({
            let c = advanced_commit(s, log, peers);
            &&& s.role == RaftRole::Leader
            &&& c > s.commit_index
            &&& match term_at_of(log@, log.first(), c as int) {
                Some(t) => t == s.current_term,
                None => s.current_term == 0,
            }
            &&& s.leader matches Some(l) && count_at_least(
                held_indices(last_index_of(log@, log.first()) as u64, l, peers),
                c,
            ) >= majority_of(peers.len())
        }),
{
    let l = s.leader->0;
    let held = held_indices(last_index_of(log@, log.first()) as u64, l, peers);
    let leq = index_leq();
    let maj = majority_of(peers.len());
    assert(vstd::relations::total_ordering(leq));
    held.lemma_sort_by_ensures(leq);
    let sv = held.sort_by(leq);
    broadcast use vstd::seq_lib::group_to_multiset_ensures;

    assert(sv.len() == held.len()) by {
        vstd::seq_lib::to_multiset_len(sv);
        vstd::seq_lib::to_multiset_len(held);
    }
    assert(held.len() == peers.len() + 1);
    assert(0 <= held.len() - maj);
    let c = sv[held.len() - maj];
    assert forall|k: int| held.len() - maj <= k < sv.len() implies sv[k] >= c by {
        if k > held.len() - maj {
            assert(leq(sv[held.len() - maj], sv[k]));
        }
    }
    lemma_count_tail(sv, c, held.len() - maj);
    lemma_count_permutation(held, sv, c);
}

/// `v` is in ascending order.
pub open spec fn sorted(v: Seq<u64>) -> bool {
    forall|i: int, j: int| 0 <= i <= j < v.len() ==> v[i] <= v[j]
}

/// Sorts `v` in ascending order.
fn sort_unstable(v: &mut Vec<u64>)
    ensures
        final(v)@.len() == old(v)@.len(),
        final(v)@.to_multiset() == old(v)@.to_multiset(),
        sorted(final(v)@),
{
    broadcast use vstd::seq_lib::to_multiset_update;
    broadcast use vstd::multiset::group_multiset_properties;
    let n = v.len();
    let mut i: usize = 1;
    if n == 0 {
        return;
    }
    while i < n
        invariant
            1 <= i <= n == v@.len(),
            v@.to_multiset() == old(v)@.to_multiset(),
            sorted(v@.take(i as int)),
        decreases n - i,
    {
        let mut j = i;
        assert forall|a: int, b: int| 0 <= a <= b < i implies v@[a] <= v@[b] by {
            assert(v@.take(i as int)[a] == v@[a]);
            assert(v@.take(i as int)[b] == v@[b]);
        }
        while j > 0 && v[j - 1] > v[j]
            invariant
                0 <= j <= i < n == v@.len(),
                v@.to_multiset() == old(v)@.to_multiset(),
                forall|a: int, b: int| 0 <= a <= b <= i && a != j && b != j ==> v@[a] <= v@[b],
                forall|b: int| j < b <= i ==> v@[j as int] <= v@[b],
            decreases j,
        {
            let a = v[j - 1];
            let b = v[j];
            let ghost before = v@;
            v.set(j - 1, b);
            v.set(j, a);
            proof {
                assert(v@ == before.update(j - 1, b).update(j as int, a));
                assert(before.update(j - 1, b)[j as int] == b);
                let m = before.to_multiset();
                let mid = before.update(j - 1, b);
                vstd::seq_lib::to_multiset_update(before, j - 1, b);
                vstd::seq_lib::to_multiset_update(mid, j as int, a);
                assert(mid.to_multiset() == m.insert(b).remove(a));
                assert(v@.to_multiset() == mid.to_multiset().insert(a).remove(b));
                assert(m.count(a) > 0) by {
                    vstd::seq_lib::to_multiset_contains(before, a);
                    assert(before.contains(a)) by {
                        assert(before[j - 1] == a);
                    }
                }
                assert(m.insert(b).remove(a).insert(a) =~= m.insert(b));
                assert(m.insert(b).remove(b) =~= m);
            }
            j = j - 1;
        }
        assert(sorted(v@.take(i + 1))) by {
            assert forall|a: int, b: int| 0 <= a <= b < i + 1 implies #[trigger] v@.take(i + 1)[a]
                <= #[trigger] v@.take(i + 1)[b] by {
                if a < j && b > j {
                    assert(v@[a] <= v@[j as int - 1]);
                }
            }
        }
        i = i + 1;
    }
    assert(v@.take(n as int) =~= v@);
}

/// The decision core of a Raft node: its identity, its peers, its role state
/// and its log. Each handler takes one event and returns the actions it asks
/// for.
pub struct RaftNode {
    id: NodeId,
    peers: Vec<NodeId>,
    state: RaftState,
    log: RaftLog,
}

impl RaftNode {
    pub closed spec fn node_id(&self) -> NodeId {
        self.id
    }

    pub closed spec fn peers_view(&self) -> Seq<NodeId> {
        self.peers@
    }

    pub closed spec fn state_view(&self) -> RaftState {
        self.state
    }

    pub closed spec fn log_view(&self) -> RaftLog {
        self.log
    }

    /// What every handler keeps: a contiguous well-formed log, a role record
    /// for the current role only, and per-peer next indices that are at least 1.
    pub open spec fn inv(&self) -> bool {
        &&& self.log_view().wf()
        &&& is_contiguous(self.log_view()@, self.log_view().first())
        &&& self.peers_view().len() < usize::MAX
        &&& self.state_view().invariants_hold()
        &&& self.state_view().leader matches Some(l) ==> forall|p: NodeId|
            #[trigger] l.next_index@.contains_key(p) ==> l.next_index@[p] >= 1
    }

    /// The id, the peers and the log stay as they were.
    pub open spec fn same_but_state(&self, other: &RaftNode) -> bool {
        &&& self.node_id() == other.node_id()
        &&& self.peers_view() == other.peers_view()
        &&& self.log_view() == other.log_view()
    }

    pub open spec fn spec_last_index(&self) -> int {
        last_index_of(self.log_view()@, self.log_view().first())
    }

    pub open spec fn spec_majority(&self) -> int {
        majority_of(self.peers_view().len())
    }

    pub fn new(id: NodeId, peers: Vec<NodeId>, log: RaftLog) -> (node: Self)
        requires
            log.wf(),
            is_contiguous(log@, log.first()),
            peers@.len() < usize::MAX,
        ensures
            node.inv(),
            node.node_id() == id,
            node.peers_view() == peers@,
            node.log_view() == log,
            node.state_view().role == RaftRole::Follower,
            node.state_view().current_term == 0,
            node.state_view().voted_for is None,
            node.state_view().commit_index == 0,
            node.state_view().last_applied == 0,
    {
        RaftNode { id, peers, state: RaftState::new(), log }
    }

    pub fn id(&self) -> (id: NodeId)
        ensures
            id == self.node_id(),
    {
        self.id
    }

    pub fn peers(&self) -> (peers: &Vec<NodeId>)
        ensures
            peers@ == self.peers_view(),
    {
        &self.peers
    }

    pub fn state(&self) -> (state: &RaftState)
        ensures
            *state == self.state_view(),
    {
        &self.state
    }

    pub fn log(&self) -> (log: &RaftLog)
        ensures
            *log == self.log_view(),
    {
        &self.log
    }

    fn cluster_size(&self) -> (n: usize)
        requires
            self.inv(),
        ensures
            n == self.peers_view().len() + 1,
    {
        self.peers.len() + 1
    }

    fn majority(&self) -> (n: usize)
        requires
            self.inv(),
        ensures
            n == self.spec_majority(),
    {
        self.cluster_size() / 2 + 1
    }

    fn is_leader(&self) -> (res: bool)
        ensures
            res == (self.state_view().role == RaftRole::Leader),
    {
        self.state.role == RaftRole::Leader
    }

    fn is_candidate(&self) -> (res: bool)
        ensures
            res == (self.state_view().role == RaftRole::Candidate),
    {
        self.state.role == RaftRole::Candidate
    }

    pub fn become_follower(&mut self, term: u64)
        requires
            old(self).inv(),
        ensures
            final(self).inv(),
            keeps_term_and_vote(old(self).state_view(), final(self).state_view()),
            final(self).same_but_state(old(self)),
            final(self).state_view() == followed(old(self).state_view(), term),
            final(self).state_view().role == RaftRole::Follower,
            term > old(self).state_view().current_term ==> {
                &&& final(self).state_view().current_term == term
                &&& final(self).state_view().voted_for is None
            },
            term <= old(self).state_view().current_term ==> {
                &&& final(self).state_view().current_term == old(self).state_view().current_term
                &&& final(self).state_view().voted_for == old(self).state_view().voted_for
            },
            final(self).state_view().commit_index == old(self).state_view().commit_index,
            final(self).state_view().last_applied == old(self).state_view().last_applied,
    {
        self.state.become_follower(term);
    }

    /// send heartbeat(empty entries) to all peer
    pub fn broadcast_heartbeat(&self) -> (actions: Vec<Action>)
        requires
            self.inv(),
        ensures
            actions@.len() == 1,
            is_heartbeat(
                actions@[0],
                self.state_view().current_term,
                self.node_id(),
                self.log_view(),
                self.state_view().commit_index,
            ),
            actions@[0] matches Action::Broadcast(
                RaftMessage::AppendEntires {
                    term,
                    leader_id,
                    prev_log_index,
                    prev_log_term,
                    entries,
                    leader_commit,
                },
            ) && {
                &&& term == self.state_view().current_term
                &&& leader_id == self.node_id()
                &&& prev_log_index == self.spec_last_index()
                &&& entries@.len() == 0
                &&& leader_commit == self.state_view().commit_index
                // the leader's own log matches the heartbeat
                &&& (self.log_view()@.len() > 0 || self.log_view().first() == 1) ==> matches_of(
                    self.log_view()@,
                    self.log_view().first(),
                    prev_log_index as int,
                    prev_log_term,
                )
            },
    {
        proof {
            let s = self.log@;
            if s.len() > 0 {
                lemma_contiguous_entry_at(s, self.log.first(), self.spec_last_index());
                assert(s.last() == s[s.len() - 1]);
            }
        }
        let last_log_index = self.log.last_index();
        let last_log_term = self.log.last_term();
        let msg = RaftMessage::AppendEntires {
            term: self.state.current_term,
            leader_id: self.id,
            prev_log_index: last_log_index,
            prev_log_term: last_log_term,
            entries: Vec::new(),
            leader_commit: self.state.commit_index,
        };
        let mut actions = Vec::new();
        actions.push(Action::Broadcast(msg));
        actions
    }

    /// Takes the lead and announces it with a heartbeat.
    pub fn become_leader(&mut self) -> (actions: Vec<Action>)
        requires
            old(self).inv(),
            old(self).peers_view().len() > 0 ==> old(self).spec_last_index() < u64::MAX,
        ensures
            final(self).inv(),
            keeps_term_and_vote(old(self).state_view(), final(self).state_view()),
            final(self).same_but_state(old(self)),
            led(
                old(self).state_view(),
                final(self).state_view(),
                old(self).peers_view(),
                old(self).spec_last_index(),
            ),
            actions@.len() == 1,
            is_heartbeat(
                actions@[0],
                old(self).state_view().current_term,
                old(self).node_id(),
                old(self).log_view(),
                old(self).state_view().commit_index,
            ),
    {
        let last_log_index = self.log.last_index();
        self.state.become_leader(self.peers.as_slice(), last_log_index);
        self.broadcast_heartbeat()
    }

    ///check election won
    pub fn check_election_won(&mut self) -> (actions: Vec<Action>)
        requires
            old(self).inv(),
            old(self).state_view().role == RaftRole::Candidate
                && old(self).state_view().candidate->0.votes@.len() >= old(self).spec_majority()
                && old(self).peers_view().len() > 0 ==> old(self).spec_last_index() < u64::MAX,
        ensures
            final(self).inv(),
            keeps_term_and_vote(old(self).state_view(), final(self).state_view()),
            final(self).same_but_state(old(self)),
            if old(self).state_view().role == RaftRole::Candidate
                && old(self).state_view().candidate->0.votes@.len() >= old(self).spec_majority() {
                &&& led(
                    old(self).state_view(),
                    final(self).state_view(),
                    old(self).peers_view(),
                    old(self).spec_last_index(),
                )
                &&& actions@.len() == 1
                &&& is_heartbeat(
                    actions@[0],
                    old(self).state_view().current_term,
                    old(self).node_id(),
                    old(self).log_view(),
                    old(self).state_view().commit_index,
                )
            } else {
                &&& final(self).state_view() == old(self).state_view()
                &&& actions@.len() == 0
            },
    {
        if !self.is_candidate() {
            return Vec::new();
        }
        let count = match self.state.as_candidate() {
            Some(c) => c.count(),
            None => 0,
        };
        if count >= self.majority() {
            self.become_leader()
        } else {
            Vec::new()
        }
    }

    /// Starts an election: a new term, a vote for itself, a vote request to
    /// every peer; a node without peers wins at once.
    pub fn become_candidate(&mut self) -> (actions: Vec<Action>)
        requires
            old(self).inv(),
            old(self).state_view().current_term < u64::MAX,
        ensures
            final(self).inv(),
            keeps_term_and_vote(old(self).state_view(), final(self).state_view()),
            final(self).same_but_state(old(self)),
            final(self).state_view().current_term == old(self).state_view().current_term + 1,
            final(self).state_view().voted_for == Some(old(self).node_id()),
            final(self).state_view().commit_index == old(self).state_view().commit_index,
            final(self).state_view().last_applied == old(self).state_view().last_applied,
            actions@.len() >= 1,
            actions@[0] == Action::Broadcast(
                RaftMessage::RequestVote {
                    term: (old(self).state_view().current_term + 1) as u64,
                    candidate_id: old(self).node_id(),
                    last_log_index: old(self).spec_last_index() as u64,
                    last_log_term: last_term_of(old(self).log_view()@),
                },
            ),
            if 1 >= old(self).spec_majority() {
                &&& fresh_leader(
                    final(self).state_view(),
                    old(self).peers_view(),
                    old(self).spec_last_index(),
                )
                &&& actions@.len() == 2
                &&& is_heartbeat(
                    actions@[1],
                    final(self).state_view().current_term,
                    old(self).node_id(),
                    old(self).log_view(),
                    old(self).state_view().commit_index,
                )
            } else {
                &&& final(self).state_view().role == RaftRole::Candidate
                &&& final(self).state_view().candidate matches Some(c) && c.votes@ == Set::<
                    NodeId,
                >::empty().insert(old(self).node_id())
                &&& actions@.len() == 1
            },
    {
        self.state.become_candidate(self.id);
        let last_log_index = self.log.last_index();
        let last_log_term = self.log.last_term();
        let msg = RaftMessage::RequestVote {
            term: self.state.current_term,
            candidate_id: self.id,
            last_log_index,
            last_log_term,
        };
        let mut actions = Vec::new();
        actions.push(Action::Broadcast(msg));
        assert(Set::<NodeId>::empty().insert(self.id).len() == 1);
        let mut won = self.check_election_won();
        actions.append(&mut won);
        actions
    }

    // ========================================================
    // RequestVote
    // ========================================================

    /// A candidate asks for this node's vote. A request of an older term is
    /// refused at once; a newer term turns this node into a follower of that
    /// term. The vote goes to the candidate when this node has not voted in
    /// the term, or voted for that candidate, and the candidate's log is more
    /// up to date: a higher last term, or the same last term and a higher
    /// last index.
    pub fn handle_request_vote(
        &mut self,
        from: NodeId,
        term: u64,
        candidate_id: NodeId,
        last_log_index: u64,
        last_log_term: u64,
    ) -> (actions: Vec<Action>)
        requires
            old(self).inv(),
        ensures
            final(self).state_view().commit_index == old(self).state_view().commit_index,
            term > old(self).state_view().current_term ==> final(self).state_view().current_term
                == term,
            // a candidate of a newer term whose log is more up to date gets the vote
            term > old(self).state_view().current_term && (last_log_term > last_term_of(
                old(self).log_view()@,
            ) || (last_log_term == last_term_of(old(self).log_view()@) && last_log_index
                > old(self).spec_last_index())) ==> {
                &&& final(self).state_view().voted_for == Some(candidate_id)
                &&& actions@ == seq![
                    Action::ResetElectionTimer,
                    Action::Send(from, RaftMessage::VoteResp { term, vote_granted: true }),
                ]
            },
            final(self).inv(),
            keeps_term_and_vote(old(self).state_view(), final(self).state_view()),
            final(self).same_but_state(old(self)),
            ({
                let s0 = old(self).state_view();
                let log = old(self).log_view();
                if term < s0.current_term {
                    &&& final(self).state_view() == s0
                    &&& actions@ == seq![
                        Action::Send(from, RaftMessage::VoteResp { term, vote_granted: false }),
                    ]
                } else {
                    let s1 = if term > s0.current_term {
                        followed(s0, term)
                    } else {
                        s0
                    };
                    let my_last_index = last_index_of(log@, log.first());
                    let my_last_term = last_term_of(log@);
                    let grant = (s1.voted_for is None || s1.voted_for == Some(candidate_id)) && (
                    last_log_term > my_last_term || (last_log_term == my_last_term
                        && last_log_index > my_last_index));
                    if grant {
                        &&& final(self).state_view() == RaftState {
                            voted_for: Some(candidate_id),
                            ..s1
                        }
                        &&& actions@ == seq![
                            Action::ResetElectionTimer,
                            Action::Send(from, RaftMessage::VoteResp { term, vote_granted: true }),
                        ]
                    } else {
                        &&& final(self).state_view() == s1
                        &&& actions@ == seq![
                            Action::Send(from, RaftMessage::VoteResp { term, vote_granted: false }),
                        ]
                    }
                }
            }),
    {
        let mut actions = Vec::new();
        if term < self.state.current_term {
            let msg = RaftMessage::VoteResp { term, vote_granted: false };
            actions.push(Action::Send(from, msg));
            return actions;
        }
        if term > self.state.current_term {
            self.become_follower(term);
        }
        let mut grant = false;
        let can_vote = match self.state.voted_for {
            None => true,
            Some(v) => v == candidate_id,
        };
        if can_vote {
            let my_last_index = self.log.last_index();
            let my_last_term = self.log.last_term();
            let up_to_date = last_log_term > my_last_term || (last_log_term == my_last_term
                && last_log_index > my_last_index);
            if up_to_date {
                grant = true;
                self.state.voted_for = Some(candidate_id);
                actions.push(Action::ResetElectionTimer);
            }
        }
        actions.push(Action::Send(from, RaftMessage::VoteResp { term, vote_granted: grant }));
        actions
    }

    /// A peer answers this node's vote request. A newer term turns this node
    /// into a follower; a granted vote of the current term, while this node
    /// is a candidate, is counted, and a majority of votes makes it leader.
    pub fn handle_request_vote_resp(&mut self, from: NodeId, term: u64, vote_granted: bool) -> (actions:
        Vec<Action>)
        requires
            old(self).inv(),
            term == old(self).state_view().current_term && old(self).state_view().role
                == RaftRole::Candidate && vote_granted && old(self).state_view().candidate->0.votes@.insert(
                from,
            ).len() >= old(self).spec_majority() && old(self).peers_view().len() > 0 ==> old(
                self,
            ).spec_last_index() < u64::MAX,
        ensures
            final(self).state_view().commit_index == old(self).state_view().commit_index,
            term > old(self).state_view().current_term ==> {
                &&& final(self).state_view().current_term == term
                &&& final(self).state_view().voted_for is None
                &&& final(self).state_view().role == RaftRole::Follower
            },
            final(self).inv(),
            keeps_term_and_vote(old(self).state_view(), final(self).state_view()),
            final(self).same_but_state(old(self)),
            ({
                let s0 = old(self).state_view();
                if term > s0.current_term {
                    &&& final(self).state_view() == followed(s0, term)
                    &&& actions@.len() == 0
                } else if s0.role != RaftRole::Candidate || term != s0.current_term
                    || !vote_granted {
                    &&& final(self).state_view() == s0
                    &&& actions@.len() == 0
                } else {
                    let votes = s0.candidate->0.votes@.insert(from);
                    if votes.len() >= old(self).spec_majority() {
                        &&& led(s0, final(self).state_view(), old(self).peers_view(), old(self).spec_last_index())
                        &&& actions@.len() == 1
                        &&& is_heartbeat(
                            actions@[0],
                            s0.current_term,
                            old(self).node_id(),
                            old(self).log_view(),
                            s0.commit_index,
                        )
                    } else {
                        &&& final(self).state_view().role == RaftRole::Candidate
                        &&& final(self).state_view().current_term == s0.current_term
                        &&& final(self).state_view().voted_for == s0.voted_for
                        &&& final(self).state_view().commit_index == s0.commit_index
                        &&& final(self).state_view().last_applied == s0.last_applied
                        &&& final(self).state_view().leader is None
                        &&& final(self).state_view().candidate matches Some(c) && c.votes@ == votes
                        &&& actions@.len() == 0
                    }
                }
            }),
    {
        if term > self.state.current_term {
            self.become_follower(term);
            return Vec::new();
        }
        if !self.is_candidate() || term != self.state.current_term {
            return Vec::new();
        }
        if vote_granted {
            let count = match self.state.as_candidate_mut() {
                Some(c) => c.grant(from),
                None => 0,
            };
            let _ = count;
            self.check_election_won()
        } else {
            Vec::new()
        }
    }

    // ========================================================
    // AppendEntries
    // ========================================================

    /// A leader's append request. A request of an older term is refused with
    /// this node's last index; otherwise this node follows the sender's term.
    /// When the log does not match at the previous index the request is
    /// refused; else the entries are appended, the commit index moves up to
    /// the leader's (bounded by the last new index), the election timer is
    /// reset, and success is answered with the new last index.
    pub fn handle_append_entries(
        &mut self,
        from: NodeId,
        term: u64,
        leader_id: NodeId,
        prev_log_index: u64,
        prev_log_term: u64,
        entries: Vec<LogEntry>,
        leader_commit: u64,
    ) -> (actions: Vec<Action>)
        requires
            old(self).inv(),
            term >= old(self).state_view().current_term && matches_of(
                old(self).log_view()@,
                old(self).log_view().first(),
                prev_log_index as int,
                prev_log_term,
            ) ==> {
                &&& append_gap_free(old(self).log_view()@, old(self).log_view().first(), entries@)
                &&& prev_log_index + entries@.len() <= u64::MAX
            },
        ensures
            // the commit index falls only to the end of what the leader sent,
            // when the leader's commit index lies above it
            final(self).state_view().commit_index >= old(self).state_view().commit_index || (
            leader_commit > old(self).state_view().commit_index
                && final(self).state_view().commit_index == prev_log_index + entries@.len()),
            term > old(self).state_view().current_term ==> {
                &&& final(self).state_view().current_term == term
                &&& final(self).state_view().voted_for is None
            },
            term >= old(self).state_view().current_term ==> final(self).state_view().role
                == RaftRole::Follower,
            final(self).inv(),
            keeps_term_and_vote(old(self).state_view(), final(self).state_view()),
            final(self).node_id() == old(self).node_id(),
            final(self).peers_view() == old(self).peers_view(),
            final(self).log_view().first() == old(self).log_view().first(),
            ({
                let s0 = old(self).state_view();
                let log = old(self).log_view();
                let first = log.first();
                if term < s0.current_term {
                    &&& final(self).state_view() == s0
                    &&& final(self).log_view() == log
                    &&& actions@ == seq![
                        Action::Send(
                            from,
                            RaftMessage::AppendEntiresResp {
                                term,
                                success: false,
                                match_index: last_index_of(log@, first) as u64,
                            },
                        ),
                    ]
                } else {
                    let s1 = followed(s0, term);
                    if !matches_of(log@, first, prev_log_index as int, prev_log_term) {
                        &&& final(self).state_view() == s1
                        &&& final(self).log_view() == log
                        &&& actions@ == seq![
                            Action::Send(
                                from,
                                RaftMessage::AppendEntiresResp {
                                    term,
                                    success: false,
                                    match_index: last_index_of(log@, first) as u64,
                                },
                            ),
                        ]
                    } else {
                        let new_log = appended(log@, first, entries@);
                        let last_new_index = prev_log_index + entries@.len();
                        let commit = if leader_commit > s1.commit_index {
                            if leader_commit < last_new_index {
                                leader_commit
                            } else {
                                last_new_index as u64
                            }
                        } else {
                            s1.commit_index
                        };
                        &&& final(self).state_view() == RaftState { commit_index: commit, ..s1 }
                        &&& final(self).log_view()@ == new_log
                        &&& actions@ == seq![
                            Action::ResetElectionTimer,
                            Action::Send(
                                from,
                                RaftMessage::AppendEntiresResp {
                                    term,
                                    success: true,
                                    match_index: last_index_of(new_log, first) as u64,
                                },
                            ),
                        ]
                    }
                }
            }),
    {
        let mut actions = Vec::new();
        if term < self.state.current_term {
            let match_index = self.log.last_index();
            actions.push(
                Action::Send(
                    from,
                    RaftMessage::AppendEntiresResp { term, success: false, match_index: match_index },
                ),
            );
            return actions;
        }
        if term > self.state.current_term {
            self.become_follower(term);
        } else {
            if self.state.role != RaftRole::Follower {
                self.become_follower(term);
            }
        }
        let matches = self.log.matches(prev_log_index, prev_log_term);
        if !matches {
            let match_index = self.log.last_index();
            actions.push(
                Action::Send(
                    from,
                    RaftMessage::AppendEntiresResp { term, success: false, match_index: match_index },
                ),
            );
            return actions;
        }
        let entries_len = entries.len() as u64;
        let ghost s = self.log@;
        let ghost es = entries@;
        self.log.append(prev_log_index, prev_log_term, entries);
        proof {
            lemma_append_keeps_contiguous(s, self.log.first(), es);
        }
        let last_new_index = prev_log_index + entries_len;
        if leader_commit > self.state.commit_index {
            self.state.commit_index = if leader_commit < last_new_index {
                leader_commit
            } else {
                last_new_index
            };
        }
        actions.push(Action::ResetElectionTimer);
        let match_index = self.log.last_index();
        actions.push(
            Action::Send(
                from,
                RaftMessage::AppendEntiresResp { term, success: true, match_index: match_index },
            ),
        );
        actions
    }

    /// The append request that this leader sends to `peer`, from the peer's
    /// next index on.
    pub fn send_append_entries_to(&self, peer: NodeId) -> (actions: Vec<Action>)
        requires
            self.inv(),
        ensures
            is_append_request(actions@, self.state_view(), self.node_id(), self.log_view(), peer),
            // a request goes out whenever the leader holds the previous index
            self.state_view().leader matches Some(l) && l.next_index@.contains_key(peer)
                && term_at_of(
                self.log_view()@,
                self.log_view().first(),
                l.next_index@[peer] - 1,
            ) is Some ==> actions@.len() == 1,
            actions@.len() <= 1,
            actions@.len() == 1 ==> (actions@[0] matches Action::Send(
                to,
                RaftMessage::AppendEntires {
                    term,
                    leader_id,
                    prev_log_index,
                    prev_log_term,
                    entries,
                    leader_commit,
                },
            ) && {
                let log = self.log_view();
                let last = self.spec_last_index();
                &&& to == peer
                &&& term == self.state_view().current_term
                &&& leader_id == self.node_id()
                &&& leader_commit == self.state_view().commit_index
                &&& self.state_view().leader matches Some(l) && l.next_index@.contains_key(peer)
                    && prev_log_index + 1 == l.next_index@[peer]
                // the leader's own log matches the request
                &&& matches_of(log@, log.first(), prev_log_index as int, prev_log_term)
                // the entries are those of the indices after the previous one
                &&& forall|i: int|
                    0 <= i < entries@.len() ==> (#[trigger] entry_at(
                        log@,
                        log.first(),
                        prev_log_index + 1 + i,
                    )) is Some && entry_at(log@, log.first(), prev_log_index + 1 + i)->0@
                        == entries@[i]@
                // up to the last index
                &&& log.first() <= prev_log_index + 1 <= last ==> entries@.len() == last
                    - prev_log_index
            }),
    {
        let next_index = match self.state.as_leader() {
            Some(l) => match l.next_index.get(&peer) {
                Some(n) => *n,
                None => return Vec::new(),
            },
            None => return Vec::new(),
        };
        let last_index = self.log.last_index();
        let prev_log_index = next_index - 1;
        let prev_log_term = if prev_log_index == 0 {
            0
        } else {
            match self.log.term_at(prev_log_index) {
                Some(t) => t,
                None => return Vec::new(),
            }
        };
        // slice[next_index, last_index]
        let entries = if last_index >= next_index {
            self.log.slice(next_index, last_index)
        } else {
            Vec::new()
        };
        proof {
            let log = self.log@;
            let first = self.log.first();
            if first <= next_index && next_index <= last_index {
                lemma_slice_contiguous(log, first, next_index as int, last_index as int);
            }
        }
        let mut actions = Vec::new();
        actions.push(
            Action::Send(
                peer,
                RaftMessage::AppendEntires {
                    term: self.state.current_term,
                    leader_id: self.id,
                    prev_log_index,
                    prev_log_term,
                    entries,
                    leader_commit: self.state.commit_index,
                },
            ),
        );
        actions
    }

    /// A leader moves its commit index up to the highest index that a
    /// majority of the cluster holds, when that index lies above the commit
    /// index and holds an entry of the current term; nothing else changes.
    pub fn maybe_advance_commit(&mut self)
        requires
            old(self).inv(),
        ensures
            final(self).inv(),
            final(self).same_but_state(old(self)),
            keeps_term_and_vote(old(self).state_view(), final(self).state_view()),
            // a moved commit index moved up, to an entry of the current term
            // that a majority holds
            final(self).state_view().commit_index != old(self).state_view().commit_index ==> {
                let c = final(self).state_view().commit_index;
                let log = old(self).log_view();
                &&& c > old(self).state_view().commit_index
                &&& match term_at_of(log@, log.first(), c as int) {
                    Some(t) => t == old(self).state_view().current_term,
                    None => old(self).state_view().current_term == 0,
                }
                &&& old(self).state_view().leader matches Some(l) && count_at_least(
                    held_indices(old(self).spec_last_index() as u64, l, old(self).peers_view()),
                    c,
                ) >= old(self).spec_majority()
            },
            final(self).state_view() == (RaftState {
                commit_index: advanced_commit(
                    old(self).state_view(),
                    old(self).log_view(),
                    old(self).peers_view(),
                ),
                ..old(self).state_view()
            }),
    {
        if !self.is_leader() {
            return;
        }
        let last_index = self.log.last_index();
        let mut indices: Vec<u64> = Vec::new();
        indices.push(last_index);
        let ghost l = self.state.leader->0;
        if let Some(leader) = self.state.as_leader() {
            let mut i: usize = 0;
            while i < self.peers.len()
                invariant
                    0 <= i <= self.peers@.len(),
                    *leader == l,
                    indices@.len() == i + 1,
                    indices@[0] == last_index,
                    forall|j: int| 0 <= j < i ==> #[trigger] indices@[j + 1] == peer_match(l, self.peers@[j]),
                decreases self.peers@.len() - i,
            {
                let m = match leader.match_index.get(&self.peers[i]) {
                    Some(m) => *m,
                    None => 0,
                };
                indices.push(m);
                i = i + 1;
            }
        }
        let ghost held = held_indices(last_index, l, self.peers@);
        assert(indices@ =~= held) by {
            assert forall|k: int| 0 <= k < held.len() implies indices@[k] == held[k] by {
                if k > 0 {
                    assert(indices@[(k - 1) + 1] == peer_match(l, self.peers@[k - 1]));
                }
            }
        }
        sort_unstable(&mut indices);
        proof {
            let leq = index_leq();
            assert(vstd::relations::total_ordering(leq));
            held.lemma_sort_by_ensures(leq);
            assert(vstd::relations::sorted_by(indices@, leq));
            vstd::seq_lib::lemma_sorted_unique(indices@, held.sort_by(leq), leq);
        }
        let majority_index = indices[indices.len() - self.majority()];
        if majority_index <= self.state.commit_index {
            return;
        }
        let term_at = match self.log.term_at(majority_index) {
            Some(t) => t,
            None => 0,
        };
        if self.state.current_term != term_at {
            return;
        }
        proof {
            lemma_commit_advance_is_safe(self.state, self.log, self.peers@);
        }
        self.state.commit_index = majority_index;
    }

    ///Received AppendEntriesResp (leader)
    pub fn handle_append_entries_resp(
        &mut self,
        from: NodeId,
        term: u64,
        success: bool,
        match_index: u64,
    ) -> (actions: Vec<Action>)
        requires
            old(self).inv(),
            term == old(self).state_view().current_term && old(self).state_view().role
                == RaftRole::Leader && success ==> match_index < u64::MAX,
        ensures
            final(self).state_view().commit_index >= old(self).state_view().commit_index,
            term > old(self).state_view().current_term ==> {
                &&& final(self).state_view().current_term == term
                &&& final(self).state_view().voted_for is None
                &&& final(self).state_view().role == RaftRole::Follower
            },
            final(self).inv(),
            keeps_term_and_vote(old(self).state_view(), final(self).state_view()),
            final(self).same_but_state(old(self)),
            ({
                let s0 = old(self).state_view();
                let s1 = if term > s0.current_term {
                    followed(s0, term)
                } else {
                    s0
                };
                if s1.role != RaftRole::Leader || term != s1.current_term {
                    &&& final(self).state_view() == s1
                    &&& actions@.len() == 0
                } else {
                    let l = s1.leader->0;
                    let t = final(self).state_view();
                    &&& t == RaftState { leader: t.leader, commit_index: t.commit_index, ..s1 }
                    &&& t.leader is Some
                    &&& if success {
                        &&& t.leader->0.match_index@ == l.match_index@.insert(from, match_index)
                        &&& t.leader->0.next_index@ == l.next_index@.insert(
                            from,
                            (match_index + 1) as u64,
                        )
                        &&& t.commit_index == advanced_commit(
                            RaftState { leader: t.leader, ..s1 },
                            old(self).log_view(),
                            old(self).peers_view(),
                        )
                        &&& actions@.len() == 0
                    } else {
                        let old_next: u64 = if l.next_index@.contains_key(from) {
                            l.next_index@[from]
                        } else {
                            1
                        };
                        let new_next: u64 = if old_next <= 2 {
                            1
                        } else {
                            (old_next - 1) as u64
                        };
                        &&& t.commit_index == s1.commit_index
                        &&& t.leader->0.match_index@ == l.match_index@
                        &&& t.leader->0.next_index@ == l.next_index@.insert(from, new_next)
                        &&& is_append_request(actions@, t, old(self).node_id(), old(self).log_view(), from)
                    }
                }
            }),
    {
        if term > self.state.current_term {
            self.become_follower(term);
        }
        if !self.is_leader() || term != self.state.current_term {
            return Vec::new();
        }
        // update match index, next index
        let ghost s1 = self.state;
        if success {
            if let Some(leader) = self.state.as_leader_mut() {
                leader.match_index.insert(from, match_index);
                leader.next_index.insert(from, match_index + 1);
            }
            proof {
                let l = self.state.leader->0;
                assert(self.state == RaftState { leader: self.state.leader, ..s1 });
                assert forall|p: NodeId| #[trigger] l.next_index@.contains_key(p) implies l.next_index@[p]
                    >= 1 by {
                    if p != from {
                        assert(s1.leader->0.next_index@.contains_key(p));
                    }
                }
            }
            self.maybe_advance_commit();
            Vec::new()
        } else {
            // now sub 1, maybe Optimize
            if let Some(leader) = self.state.as_leader_mut() {
                let current = match leader.next_index.get(&from) {
                    Some(n) => *n,
                    None => 1,
                };
                let lowered = current.saturating_sub(1);
                let new_next = if lowered > 1 {
                    lowered
                } else {
                    1
                };
                leader.next_index.insert(from, new_next);
            } else {
                return Vec::new();
            }
            proof {
                let l = self.state.leader->0;
                assert(self.state == RaftState { leader: self.state.leader, ..s1 });
                assert forall|p: NodeId| #[trigger] l.next_index@.contains_key(p) implies l.next_index@[p]
                    >= 1 by {
                    if p != from {
                        assert(s1.leader->0.next_index@.contains_key(p));
                    }
                }
            }
            self.send_append_entries_to(from)
        }
    }
}

} // verus!
