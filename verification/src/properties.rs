//! Properties of a node that hold across its operations.
use vstd::prelude::*;

use crate::log::{indices_consecutive, EntryView};
use crate::message::{AppendEntriesReply, AppendEntriesView, EnvelopeView, MessageView, RequestVoteReply};
use crate::node::{applied_range, log_accepts, reconcile_one, reconciled, NodeView};
use crate::quorum::{count_at_least, is_quorum_index, lemma_quorum_index_exists};
use crate::state::RoleView;

verus! {

/// Every election timeout a node picks lies in [base, base + max(base, 1)):
/// for a positive base that is [base, 2 * base).
pub proof fn lemma_jittered_timeout_in_range(n: NodeView)
    requires
        n.wf(),
    ensures
        n.election_timeout_base <= n.jittered().election_timeout,
        n.election_timeout_base > 0 ==> n.jittered().election_timeout < 2 * n.election_timeout_base,
        n.election_timeout_base == 0 ==> n.jittered().election_timeout == 0,
{
}

/// Receiving a message leaves the node in the larger of its own term and the
/// message's term: terms never decrease, and a higher term is always adopted.
/// Adopting a higher term makes the node a follower with a reset election clock
/// whose only possible vote in the new term is for the candidate that asked.
pub proof fn lemma_step_term(n: NodeView, from: u64, m: MessageView)
    ensures
        n.stepped(from, m).current_term == if m.term() > n.current_term {
            m.term()
        } else {
            n.current_term
        },
        m.term() > n.current_term ==> {
            let s = n.stepped(from, m);
            &&& s.role is Follower
            &&& s.election_elapsed == 0
            &&& (s.voted_for is None || (m is RequestVote && s.voted_for == Some(
                m->RequestVote_0.candidate_id,
            )))
        },
{
}

/// A tick changes the term only by starting an election, which moves to the next term.
pub proof fn lemma_tick_term(n: NodeView)
    requires
        n.can_tick(),
    ensures
        n.ticked().current_term == if n.tick_starts_election() {
            n.current_term + 1
        } else {
            n.current_term as int
        },
{
}

/// A node votes at most once per term: while its term stays the same, a vote
/// already cast is never changed by receiving a message, and a request from
/// another candidate in that term is refused.
pub proof fn lemma_step_keeps_vote(n: NodeView, from: u64, m: MessageView)
    requires
        n.voted_for is Some,
        n.stepped(from, m).current_term == n.current_term,
    ensures
        n.stepped(from, m).voted_for == n.voted_for,
        (m is RequestVote && m->RequestVote_0.term == n.current_term && Some(
            m->RequestVote_0.candidate_id,
        ) != n.voted_for) ==> n.stepped(from, m).outbox.last() == (EnvelopeView {
            from: n.id,
            to: from,
            message: MessageView::RequestVoteReply(
                RequestVoteReply { term: n.current_term, vote_granted: false },
            ),
        }),
{
}

/// A node votes at most once per term: a tick that keeps the term keeps the vote.
pub proof fn lemma_tick_keeps_vote(n: NodeView)
    requires
        n.can_tick(),
        n.ticked().current_term == n.current_term,
    ensures
        n.ticked().voted_for == n.voted_for,
{
}

/// Applying committed entries only appends to the committed output.
proof fn lemma_applied_extends(n: NodeView)
    ensures
        n.committed.is_prefix_of(n.applied().committed),
{
    if n.last_applied < n.commit_index {
        let extra = applied_range(n.log, n.last_applied as int, n.commit_index as int);
        assert((n.committed + extra).subrange(0, n.committed.len() as int) =~= n.committed);
    }
}

/// The committed output only grows: whatever was committed before receiving a
/// message is still a prefix of what is committed after.
pub proof fn lemma_step_committed_grows(n: NodeView, from: u64, m: MessageView)
    ensures
        n.committed.is_prefix_of(n.stepped(from, m).committed),
{
    let s = if m.term() > n.current_term {
        n.become_follower(m.term())
    } else {
        n
    };
    assert(s.committed == n.committed);
    match m {
        MessageView::AppendEntries(req) => {
            if req.term >= s.current_term {
                let t = NodeView { election_elapsed: 0, ..s }.jittered();
                let t = NodeView { role: RoleView::Follower, ..t };
                if log_accepts(t.log, req.prev_log_index, req.prev_log_term) {
                    let log = reconciled(t.log, req.prev_log_index + 1, req.entries);
                    let u = NodeView { log, ..t };
                    if req.leader_commit > u.commit_index {
                        let v = NodeView {
                            commit_index: if req.leader_commit < log.len() {
                                req.leader_commit
                            } else {
                                log.len() as u64
                            },
                            ..u
                        };
                        lemma_applied_extends(v);
                    }
                }
            }
        },
        MessageView::AppendEntriesReply(r) => {
            if r.term == s.current_term {
                match s.role {
                    RoleView::Leader { next_index, match_index } => {
                        if r.success {
                            let current = if match_index.contains_key(from) {
                                match_index[from]
                            } else {
                                0
                            };
                            let mi = if r.match_index > current {
                                match_index.insert(from, r.match_index)
                            } else {
                                match_index
                            };
                            let ni = next_index.insert(from, (r.match_index + 1) as u64);
                            let candidate = crate::quorum::quorum_index(mi, s.log.len() as u64, s.quorum());
                            let t = NodeView {
                                role: RoleView::Leader { next_index: ni, match_index: mi },
                                ..s
                            };
                            lemma_applied_extends(NodeView { commit_index: candidate, ..t });
                        }
                    },
                    _ => {},
                }
            }
        },
        _ => {},
    }
    assert(n.committed.is_prefix_of(n.committed)) by {
        assert(n.committed.subrange(0, n.committed.len() as int) =~= n.committed);
    }
}

/// A tick never commits anything.
pub proof fn lemma_tick_committed_unchanged(n: NodeView)
    ensures
        n.ticked().committed == n.committed,
        n.ticked().last_applied == n.last_applied,
        n.ticked().commit_index == n.commit_index,
{
}

/// A leader only advances its commit index to an index a quorum holds: the new
/// commit index is reached by at least a quorum of the recorded match indices
/// together with the leader's own log, and is the highest such index.
pub proof fn lemma_leader_commit_is_replicated(n: NodeView, from: u64, r: AppendEntriesReply)
    requires
        n.wf(),
        n.role is Leader,
        n.can_step(from, MessageView::AppendEntriesReply(r)),
    ensures
        ({
            let s = n.stepped(from, MessageView::AppendEntriesReply(r));
            s.commit_index > n.commit_index ==> {
                &&& s.role is Leader
                &&& is_quorum_index(s.role->match_index, n.log.len() as u64, n.quorum(), s.commit_index)
                &&& count_at_least(s.role->match_index, n.log.len() as u64, s.commit_index) >= n.quorum()
            }
        }),
{
    if r.term == n.current_term && r.success {
        let m = n.role->match_index;
        let current = if m.contains_key(from) {
            m[from]
        } else {
            0
        };
        let mi = if r.match_index > current {
            m.insert(from, r.match_index)
        } else {
            m
        };
        lemma_quorum_index_exists(mi, n.log.len() as u64, n.quorum());
    }
}

/// The match index recorded for a peer, 0 when none is.
pub open spec fn recorded(m: Map<u64, u64>, p: u64) -> u64 {
    if m.contains_key(p) {
        m[p]
    } else {
        0
    }
}

/// A leader never lets its record of what a peer holds go backwards, and the
/// record for the replying peer is exactly the larger of the old record and the
/// index the reply reports — never derived from the leader's own log.
pub proof fn lemma_match_index_never_regresses(n: NodeView, from: u64, r: AppendEntriesReply)
    requires
        n.role is Leader,
    ensures
        ({
            let s = n.stepped(from, MessageView::AppendEntriesReply(r));
            let old_m = n.role->match_index;
            s.role is Leader ==> {
                &&& s.current_term == n.current_term
                &&& forall|p: u64|
                    old_m.contains_key(p) ==> #[trigger] s.role->match_index.contains_key(p)
                        && s.role->match_index[p] >= old_m[p]
                &&& (r.term == n.current_term && r.success) ==> recorded(s.role->match_index, from)
                    == if recorded(old_m, from) >= r.match_index {
                    recorded(old_m, from)
                } else {
                    r.match_index
                }
            }
        }),
{
}

/// A node becomes leader on receiving a message only as a candidate whose votes
/// in its current term, counting the new one and each voter once, reach a quorum.
pub proof fn lemma_step_leadership_needs_quorum(n: NodeView, from: u64, m: MessageView)
    requires
        n.wf(),
        !(n.role is Leader),
        n.stepped(from, m).role is Leader,
    ensures
        n.role is Candidate,
        m is RequestVoteReply,
        m->RequestVoteReply_0.term == n.current_term,
        m->RequestVoteReply_0.vote_granted,
        n.stepped(from, m).current_term == n.current_term,
        ({
            let votes = n.role->votes_received;
            let counted = if votes.contains(from) {
                votes
            } else {
                votes.push(from)
            };
            &&& counted.no_duplicates()
            &&& counted.len() >= n.quorum()
        }),
{
    let votes = n.role->votes_received;
    if !votes.contains(from) {
        assert forall|i: int, j: int|
            0 <= i < votes.len() + 1 && 0 <= j < votes.len() + 1 && i != j implies votes.push(from)[i]
            != votes.push(from)[j] by {
            if i == votes.len() as int {
                assert(votes[j] != from);
            } else if j == votes.len() as int {
                assert(votes[i] != from);
            }
        }
    }
}

/// A tick makes a node leader only when it has no peers: a cluster of one
/// elects itself at its first timeout, and no larger cluster skips the vote.
pub proof fn lemma_tick_leadership_only_alone(n: NodeView)
    requires
        !(n.role is Leader),
    ensures
        n.ticked().role is Leader <==> (n.tick_starts_election() && n.peers.len() == 0),
{
}

/// Reconciling entries from position `next` on keeps everything before `next`,
/// and leaves each incoming entry's term at its position.
pub proof fn lemma_reconciled_matches(log: Seq<EntryView>, next: int, entries: Seq<EntryView>)
    requires
        1 <= next <= log.len() + 1,
        log.len() < u64::MAX,
        next - 1 + entries.len() < u64::MAX,
    ensures
        reconciled(log, next, entries).len() >= next - 1 + entries.len(),
        reconciled(log, next, entries).take(next - 1) == log.take(next - 1),
        forall|i: int|
            0 <= i < entries.len() ==> #[trigger] reconciled(log, next, entries)[next - 1 + i].term
                == entries[i].term,
        indices_consecutive(log) ==> indices_consecutive(reconciled(log, next, entries)),
    decreases entries.len(),
{
    if entries.len() > 0 {
        let e = entries[0];
        let r1 = reconcile_one(log, next, e);
        assert(r1.len() >= next);
        assert(r1.take(next - 1) =~= log.take(next - 1));
        assert(r1[next - 1].term == e.term);
        if indices_consecutive(log) && !(1 <= next <= log.len() && log[next - 1].term == e.term) {
            let kept = if 0 <= next - 1 < log.len() {
                log.take(next - 1)
            } else {
                log
            };
            assert forall|i: int| 0 <= i < r1.len() implies #[trigger] r1[i].index == i + 1 by {
                if i < kept.len() {
                    assert(r1[i] == kept[i]);
                    assert(kept[i] == log[i]);
                } else {
                    assert(kept.len() <= log.len());
                }
            }
        }
        assert(indices_consecutive(log) ==> indices_consecutive(r1));
        let rest = entries.drop_first();
        lemma_reconciled_matches(r1, next + 1, rest);
        let r = reconciled(r1, next + 1, rest);
        assert(r.take(next - 1) =~= log.take(next - 1)) by {
            assert(r.take(next) =~= r1.take(next));
            assert forall|i: int| 0 <= i < next - 1 implies r[i] == log[i] by {
                assert(r.take(next)[i] == r1.take(next)[i]);
                assert(r1.take(next - 1)[i] == log.take(next - 1)[i]);
            }
        }
        assert forall|i: int| 0 <= i < entries.len() implies #[trigger] r[next - 1 + i].term
            == entries[i].term by {
            if i == 0 {
                assert(r.take(next)[next - 1] == r1.take(next)[next - 1]);
            } else {
                assert(rest[i - 1] == entries[i]);
                assert(r[next + 1 - 1 + (i - 1)].term == rest[i - 1].term);
            }
        }
    } else {
        assert(log.take(next - 1) =~= log.take(next - 1));
    }
}

/// A follower that accepts AppendEntries keeps its log before `prev_log_index`,
/// holds each incoming entry's term at that entry's position, and answers with
/// success and the index it now holds through.
pub proof fn lemma_accepted_append_entries(n: NodeView, from: u64, req: AppendEntriesView)
    requires
        n.wf(),
        req.term >= n.current_term,
        log_accepts(n.log, req.prev_log_index, req.prev_log_term),
        req.prev_log_index + req.entries.len() < u64::MAX,
    ensures
        ({
            let s = n.stepped(from, MessageView::AppendEntries(req));
            let prev = req.prev_log_index as int;
            &&& s.role is Follower
            &&& s.current_term == req.term
            &&& s.log.len() >= prev + req.entries.len()
            &&& s.log.take(prev) == n.log.take(prev)
            &&& forall|i: int|
                0 <= i < req.entries.len() ==> #[trigger] s.log[prev + i].term == req.entries[i].term
            &&& s.outbox.last() == (EnvelopeView {
                from: n.id,
                to: from,
                message: MessageView::AppendEntriesReply(
                    AppendEntriesReply {
                        term: req.term,
                        success: true,
                        conflict_index: None,
                        match_index: (req.prev_log_index + req.entries.len()) as u64,
                    },
                ),
            })
        }),
{
    lemma_reconciled_matches(n.log, req.prev_log_index + 1, req.entries);
}

/// A stale AppendEntries (from an older term) changes nothing but the outbox,
/// where it is refused with the node's current term.
pub proof fn lemma_stale_append_entries_refused(n: NodeView, from: u64, req: AppendEntriesView)
    requires
        req.term < n.current_term,
    ensures
        n.stepped(from, MessageView::AppendEntries(req)) == n.sent(
            from,
            MessageView::AppendEntriesReply(
                AppendEntriesReply {
                    term: n.current_term,
                    success: false,
                    conflict_index: None,
                    match_index: 0,
                },
            ),
        ),
{
}

/// The committed output lists strictly increasing indices, none past `last_applied`.
pub open spec fn committed_in_order(n: NodeView) -> bool {
    &&& forall|i: int, j: int|
        0 <= i < j < n.committed.len() ==> #[trigger] n.committed[i].0 < #[trigger] n.committed[j].0
    &&& forall|i: int| 0 <= i < n.committed.len() ==> #[trigger] n.committed[i].0 <= n.last_applied
}

/// The pairs applied from a log whose entries record their positions carry
/// strictly increasing indices within `(from, to]`.
proof fn lemma_applied_range_in_order(log: Seq<EntryView>, from: int, to: int)
    requires
        indices_consecutive(log),
    ensures
        forall|i: int|
            0 <= i < applied_range(log, from, to).len() ==> from < #[trigger] applied_range(
                log,
                from,
                to,
            )[i].0 <= to,
        forall|i: int, j: int|
            0 <= i < j < applied_range(log, from, to).len() ==> #[trigger] applied_range(
                log,
                from,
                to,
            )[i].0 < #[trigger] applied_range(log, from, to)[j].0,
    decreases to - from,
{
    if to > from {
        lemma_applied_range_in_order(log, from, to - 1);
        let prefix = applied_range(log, from, to - 1);
        if 1 <= to <= log.len() {
            assert(log[to - 1].index == to);
            let r = applied_range(log, from, to);
            assert(r == prefix.push((log[to - 1].index, log[to - 1].data)));
            assert forall|i: int| 0 <= i < r.len() implies from < #[trigger] r[i].0 <= to by {
                if i < prefix.len() {
                    assert(r[i] == prefix[i]);
                }
            }
            assert forall|i: int, j: int| 0 <= i < j < r.len() implies #[trigger] r[i].0
                < #[trigger] r[j].0 by {
                assert(r[i] == prefix[i]);
                if j < prefix.len() {
                    assert(r[j] == prefix[j]);
                }
            }
        }
    }
}

proof fn lemma_applied_in_order(n: NodeView)
    requires
        indices_consecutive(n.log),
        committed_in_order(n),
    ensures
        committed_in_order(n.applied()),
        n.applied().last_applied >= n.last_applied,
{
    if n.last_applied < n.commit_index {
        let extra = applied_range(n.log, n.last_applied as int, n.commit_index as int);
        lemma_applied_range_in_order(n.log, n.last_applied as int, n.commit_index as int);
        let c = n.committed + extra;
        assert forall|i: int, j: int| 0 <= i < j < c.len() implies #[trigger] c[i].0
            < #[trigger] c[j].0 by {
            if j < n.committed.len() {
            } else if i < n.committed.len() {
                assert(c[j] == extra[j - n.committed.len()]);
            } else {
                assert(c[i] == extra[i - n.committed.len()]);
                assert(c[j] == extra[j - n.committed.len()]);
            }
        }
        assert forall|i: int| 0 <= i < c.len() implies #[trigger] c[i].0 <= n.commit_index by {
            if i >= n.committed.len() {
                assert(c[i] == extra[i - n.committed.len()]);
            }
        }
    }
}

/// The committed output stays in index order across receiving a message, and
/// `last_applied` never goes back.
pub proof fn lemma_step_keeps_committed_in_order(n: NodeView, from: u64, m: MessageView)
    requires
        n.wf(),
        n.can_step(from, m),
        committed_in_order(n),
    ensures
        committed_in_order(n.stepped(from, m)),
        n.stepped(from, m).last_applied >= n.last_applied,
{
    let s = if m.term() > n.current_term {
        n.become_follower(m.term())
    } else {
        n
    };
    match m {
        MessageView::AppendEntries(req) => {
            if req.term >= s.current_term {
                let t = NodeView { election_elapsed: 0, ..s }.jittered();
                let t = NodeView { role: RoleView::Follower, ..t };
                if log_accepts(t.log, req.prev_log_index, req.prev_log_term) {
                    lemma_reconciled_matches(t.log, req.prev_log_index + 1, req.entries);
                    let log = reconciled(t.log, req.prev_log_index + 1, req.entries);
                    let u = NodeView { log, ..t };
                    if req.leader_commit > u.commit_index {
                        let v = NodeView {
                            commit_index: if req.leader_commit < log.len() {
                                req.leader_commit
                            } else {
                                log.len() as u64
                            },
                            ..u
                        };
                        lemma_applied_in_order(v);
                    }
                }
            }
        },
        MessageView::AppendEntriesReply(r) => {
            if r.term == s.current_term {
                match s.role {
                    RoleView::Leader { next_index, match_index } => {
                        if r.success {
                            let current = if match_index.contains_key(from) {
                                match_index[from]
                            } else {
                                0
                            };
                            let mi = if r.match_index > current {
                                match_index.insert(from, r.match_index)
                            } else {
                                match_index
                            };
                            let ni = next_index.insert(from, (r.match_index + 1) as u64);
                            let candidate = crate::quorum::quorum_index(mi, s.log.len() as u64, s.quorum());
                            let t = NodeView {
                                role: RoleView::Leader { next_index: ni, match_index: mi },
                                ..s
                            };
                            lemma_applied_in_order(NodeView { commit_index: candidate, ..t });
                        }
                    },
                    _ => {},
                }
            }
        },
        _ => {},
    }
}

} // verus!
