//! Election safety: in a simulated cluster whose nodes agree on membership,
//! no two nodes lead in the same term.
//!
//! The argument keeps a history of every vote cast, as (voter, term,
//! candidate) triples: each voter votes for at most one candidate per term,
//! a leader of term `t` holds votes of term `t` from a quorum of members,
//! and two quorums of the same membership share a voter.
use vstd::prelude::*;

use crate::message::{AppendEntriesReply, EnvelopeView, MessageView, RequestVoteReply};
use crate::node::NodeView;
use crate::sim::{ConditionsView, all_drained, all_outboxes, all_ticked, deliver_due, delivered, node_index, SimView};
use crate::state::RoleView;

verus! {

/// No voter voted for two different candidates in the same term.
pub open spec fn one_vote_per_term(h: Set<(u64, u64, u64)>) -> bool {
    forall|v: u64, t: u64, c1: u64, c2: u64|
        #![trigger h.contains((v, t, c1)), h.contains((v, t, c2))]
        h.contains((v, t, c1)) && h.contains((v, t, c2)) ==> c1 == c2
}

/// An envelope tells the truth about votes: it comes from a member, a vote
/// request is sent by its own candidate, and a granted vote is in the history.
pub open spec fn envelope_ok(e: EnvelopeView, h: Set<(u64, u64, u64)>, members: Set<u64>) -> bool {
    &&& members.contains(e.from)
    &&& (e.message is RequestVote ==> e.message->RequestVote_0.candidate_id == e.from)
    &&& ((e.message is RequestVoteReply && e.message->RequestVoteReply_0.vote_granted) ==> h.contains(
        (e.from, e.message->RequestVoteReply_0.term, e.to),
    ))
}

/// A member's state agrees with the vote history: its recorded votes are from
/// terms it has reached, its vote in the current term is the recorded one, the
/// votes it collects as candidate are recorded for it, and as leader it holds
/// votes from a quorum of members.
pub open spec fn node_ok(n: NodeView, h: Set<(u64, u64, u64)>, members: Set<u64>) -> bool {
    &&& members.contains(n.id)
    &&& n.peers.no_duplicates()
    &&& n.peers.to_set() == members.remove(n.id)
    &&& forall|t: u64, c: u64|
        #[trigger] h.contains((n.id, t, c)) ==> t <= n.current_term && (t == n.current_term
            ==> n.voted_for == Some(c))
    &&& (n.role is Candidate ==> {
        let votes = n.role->votes_received;
        &&& votes.no_duplicates()
        &&& forall|i: int|
            0 <= i < votes.len() ==> members.contains(#[trigger] votes[i]) && h.contains(
                (votes[i], n.current_term, n.id),
            )
    })
    &&& (n.role is Leader ==> exists|q: Set<u64>| #[trigger]
        quorum_of_votes(q, h, members, n.current_term, n.id, n.quorum()))
    &&& forall|i: int| 0 <= i < n.outbox.len() ==> envelope_ok(#[trigger] n.outbox[i], h, members)
}

/// `q` is a set of at least `size` members that all voted for `c` in term `t`.
pub open spec fn quorum_of_votes(
    q: Set<u64>,
    h: Set<(u64, u64, u64)>,
    members: Set<u64>,
    t: u64,
    c: u64,
    size: nat,
) -> bool {
    &&& q.finite()
    &&& q.subset_of(members)
    &&& q.len() >= size
    &&& forall|x: u64| #[trigger] q.contains(x) ==> h.contains((x, t, c))
}

/// Growing the history by votes of other voters keeps a member's agreement with it.
proof fn lemma_node_ok_grow(
    n: NodeView,
    h: Set<(u64, u64, u64)>,
    h2: Set<(u64, u64, u64)>,
    members: Set<u64>,
)
    requires
        node_ok(n, h, members),
        h.subset_of(h2),
        forall|x: (u64, u64, u64)| h2.contains(x) && x.0 == n.id ==> h.contains(x),
    ensures
        node_ok(n, h2, members),
{
    if n.role is Leader {
        let q = choose|q: Set<u64>| quorum_of_votes(q, h, members, n.current_term, n.id, n.quorum());
        assert(quorum_of_votes(q, h2, members, n.current_term, n.id, n.quorum()));
    }
    assert forall|i: int| 0 <= i < n.outbox.len() implies envelope_ok(#[trigger] n.outbox[i], h2, members) by {
        assert(envelope_ok(n.outbox[i], h, members));
    }
    assert forall|t: u64, c: u64| #[trigger] h2.contains((n.id, t, c)) implies t <= n.current_term && (t
        == n.current_term ==> n.voted_for == Some(c)) by {
        assert(h.contains((n.id, t, c)));
    }
}

/// Appending envelopes that are each in order keeps the whole outbox in order.
proof fn lemma_outbox_extended(
    old_box: Seq<EnvelopeView>,
    extra: Seq<EnvelopeView>,
    h: Set<(u64, u64, u64)>,
    members: Set<u64>,
)
    requires
        forall|i: int| 0 <= i < old_box.len() ==> envelope_ok(#[trigger] old_box[i], h, members),
        forall|i: int| 0 <= i < extra.len() ==> envelope_ok(#[trigger] extra[i], h, members),
    ensures
        forall|i: int|
            0 <= i < (old_box + extra).len() ==> envelope_ok(#[trigger] (old_box + extra)[i], h, members),
{
    assert forall|i: int| 0 <= i < (old_box + extra).len() implies envelope_ok(
        #[trigger] (old_box + extra)[i],
        h,
        members,
    ) by {
        if i >= old_box.len() {
            assert((old_box + extra)[i] == extra[i - old_box.len()]);
        }
    }
}

/// A leader's heartbeat sends only AppendEntries from itself.
proof fn lemma_broadcast_ok(n: NodeView, h: Set<(u64, u64, u64)>, members: Set<u64>)
    requires
        members.contains(n.id),
        forall|i: int| 0 <= i < n.outbox.len() ==> envelope_ok(#[trigger] n.outbox[i], h, members),
    ensures
        forall|i: int|
            0 <= i < n.broadcast_append_entries().outbox.len() ==> envelope_ok(
                #[trigger] n.broadcast_append_entries().outbox[i],
                h,
                members,
            ),
{
    if n.role is Leader {
        let extra = n.peers.map_values(|p: u64| n.append_entries_to(p));
        assert forall|i: int| 0 <= i < extra.len() implies envelope_ok(#[trigger] extra[i], h, members) by {
            assert(extra[i] == n.append_entries_to(n.peers[i]));
        }
        lemma_outbox_extended(n.outbox, extra, h, members);
    }
}

/// A tick keeps a member in agreement with the history, once the history
/// records the vote a new candidate casts for itself.
proof fn lemma_tick_ok(n: NodeView, h: Set<(u64, u64, u64)>, members: Set<u64>) -> (h2: Set<(u64, u64, u64)>)
    requires
        node_ok(n, h, members),
        one_vote_per_term(h),
        n.can_tick(),
    ensures
        h2 == if n.tick_starts_election() {
            h.insert((n.id, (n.current_term + 1) as u64, n.id))
        } else {
            h
        },
        node_ok(n.ticked(), h2, members),
        one_vote_per_term(h2),
        n.ticked().id == n.id,
        n.ticked().peers == n.peers,
{
    if n.role is Leader {
        let q = choose|q: Set<u64>| quorum_of_votes(q, h, members, n.current_term, n.id, n.quorum());
        assert(quorum_of_votes(q, h, members, n.ticked().current_term, n.ticked().id, n.ticked().quorum()));
        if n.heartbeat_elapsed + 1 >= crate::node::HEARTBEAT_INTERVAL {
            lemma_broadcast_ok(NodeView { heartbeat_elapsed: 0, ..n }, h, members);
        }
        h
    } else if !n.tick_starts_election() {
        assert(node_ok(n.ticked(), h, members));
        h
    } else {
        let t = (n.current_term + 1) as u64;
        let h2 = h.insert((n.id, t, n.id));
        let s = NodeView {
            current_term: t,
            voted_for: Some(n.id),
            election_elapsed: 0,
            role: RoleView::Candidate { votes_received: seq![n.id] },
            ..n
        }.jittered();
        assert forall|i: int| 0 <= i < s.outbox.len() implies envelope_ok(#[trigger] s.outbox[i], h2, members) by {
            assert(envelope_ok(n.outbox[i], h, members));
        }
        assert forall|tt: u64, c: u64| #[trigger] h2.contains((n.id, tt, c)) implies tt <= t && (tt == t
            ==> Some(n.id) == Some(c)) by {
            if (n.id, tt, c) != (n.id, t, n.id) {
                assert(h.contains((n.id, tt, c)));
            }
        }
        assert forall|v: u64, tt: u64, c1: u64, c2: u64|
            #![trigger h2.contains((v, tt, c1)), h2.contains((v, tt, c2))]
            h2.contains((v, tt, c1)) && h2.contains((v, tt, c2)) implies c1 == c2 by {
            if (v, tt, c1) == (n.id, t, n.id) && (v, tt, c2) != (n.id, t, n.id) {
                assert(h.contains((n.id, t, c2)));
            }
            if (v, tt, c2) == (n.id, t, n.id) && (v, tt, c1) != (n.id, t, n.id) {
                assert(h.contains((n.id, t, c1)));
            }
        }
        if n.peers.len() == 0 {
            let l = NodeView {
                role: RoleView::Leader {
                    next_index: Map::new(|p: u64| s.peers.contains(p), |p: u64| (s.log.len() + 1) as u64),
                    match_index: Map::new(|p: u64| s.peers.contains(p), |p: u64| 0u64),
                },
                heartbeat_elapsed: 0,
                ..s
            };
            lemma_broadcast_ok(l, h2, members);
            assert(members =~= set![n.id]) by {
                assert forall|x: u64| members.contains(x) implies x == n.id by {
                    if x != n.id {
                        assert(members.remove(n.id).contains(x));
                        assert(n.peers.to_set().contains(x));
                    }
                }
            }
            let q = set![n.id];
            assert(q.len() == 1);
            assert(quorum_of_votes(q, h2, members, t, n.id, n.quorum()));
            let f = n.ticked();
            assert(f == l.broadcast_append_entries());
            assert(quorum_of_votes(q, h2, members, f.current_term, f.id, f.quorum()));
            assert(f.role is Leader);
            assert(forall|i: int| 0 <= i < f.outbox.len() ==> envelope_ok(#[trigger] f.outbox[i], h2, members));
            assert(forall|tt: u64, c: u64|
                #[trigger] h2.contains((f.id, tt, c)) ==> tt <= f.current_term && (tt == f.current_term
                    ==> f.voted_for == Some(c)));
            assert(node_ok(f, h2, members));
        } else {
            let extra = n.peers.map_values(|p: u64| s.request_vote_to(p));
            assert forall|i: int| 0 <= i < extra.len() implies envelope_ok(#[trigger] extra[i], h2, members) by {
                assert(extra[i] == s.request_vote_to(n.peers[i]));
            }
            lemma_outbox_extended(s.outbox, extra, h2, members);
            let c = NodeView { outbox: s.outbox + extra, ..s };
            assert(n.ticked() == c);
            assert(c.role->votes_received[0] == n.id);
            assert(node_ok(c, h2, members));
        }
        h2
    }
}

/// A state that keeps a member's id, peers, term, vote and (up to leaving
/// office) role, and whose outbox is in order, agrees with the history as before.
proof fn lemma_node_ok_same_votes(n: NodeView, n2: NodeView, h: Set<(u64, u64, u64)>, members: Set<u64>)
    requires
        node_ok(n, h, members),
        n2.id == n.id,
        n2.peers == n.peers,
        n2.current_term == n.current_term,
        n2.voted_for == n.voted_for,
        n2.role is Follower || n2.role == n.role || (n2.role is Leader && n.role is Leader),
        forall|i: int| 0 <= i < n2.outbox.len() ==> envelope_ok(#[trigger] n2.outbox[i], h, members),
    ensures
        node_ok(n2, h, members),
{
    if n2.role is Leader {
        let q = choose|q: Set<u64>| quorum_of_votes(q, h, members, n.current_term, n.id, n.quorum());
        assert(quorum_of_votes(q, h, members, n2.current_term, n2.id, n2.quorum()));
    }
}

/// Stepping down to a higher term keeps a member in agreement with the history.
proof fn lemma_become_follower_ok(n: NodeView, term: u64, h: Set<(u64, u64, u64)>, members: Set<u64>)
    requires
        node_ok(n, h, members),
        term > n.current_term,
    ensures
        node_ok(n.become_follower(term), h, members),
{
    let f = n.become_follower(term);
    assert forall|t: u64, c: u64| #[trigger] h.contains((f.id, t, c)) implies t <= f.current_term && (t
        == f.current_term ==> f.voted_for == Some(c)) by {
        assert(t <= n.current_term);
    }
    assert forall|i: int| 0 <= i < f.outbox.len() implies envelope_ok(#[trigger] f.outbox[i], h, members) by {
        assert(f.outbox[i] == n.outbox[i]);
    }
}

/// Sending a message that is in order keeps the outbox in order.
proof fn lemma_sent_ok(n: NodeView, to: u64, m: MessageView, h: Set<(u64, u64, u64)>, members: Set<u64>)
    requires
        forall|i: int| 0 <= i < n.outbox.len() ==> envelope_ok(#[trigger] n.outbox[i], h, members),
        envelope_ok(EnvelopeView { from: n.id, to, message: m }, h, members),
    ensures
        forall|i: int| 0 <= i < n.sent(to, m).outbox.len() ==> envelope_ok(#[trigger] n.sent(to, m).outbox[i], h, members),
{
    assert forall|i: int| 0 <= i < n.sent(to, m).outbox.len() implies envelope_ok(#[trigger] n.sent(to, m).outbox[i], h, members) by {
        if i < n.outbox.len() {
            assert(n.sent(to, m).outbox[i] == n.outbox[i]);
        }
    }
}

/// The vote, if any, that a member records when it receives `m` from `from`.
pub open spec fn vote_cast(n: NodeView, from: u64, m: MessageView) -> Option<(u64, u64, u64)> {
    let s = if m.term() > n.current_term {
        n.become_follower(m.term())
    } else {
        n
    };
    match m {
        MessageView::RequestVote(req) => if s.grants_vote(req) {
            Some((n.id, s.current_term, req.candidate_id))
        } else {
            None
        },
        _ => None,
    }
}

/// The history extended by a vote, if one was cast.
pub open spec fn with_vote(h: Set<(u64, u64, u64)>, v: Option<(u64, u64, u64)>) -> Set<(u64, u64, u64)> {
    match v {
        Some(x) => h.insert(x),
        None => h,
    }
}

/// Receiving an envelope addressed to it keeps a member in agreement with the
/// history, once the history records the vote it may cast.
proof fn lemma_step_ok(n: NodeView, e: EnvelopeView, h: Set<(u64, u64, u64)>, members: Set<u64>)
    requires
        node_ok(n, h, members),
        one_vote_per_term(h),
        envelope_ok(e, h, members),
        e.to == n.id,
    ensures
        node_ok(n.stepped(e.from, e.message), with_vote(h, vote_cast(n, e.from, e.message)), members),
        one_vote_per_term(with_vote(h, vote_cast(n, e.from, e.message))),
        n.stepped(e.from, e.message).id == n.id,
        n.stepped(e.from, e.message).peers == n.peers,
{
    let from = e.from;
    let m = e.message;
    let s = if m.term() > n.current_term {
        n.become_follower(m.term())
    } else {
        n
    };
    if m.term() > n.current_term {
        lemma_become_follower_ok(n, m.term(), h, members);
    }
    assert(node_ok(s, h, members));
    match m {
        MessageView::RequestVote(req) => {
            let grant = s.grants_vote(req);
            if grant {
                let t = s.current_term;
                let h2 = h.insert((n.id, t, req.candidate_id));
                let s1 = NodeView { voted_for: Some(req.candidate_id), election_elapsed: 0, ..s }.jittered();
                assert forall|v: u64, tt: u64, c1: u64, c2: u64|
                    #![trigger h2.contains((v, tt, c1)), h2.contains((v, tt, c2))]
                    h2.contains((v, tt, c1)) && h2.contains((v, tt, c2)) implies c1 == c2 by {
                    if (v, tt, c1) == (n.id, t, req.candidate_id) && (v, tt, c2) != (n.id, t, req.candidate_id) {
                        assert(h.contains((n.id, t, c2)));
                    }
                    if (v, tt, c2) == (n.id, t, req.candidate_id) && (v, tt, c1) != (n.id, t, req.candidate_id) {
                        assert(h.contains((n.id, t, c1)));
                    }
                }
                lemma_node_ok_grow(s, h, h, members);
                assert forall|i: int| 0 <= i < s1.outbox.len() implies envelope_ok(#[trigger] s1.outbox[i], h2, members) by {
                    assert(envelope_ok(s.outbox[i], h, members));
                }
                let reply = MessageView::RequestVoteReply(RequestVoteReply { term: t, vote_granted: true });
                assert(envelope_ok(EnvelopeView { from: s1.id, to: from, message: reply }, h2, members));
                lemma_sent_ok(s1, from, reply, h2, members);
                let f = s1.sent(from, reply);
                assert forall|tt: u64, c: u64| #[trigger] h2.contains((f.id, tt, c)) implies tt <= f.current_term && (tt
                    == f.current_term ==> f.voted_for == Some(c)) by {
                    if (f.id, tt, c) != (n.id, t, req.candidate_id) {
                        assert(h.contains((n.id, tt, c)));
                    }
                }
                if f.role is Leader {
                    let q = choose|q: Set<u64>| quorum_of_votes(q, h, members, s.current_term, s.id, s.quorum());
                    assert(quorum_of_votes(q, h2, members, f.current_term, f.id, f.quorum()));
                }
                if f.role is Candidate {
                    let votes = f.role->votes_received;
                    assert forall|i: int| 0 <= i < votes.len() implies members.contains(#[trigger] votes[i]) && h2.contains(
                        (votes[i], f.current_term, f.id)) by {
                        assert(members.contains(s.role->votes_received[i]));
                    }
                }
                assert(f == n.stepped(from, m));
                assert(node_ok(f, h2, members));
            } else {
                let reply = MessageView::RequestVoteReply(RequestVoteReply { term: s.current_term, vote_granted: false });
                lemma_sent_ok(s, from, reply, h, members);
                lemma_node_ok_same_votes(s, s.sent(from, reply), h, members);
            }
        },
        MessageView::RequestVoteReply(r) => {
            if r.term != s.current_term || !r.vote_granted {
            } else {
                match s.role {
                    RoleView::Candidate { votes_received } => {
                        let votes = if votes_received.contains(from) {
                            votes_received
                        } else {
                            votes_received.push(from)
                        };
                        let c = NodeView { role: RoleView::Candidate { votes_received: votes }, ..s };
                        assert(h.contains((from, s.current_term, n.id)));
                        assert(votes.no_duplicates()) by {
                            if !votes_received.contains(from) {
                                assert forall|i: int, j: int|
                                    0 <= i < votes.len() && 0 <= j < votes.len() && i != j implies votes[i]
                                    != votes[j] by {
                                    if i == votes_received.len() as int {
                                        assert(votes_received[j] != from);
                                    } else if j == votes_received.len() as int {
                                        assert(votes_received[i] != from);
                                    }
                                }
                            }
                        }
                        assert forall|i: int| 0 <= i < votes.len() implies members.contains(#[trigger] votes[i]) && h.contains(
                            (votes[i], c.current_term, c.id)) by {
                            if i < votes_received.len() {
                                assert(votes[i] == votes_received[i]);
                            }
                        }
                        assert(node_ok(c, h, members));
                        if votes.len() >= s.quorum() {
                            let q = votes.to_set();
                            votes.unique_seq_to_set();
                            assert(q.subset_of(members));
                            assert forall|x: u64| #[trigger] q.contains(x) implies h.contains((x, s.current_term, n.id)) by {
                                let i = choose|i: int| 0 <= i < votes.len() && votes[i] == x;
                            }
                            vstd::seq_lib::seq_to_set_is_finite(votes);
                            assert(quorum_of_votes(q, h, members, s.current_term, n.id, s.quorum()));
                            let l = NodeView {
                                role: RoleView::Leader {
                                    next_index: Map::new(|p: u64| c.peers.contains(p), |p: u64| (c.log.len() + 1) as u64),
                                    match_index: Map::new(|p: u64| c.peers.contains(p), |p: u64| 0u64),
                                },
                                heartbeat_elapsed: 0,
                                ..c
                            };
                            lemma_broadcast_ok(l, h, members);
                            let f = l.broadcast_append_entries();
                            assert(f == n.stepped(from, m));
                            assert(quorum_of_votes(q, h, members, f.current_term, f.id, f.quorum()));
                            assert(node_ok(f, h, members));
                        } else {
                            assert(c == n.stepped(from, m));
                        }
                    },
                    _ => {},
                }
            }
        },
        MessageView::AppendEntries(req) => {
            if req.term < s.current_term {
                let reply = MessageView::AppendEntriesReply(
                    AppendEntriesReply { term: s.current_term, success: false, conflict_index: None, match_index: 0 },
                );
                lemma_sent_ok(s, from, reply, h, members);
                lemma_node_ok_same_votes(s, s.sent(from, reply), h, members);
            } else {
                let f = n.stepped(from, m);
                assert forall|i: int| 0 <= i < f.outbox.len() implies envelope_ok(#[trigger] f.outbox[i], h, members) by {
                    if i < s.outbox.len() {
                        assert(f.outbox[i] == s.outbox[i]);
                    }
                }
                lemma_node_ok_same_votes(s, f, h, members);
            }
        },
        MessageView::AppendEntriesReply(r) => {
            let f = n.stepped(from, m);
            assert(f.outbox == s.outbox);
            lemma_node_ok_same_votes(s, f, h, members);
        },
    }
}

/// No two nodes of the sequence share an id.
pub open spec fn distinct_ids(nodes: Seq<NodeView>) -> bool {
    forall|i: int, j: int|
        0 <= i < nodes.len() && 0 <= j < nodes.len() && i != j ==> #[trigger] nodes[i].id
            != #[trigger] nodes[j].id
}

/// No two nodes lead in the same term.
pub open spec fn one_leader_per_term(nodes: Seq<NodeView>) -> bool {
    forall|i: int, j: int|
        0 <= i < nodes.len() && 0 <= j < nodes.len() && #[trigger] nodes[i].role is Leader
            && #[trigger] nodes[j].role is Leader && nodes[i].current_term == nodes[j].current_term
            ==> i == j
}

/// The whole simulated cluster agrees with the vote history: every node and every
/// queued envelope does, ids are distinct, and no voter voted twice in a term.
pub open spec fn cluster_ok(s: SimView, h: Set<(u64, u64, u64)>, members: Set<u64>) -> bool {
    &&& members.finite()
    &&& one_vote_per_term(h)
    &&& distinct_ids(s.nodes)
    &&& forall|i: int| 0 <= i < s.nodes.len() ==> node_ok(#[trigger] s.nodes[i], h, members)
    &&& forall|i: int| 0 <= i < s.in_flight.len() ==> envelope_ok(#[trigger] s.in_flight[i].0, h, members)
}

/// A freshly built cluster: distinct members that each list all the others as
/// peers, all followers with no vote, nothing queued anywhere.
pub open spec fn fresh_cluster(s: SimView, members: Set<u64>) -> bool {
    &&& members.finite()
    &&& distinct_ids(s.nodes)
    &&& s.in_flight.len() == 0
    &&& forall|i: int|
        0 <= i < s.nodes.len() ==> {
            let n = #[trigger] s.nodes[i];
            &&& members.contains(n.id)
            &&& n.peers.no_duplicates()
            &&& n.peers.to_set() == members.remove(n.id)
            &&& n.voted_for is None
            &&& n.role is Follower
            &&& n.outbox.len() == 0
        }
}

/// A member's quorum size is a strict majority of the membership.
proof fn lemma_member_quorum(n: NodeView, members: Set<u64>)
    requires
        members.finite(),
        members.contains(n.id),
        n.peers.no_duplicates(),
        n.peers.to_set() == members.remove(n.id),
    ensures
        2 * n.quorum() > members.len(),
{
    n.peers.unique_seq_to_set();
    assert(members.remove(n.id).len() == members.len() - 1);
}

/// Agreement with the history implies election safety.
pub proof fn lemma_cluster_ok_one_leader(s: SimView, h: Set<(u64, u64, u64)>, members: Set<u64>)
    requires
        cluster_ok(s, h, members),
    ensures
        one_leader_per_term(s.nodes),
{
    assert forall|i: int, j: int|
        0 <= i < s.nodes.len() && 0 <= j < s.nodes.len() && #[trigger] s.nodes[i].role is Leader
            && #[trigger] s.nodes[j].role is Leader && s.nodes[i].current_term == s.nodes[j].current_term
            implies i == j by {
        let a = s.nodes[i];
        let b = s.nodes[j];
        assert(node_ok(a, h, members));
        assert(node_ok(b, h, members));
        let qa = choose|q: Set<u64>| quorum_of_votes(q, h, members, a.current_term, a.id, a.quorum());
        let qb = choose|q: Set<u64>| quorum_of_votes(q, h, members, b.current_term, b.id, b.quorum());
        lemma_member_quorum(a, members);
        lemma_member_quorum(b, members);
        if qa.disjoint(qb) {
            vstd::set_lib::lemma_set_disjoint_lens(qa, qb);
            vstd::set_lib::lemma_len_subset(qa + qb, members);
            assert(false);
        }
        let x = choose|x: u64| qa.contains(x) && qb.contains(x);
        assert(h.contains((x, a.current_term, a.id)));
        assert(h.contains((x, b.current_term, b.id)));
        assert(a.id == b.id);
    }
}

/// A freshly built cluster agrees with the empty history.
pub proof fn lemma_fresh_cluster_ok(s: SimView, members: Set<u64>)
    requires
        fresh_cluster(s, members),
    ensures
        cluster_ok(s, Set::empty(), members),
{
    assert forall|i: int| 0 <= i < s.nodes.len() implies node_ok(#[trigger] s.nodes[i], Set::empty(), members) by {
        let n = s.nodes[i];
        assert(n.outbox.len() == 0);
    }
}

/// Envelope agreement survives growing the history.
proof fn lemma_envelope_ok_grow(e: EnvelopeView, h: Set<(u64, u64, u64)>, h2: Set<(u64, u64, u64)>, members: Set<u64>)
    requires
        envelope_ok(e, h, members),
        h.subset_of(h2),
    ensures
        envelope_ok(e, h2, members),
{
}

/// Ticking every node keeps the cluster in agreement with the history extended by
/// the self-votes of the nodes that start an election.
proof fn lemma_tick_all_ok(nodes: Seq<NodeView>, h: Set<(u64, u64, u64)>, members: Set<u64>) -> (h1: Set<(u64, u64, u64)>)
    requires
        distinct_ids(nodes),
        one_vote_per_term(h),
        forall|i: int| 0 <= i < nodes.len() ==> node_ok(#[trigger] nodes[i], h, members),
        forall|i: int| 0 <= i < nodes.len() ==> (#[trigger] nodes[i]).can_tick(),
    ensures
        h.subset_of(h1),
        one_vote_per_term(h1),
        distinct_ids(all_ticked(nodes)),
        all_ticked(nodes).len() == nodes.len(),
        forall|i: int| 0 <= i < nodes.len() ==> node_ok(#[trigger] all_ticked(nodes)[i], h1, members),
{
    let new_vote = |i: int| (nodes[i].id, (nodes[i].current_term + 1) as u64, nodes[i].id);
    let h1 = Set::new(
        |x: (u64, u64, u64)|
            h.contains(x) || exists|i: int|
                0 <= i < nodes.len() && #[trigger] nodes[i].tick_starts_election() && x == new_vote(i),
    );
    let ticked = all_ticked(nodes);
    assert forall|i: int| 0 <= i < nodes.len() implies node_ok(#[trigger] ticked[i], h1, members) by {
        let hi = lemma_tick_ok(nodes[i], h, members);
        assert(ticked[i] == nodes[i].ticked());
        assert forall|x: (u64, u64, u64)| h1.contains(x) && x.0 == ticked[i].id implies hi.contains(x) by {
            if !h.contains(x) {
                let j = choose|j: int|
                    0 <= j < nodes.len() && #[trigger] nodes[j].tick_starts_election() && x == new_vote(j);
                assert(nodes[j].id == nodes[i].id);
                assert(j == i);
            }
        }
        lemma_node_ok_grow(ticked[i], hi, h1, members);
    }
    assert forall|v: u64, t: u64, c1: u64, c2: u64|
        #![trigger h1.contains((v, t, c1)), h1.contains((v, t, c2))]
        h1.contains((v, t, c1)) && h1.contains((v, t, c2)) implies c1 == c2 by {
        if !h.contains((v, t, c1)) {
            let j = choose|j: int|
                0 <= j < nodes.len() && #[trigger] nodes[j].tick_starts_election() && (v, t, c1) == new_vote(j);
            if h.contains((v, t, c2)) {
                assert(node_ok(nodes[j], h, members));
                assert(h.contains((nodes[j].id, t, c2)));
            } else {
                let k = choose|k: int|
                    0 <= k < nodes.len() && #[trigger] nodes[k].tick_starts_election() && (v, t, c2) == new_vote(k);
                assert(nodes[j].id == nodes[k].id);
            }
        } else if !h.contains((v, t, c2)) {
            let k = choose|k: int|
                0 <= k < nodes.len() && #[trigger] nodes[k].tick_starts_election() && (v, t, c2) == new_vote(k);
            assert(node_ok(nodes[k], h, members));
            assert(h.contains((nodes[k].id, t, c1)));
        }
    }
    assert forall|i: int, j: int|
        0 <= i < ticked.len() && 0 <= j < ticked.len() && i != j implies #[trigger] ticked[i].id
        != #[trigger] ticked[j].id by {
        assert(ticked[i].id == nodes[i].id);
        assert(ticked[j].id == nodes[j].id);
    }
    h1
}

/// Every element of a flattened sequence is an element of one of its parts.
proof fn lemma_flatten_ok(ss: Seq<Seq<EnvelopeView>>, h: Set<(u64, u64, u64)>, members: Set<u64>)
    requires
        forall|i: int, j: int|
            0 <= i < ss.len() && 0 <= j < ss[i].len() ==> envelope_ok(#[trigger] ss[i][j], h, members),
    ensures
        forall|k: int| 0 <= k < ss.flatten().len() ==> envelope_ok(#[trigger] ss.flatten()[k], h, members),
    decreases ss.len(),
{
    if ss.len() > 0 {
        let rest = ss.drop_first();
        assert forall|i: int, j: int|
            0 <= i < rest.len() && 0 <= j < rest[i].len() implies envelope_ok(#[trigger] rest[i][j], h, members) by {
            assert(rest[i] == ss[i + 1]);
        }
        lemma_flatten_ok(rest, h, members);
        assert(ss.flatten() == ss[0] + rest.flatten());
        assert forall|k: int| 0 <= k < ss.flatten().len() implies envelope_ok(#[trigger] ss.flatten()[k], h, members) by {
            if k < ss[0].len() {
                assert(ss.flatten()[k] == ss[0][k]);
            } else {
                assert(ss.flatten()[k] == rest.flatten()[k - ss[0].len()]);
            }
        }
    }
}

/// Draining every outbox keeps the nodes in agreement, and everything drained agrees too.
proof fn lemma_drain_ok(nodes: Seq<NodeView>, h: Set<(u64, u64, u64)>, members: Set<u64>)
    requires
        distinct_ids(nodes),
        forall|i: int| 0 <= i < nodes.len() ==> node_ok(#[trigger] nodes[i], h, members),
    ensures
        distinct_ids(all_drained(nodes)),
        all_drained(nodes).len() == nodes.len(),
        forall|i: int| 0 <= i < nodes.len() ==> node_ok(#[trigger] all_drained(nodes)[i], h, members),
        forall|k: int|
            0 <= k < all_outboxes(nodes).len() ==> envelope_ok(#[trigger] all_outboxes(nodes)[k], h, members),
{
    let drained = all_drained(nodes);
    assert forall|i: int| 0 <= i < nodes.len() implies node_ok(#[trigger] drained[i], h, members) by {
        lemma_node_ok_same_votes(nodes[i], drained[i], h, members);
    }
    assert forall|i: int, j: int|
        0 <= i < drained.len() && 0 <= j < drained.len() && i != j implies #[trigger] drained[i].id
        != #[trigger] drained[j].id by {
        assert(drained[i].id == nodes[i].id);
        assert(drained[j].id == nodes[j].id);
    }
    let ss = nodes.map_values(|n: NodeView| n.outbox);
    assert forall|i: int, j: int|
        0 <= i < ss.len() && 0 <= j < ss[i].len() implies envelope_ok(#[trigger] ss[i][j], h, members) by {
        assert(ss[i] == nodes[i].outbox);
        assert(node_ok(nodes[i], h, members));
    }
    lemma_flatten_ok(ss, h, members);
}

/// Scheduling envelopes that agree with the history keeps the queue in agreement,
/// and touches neither the nodes nor the clock.
proof fn lemma_enqueued_all_ok(s: SimView, es: Seq<EnvelopeView>, h: Set<(u64, u64, u64)>, members: Set<u64>)
    requires
        forall|i: int| 0 <= i < s.in_flight.len() ==> envelope_ok(#[trigger] s.in_flight[i].0, h, members),
        forall|k: int| 0 <= k < es.len() ==> envelope_ok(#[trigger] es[k], h, members),
    ensures
        s.enqueued_all(es).nodes == s.nodes,
        s.enqueued_all(es).clock == s.clock,
        forall|i: int|
            0 <= i < s.enqueued_all(es).in_flight.len() ==> envelope_ok(
                #[trigger] s.enqueued_all(es).in_flight[i].0,
                h,
                members,
            ),
    decreases es.len(),
{
    if es.len() > 0 {
        let s1 = s.enqueued(es[0]);
        assert forall|i: int| 0 <= i < s1.in_flight.len() implies envelope_ok(#[trigger] s1.in_flight[i].0, h, members) by {
            if i < s.in_flight.len() {
                assert(s1.in_flight[i] == s.in_flight[i]);
            } else {
                assert(s1.in_flight[i].0 == es[0]);
            }
        }
        let rest = es.drop_first();
        assert forall|k: int| 0 <= k < rest.len() implies envelope_ok(#[trigger] rest[k], h, members) by {
            assert(rest[k] == es[k + 1]);
        }
        lemma_enqueued_all_ok(s1, rest, h, members);
    }
}

/// The first node with an id has that id.
proof fn lemma_node_index(nodes: Seq<NodeView>, id: u64)
    ensures
        match node_index(nodes, id) {
            Some(i) => 0 <= i < nodes.len() && nodes[i].id == id,
            None => true,
        },
{
    if exists|i: int| 0 <= i < nodes.len() && nodes[i].id == id {
        let w = choose|i: int| 0 <= i < nodes.len() && nodes[i].id == id;
        let p = |i: int| 0 <= i < nodes.len() && nodes[i].id == id && forall|j: int| 0 <= j < i ==> nodes[j].id != id;
        // The least position with the id satisfies `p`.
        let least = lemma_least_position(nodes, id, w);
        assert(p(least));
    }
}

/// Some position up to `w` is the first one with the id.
proof fn lemma_least_position(nodes: Seq<NodeView>, id: u64, w: int) -> (k: int)
    requires
        0 <= w < nodes.len(),
        nodes[w].id == id,
    ensures
        0 <= k <= w,
        nodes[k].id == id,
        forall|j: int| 0 <= j < k ==> nodes[j].id != id,
    decreases w,
{
    if exists|j: int| 0 <= j < w && nodes[j].id == id {
        let j = choose|j: int| 0 <= j < w && nodes[j].id == id;
        lemma_least_position(nodes, id, j)
    } else {
        w
    }
}

/// Delivering the due messages keeps the cluster in agreement with the history
/// extended by the votes the receivers cast.
proof fn lemma_deliver_ok(
    nodes: Seq<NodeView>,
    kept: Seq<(EnvelopeView, u64)>,
    pending: Seq<(EnvelopeView, u64)>,
    clock: u64,
    h: Set<(u64, u64, u64)>,
    members: Set<u64>,
) -> (h2: Set<(u64, u64, u64)>)
    requires
        distinct_ids(nodes),
        one_vote_per_term(h),
        forall|i: int| 0 <= i < nodes.len() ==> node_ok(#[trigger] nodes[i], h, members),
        forall|i: int| 0 <= i < kept.len() ==> envelope_ok(#[trigger] kept[i].0, h, members),
        forall|i: int| 0 <= i < pending.len() ==> envelope_ok(#[trigger] pending[i].0, h, members),
    ensures
        h.subset_of(h2),
        one_vote_per_term(h2),
        distinct_ids(deliver_due(nodes, kept, pending, clock).0),
        forall|i: int|
            0 <= i < deliver_due(nodes, kept, pending, clock).0.len() ==> node_ok(
                #[trigger] deliver_due(nodes, kept, pending, clock).0[i],
                h2,
                members,
            ),
        forall|i: int|
            0 <= i < deliver_due(nodes, kept, pending, clock).1.len() ==> envelope_ok(
                #[trigger] deliver_due(nodes, kept, pending, clock).1[i].0,
                h2,
                members,
            ),
    decreases pending.len(),
{
    if pending.len() == 0 {
        h
    } else {
        let m = pending[0];
        let rest = pending.drop_first();
        assert forall|i: int| 0 <= i < rest.len() implies envelope_ok(#[trigger] rest[i].0, h, members) by {
            assert(rest[i] == pending[i + 1]);
        }
        if m.1 <= clock {
            let e = m.0;
            assert(envelope_ok(pending[0].0, h, members));
            lemma_node_index(nodes, e.to);
            match node_index(nodes, e.to) {
                Some(i) => {
                    if nodes[i].can_step(e.from, e.message) {
                        let n = nodes[i];
                        lemma_step_ok(n, e, h, members);
                        let h1 = with_vote(h, vote_cast(n, e.from, e.message));
                        let nodes1 = nodes.update(i, n.stepped(e.from, e.message));
                        assert(delivered(nodes, e) == nodes1);
                        assert forall|j: int| 0 <= j < nodes1.len() implies node_ok(#[trigger] nodes1[j], h1, members) by {
                            if j != i {
                                assert(nodes1[j] == nodes[j]);
                                assert(nodes[j].id != nodes[i].id);
                                lemma_node_ok_grow(nodes[j], h, h1, members);
                            }
                        }
                        assert forall|a: int, b: int|
                            0 <= a < nodes1.len() && 0 <= b < nodes1.len() && a != b implies #[trigger] nodes1[a].id
                            != #[trigger] nodes1[b].id by {
                            assert(nodes[a].id != nodes[b].id);
                        }
                        assert forall|k: int| 0 <= k < kept.len() implies envelope_ok(#[trigger] kept[k].0, h1, members) by {
                            lemma_envelope_ok_grow(kept[k].0, h, h1, members);
                        }
                        assert forall|k: int| 0 <= k < rest.len() implies envelope_ok(#[trigger] rest[k].0, h1, members) by {
                            lemma_envelope_ok_grow(rest[k].0, h, h1, members);
                        }
                        let h2 = lemma_deliver_ok(nodes1, kept, rest, clock, h1, members);
                        h2
                    } else {
                        assert(delivered(nodes, e) == nodes);
                        lemma_deliver_ok(nodes, kept, rest, clock, h, members)
                    }
                },
                None => {
                    assert(delivered(nodes, e) == nodes);
                    lemma_deliver_ok(nodes, kept, rest, clock, h, members)
                },
            }
        } else {
            let k2 = kept.push(m);
            assert forall|i: int| 0 <= i < k2.len() implies envelope_ok(#[trigger] k2[i].0, h, members) by {
                if i == kept.len() {
                    assert(k2[i] == pending[0]);
                }
            }
            lemma_deliver_ok(nodes, k2, rest, clock, h, members)
        }
    }
}

/// One tick of the simulator keeps the cluster in agreement with the vote history,
/// extended by the votes cast during the tick.
pub proof fn lemma_sim_step_ok(s: SimView, h: Set<(u64, u64, u64)>, members: Set<u64>) -> (h2: Set<(u64, u64, u64)>)
    requires
        cluster_ok(s, h, members),
        s.can_step(),
    ensures
        h.subset_of(h2),
        cluster_ok(s.stepped(), h2, members),
{
    let clock = (s.clock + 1) as u64;
    let h1 = lemma_tick_all_ok(s.nodes, h, members);
    let ticked = all_ticked(s.nodes);
    lemma_drain_ok(ticked, h1, members);
    let s1 = SimView { clock, nodes: all_drained(ticked), ..s };
    assert forall|i: int| 0 <= i < s1.in_flight.len() implies envelope_ok(#[trigger] s1.in_flight[i].0, h1, members) by {
        lemma_envelope_ok_grow(s.in_flight[i].0, h, h1, members);
    }
    lemma_enqueued_all_ok(s1, all_outboxes(ticked), h1, members);
    let s2 = s1.enqueued_all(all_outboxes(ticked));
    let h2 = lemma_deliver_ok(s2.nodes, Seq::empty(), s2.in_flight, clock, h1, members);
    let (nodes, kept) = deliver_due(s2.nodes, Seq::empty(), s2.in_flight, clock);
    assert(s.stepped() == SimView { nodes, in_flight: kept, ..s2 });
    h2
}

/// Agreement with the vote history lasts for as many ticks as the simulator runs.
proof fn lemma_run_ok(s: SimView, h: Set<(u64, u64, u64)>, members: Set<u64>, n: nat) -> (h2: Set<(u64, u64, u64)>)
    requires
        cluster_ok(s, h, members),
        s.can_run(n),
    ensures
        cluster_ok(s.run(n), h2, members),
    decreases n,
{
    if n == 0 {
        h
    } else {
        let h1 = lemma_sim_step_ok(s, h, members);
        lemma_run_ok(s.stepped(), h1, members, (n - 1) as nat)
    }
}

/// Election safety: in a cluster built fresh from members that all list each
/// other as peers, after any number of simulated ticks no two nodes lead in the
/// same term.
pub proof fn lemma_election_safety(s: SimView, members: Set<u64>, n: nat)
    requires
        fresh_cluster(s, members),
        s.can_run(n),
    ensures
        one_leader_per_term(s.run(n).nodes),
{
    lemma_fresh_cluster_ok(s, members);
    let h = lemma_run_ok(s, Set::empty(), members, n);
    lemma_cluster_ok_one_leader(s.run(n), h, members);
}

/// What a driver does between ticks keeps the cluster in agreement with the vote
/// history: proposing at a node, changing the network conditions, or removing a node.
pub proof fn lemma_driver_actions_ok(
    s: SimView,
    h: Set<(u64, u64, u64)>,
    members: Set<u64>,
    i: int,
    data: Seq<u8>,
    conditions: crate::sim::ConditionsView,
)
    requires
        cluster_ok(s, h, members),
        0 <= i < s.nodes.len(),
    ensures
        cluster_ok(SimView { nodes: s.nodes.update(i, s.nodes[i].proposed(data)), ..s }, h, members),
        cluster_ok(SimView { conditions, ..s }, h, members),
        cluster_ok(SimView { nodes: s.nodes.remove(i), ..s }, h, members),
{
    let n = s.nodes[i];
    assert(node_ok(n, h, members));
    let appended = NodeView {
        log: n.log.push(
            crate::log::EntryView { term: n.current_term, index: (n.log.len() + 1) as u64, data },
        ),
        ..n
    };
    lemma_broadcast_ok(appended, h, members);
    lemma_node_ok_same_votes(n, n.proposed(data), h, members);
    let nodes1 = s.nodes.update(i, n.proposed(data));
    assert forall|a: int, b: int|
        0 <= a < nodes1.len() && 0 <= b < nodes1.len() && a != b implies #[trigger] nodes1[a].id
        != #[trigger] nodes1[b].id by {
        assert(s.nodes[a].id != s.nodes[b].id);
    }
    assert forall|j: int| 0 <= j < nodes1.len() implies node_ok(#[trigger] nodes1[j], h, members) by {
        if j != i {
            assert(nodes1[j] == s.nodes[j]);
        }
    }
    let nodes2 = s.nodes.remove(i);
    assert forall|a: int, b: int|
        0 <= a < nodes2.len() && 0 <= b < nodes2.len() && a != b implies #[trigger] nodes2[a].id
        != #[trigger] nodes2[b].id by {
        let a0 = if a < i { a } else { a + 1 };
        let b0 = if b < i { b } else { b + 1 };
        assert(nodes2[a] == s.nodes[a0]);
        assert(nodes2[b] == s.nodes[b0]);
    }
    assert forall|j: int| 0 <= j < nodes2.len() implies node_ok(#[trigger] nodes2[j], h, members) by {
        let j0 = if j < i { j } else { j + 1 };
        assert(nodes2[j] == s.nodes[j0]);
    }
}

/// Something a driver does to a simulated cluster.
pub enum DriverAction {
    /// One tick of the whole cluster.
    Tick,
    /// A proposal at the node in this position (a non-leader refuses it).
    Propose { node: int, data: Seq<u8> },
    /// New network conditions (drops, delays, partitions, healing).
    SetConditions { conditions: ConditionsView },
    /// Removing the node in this position, as a crash does.
    Remove { node: int },
}

/// The cluster after a driver action.
pub open spec fn apply_action(s: SimView, a: DriverAction) -> SimView {
    match a {
        DriverAction::Tick => s.stepped(),
        DriverAction::Propose { node, data } => if 0 <= node < s.nodes.len() && s.nodes[node].role is Leader {
            SimView { nodes: s.nodes.update(node, s.nodes[node].proposed(data)), ..s }
        } else {
            s
        },
        DriverAction::SetConditions { conditions } => SimView { conditions, ..s },
        DriverAction::Remove { node } => if 0 <= node < s.nodes.len() {
            SimView { nodes: s.nodes.remove(node), ..s }
        } else {
            s
        },
    }
}

/// The cluster after a sequence of driver actions, in order.
pub open spec fn apply_actions(s: SimView, acts: Seq<DriverAction>) -> SimView
    decreases acts.len(),
{
    if acts.len() == 0 {
        s
    } else {
        apply_actions(apply_action(s, acts[0]), acts.drop_first())
    }
}

/// Whether every tick in the sequence stays within the integer ranges.
pub open spec fn actions_allowed(s: SimView, acts: Seq<DriverAction>) -> bool
    decreases acts.len(),
{
    acts.len() == 0 || ((acts[0] is Tick ==> s.can_step()) && actions_allowed(
        apply_action(s, acts[0]),
        acts.drop_first(),
    ))
}

proof fn lemma_actions_ok(s: SimView, h: Set<(u64, u64, u64)>, members: Set<u64>, acts: Seq<DriverAction>) -> (h2: Set<(u64, u64, u64)>)
    requires
        cluster_ok(s, h, members),
        actions_allowed(s, acts),
    ensures
        cluster_ok(apply_actions(s, acts), h2, members),
    decreases acts.len(),
{
    if acts.len() == 0 {
        h
    } else {
        let a = acts[0];
        let h1 = match a {
            DriverAction::Tick => lemma_sim_step_ok(s, h, members),
            DriverAction::Propose { node, data } => {
                if 0 <= node < s.nodes.len() {
                    lemma_driver_actions_ok(s, h, members, node, data, s.conditions);
                }
                h
            },
            DriverAction::SetConditions { conditions } => {
                assert(cluster_ok(SimView { conditions, ..s }, h, members));
                h
            },
            DriverAction::Remove { node } => {
                if 0 <= node < s.nodes.len() {
                    lemma_driver_actions_ok(s, h, members, node, Seq::empty(), s.conditions);
                }
                h
            },
        };
        lemma_actions_ok(apply_action(s, a), h1, members, acts.drop_first())
    }
}

/// Election safety under any driver: from a freshly built cluster, whatever
/// sequence of ticks, proposals, network changes and crashes follows, no two
/// nodes lead in the same term, and every leader holds votes of its term from a
/// majority of the members, in a history where no member voted twice in a term.
/// So no minority of the members can ever make a leader by itself.
pub proof fn lemma_election_safety_under_any_driver(s: SimView, members: Set<u64>, acts: Seq<DriverAction>)
    requires
        fresh_cluster(s, members),
        actions_allowed(s, acts),
    ensures
        one_leader_per_term(apply_actions(s, acts).nodes),
        exists|h: Set<(u64, u64, u64)>|
            #![trigger one_vote_per_term(h)]
            one_vote_per_term(h) && forall|i: int|
                0 <= i < apply_actions(s, acts).nodes.len() && (#[trigger] apply_actions(
                    s,
                    acts,
                ).nodes[i]).role is Leader ==> exists|q: Set<u64>|
                    #[trigger] quorum_of_votes(
                        q,
                        h,
                        members,
                        apply_actions(s, acts).nodes[i].current_term,
                        apply_actions(s, acts).nodes[i].id,
                        apply_actions(s, acts).nodes[i].quorum(),
                    ) && 2 * q.len() > members.len(),
{
    lemma_fresh_cluster_ok(s, members);
    let h = lemma_actions_ok(s, Set::empty(), members, acts);
    let f = apply_actions(s, acts);
    lemma_cluster_ok_one_leader(f, h, members);
    assert forall|i: int| 0 <= i < f.nodes.len() && (#[trigger] f.nodes[i]).role is Leader implies exists|q: Set<u64>|
        #[trigger] quorum_of_votes(q, h, members, f.nodes[i].current_term, f.nodes[i].id, f.nodes[i].quorum())
            && 2 * q.len() > members.len() by {
        let n = f.nodes[i];
        assert(node_ok(n, h, members));
        let q = choose|q: Set<u64>| quorum_of_votes(q, h, members, n.current_term, n.id, n.quorum());
        lemma_member_quorum(n, members);
        assert(quorum_of_votes(q, h, members, n.current_term, n.id, n.quorum()) && 2 * q.len() > members.len());
    }
    assert(one_vote_per_term(h));
}

} // verus!
