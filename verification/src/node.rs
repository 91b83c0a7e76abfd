//! A single Raft node: leader election, log replication and commit
//! tracking, driven entirely by `tick()` and `step()`.
use vstd::prelude::*;

use std::collections::HashMap;

use crate::log::{
    indices_consecutive, spec_last_term, suffix_from, term_at, EntryView, Log, LogEntry,
    entries_view,
};
use crate::message::{
    AppendEntries, AppendEntriesReply, AppendEntriesView, Envelope, EnvelopeView, Message,
    MessageView, RequestVote, RequestVoteReply, envelopes_view,
};
use crate::quorum::{quorum_commit_index, quorum_index};
use crate::state::{spec_quorum_size, NodeState, Role, RoleView};
use crate::types::{LogIndex, NodeId, Term};

verus! {

broadcast use vstd::std_specs::hash::group_hash_axioms;

pub const DEFAULT_ELECTION_TIMEOUT: u32 = 10;

pub const HEARTBEAT_INTERVAL: u32 = 2;

/// Largest base election timeout for which `base + jitter` always fits in a `u32`.
pub const MAX_ELECTION_TIMEOUT_BASE: u32 = 0x8000_0000;

/// One step of the xorshift64 generator.
pub open spec fn xorshift(x: u64) -> u64 {
    let a = x ^ (x << 13u64);
    let b = a ^ (a >> 7u64);
    b ^ (b << 17u64)
}

/// A nonzero generator state stays nonzero.
pub proof fn lemma_xorshift_nonzero(x: u64)
    requires
        x != 0,
    ensures
        xorshift(x) != 0,
{
    let a = x ^ (x << 13u64);
    assert(a != 0) by (bit_vector)
        requires
            x != 0,
            a == x ^ (x << 13u64),
    ;
    let b = a ^ (a >> 7u64);
    assert(b != 0) by (bit_vector)
        requires
            a != 0,
            b == a ^ (a >> 7u64),
    ;
    let c = b ^ (b << 17u64);
    assert(c != 0) by (bit_vector)
        requires
            b != 0,
            c == b ^ (b << 17u64),
    ;
}

/// The 32-bit value drawn from a generator state.
pub open spec fn rand_output(x: u64) -> u32 {
    (x % 0xFFFF_FFFFu64) as u32
}

/// The generator seed a node with this id starts from.
pub open spec fn initial_rng_state(id: u64) -> u64 {
    let seed = vstd::wrapping::u64_specs::wrapping_mul(id, 0x9E37_79B9_7F4A_7C15u64) ^ 0xDEAD_BEEFu64;
    if seed == 0 {
        0xDEAD_BEEFu64
    } else {
        seed
    }
}

/// The timeout chosen from a base and a random draw: base plus a jitter below max(base, 1).
pub open spec fn jittered_timeout(base: u32, r: u32) -> u32 {
    let spread: u32 = if base == 0 {
        1
    } else {
        base
    };
    (base + r % spread) as u32
}

/// The committed pairs `(index, data)` that applying entries in `(from, to]` produces.
pub open spec fn applied_range(log: Seq<EntryView>, from: int, to: int) -> Seq<(u64, Seq<u8>)>
    decreases to - from,
{
    if to <= from {
        Seq::empty()
    } else {
        let prefix = applied_range(log, from, to - 1);
        if 1 <= to <= log.len() {
            prefix.push((log[to - 1].index, log[to - 1].data))
        } else {
            prefix
        }
    }
}

/// Whether a log holds an entry with term `prev_term` at `prev_index` (or `prev_index` is 0).
pub open spec fn log_accepts(log: Seq<EntryView>, prev_index: u64, prev_term: u64) -> bool {
    prev_index == 0 || term_at(log, prev_index) == Some(prev_term)
}

/// Reconciles one incoming entry at position `next`: kept if the log already has an
/// entry of the same term there, otherwise the log is cut at `next` and the entry appended.
pub open spec fn reconcile_one(log: Seq<EntryView>, next: int, e: EntryView) -> Seq<EntryView> {
    if 1 <= next <= log.len() && log[next - 1].term == e.term {
        log
    } else {
        let kept = if 0 <= next - 1 < log.len() {
            log.take(next - 1)
        } else {
            log
        };
        kept.push(EntryView { term: e.term, index: (kept.len() + 1) as u64, data: e.data })
    }
}

/// Reconciles the incoming entries, in order, starting at position `next`.
pub open spec fn reconciled(log: Seq<EntryView>, next: int, entries: Seq<EntryView>) -> Seq<
    EntryView,
>
    decreases entries.len(),
{
    if entries.len() == 0 {
        log
    } else {
        reconciled(reconcile_one(log, next, entries[0]), next + 1, entries.drop_first())
    }
}

/// A leader's match indices after a successful reply reports `index` for `from`:
/// the record only moves forward.
pub open spec fn updated_match(m: Map<u64, u64>, from: u64, index: u64) -> Map<u64, u64> {
    let current = if m.contains_key(from) {
        m[from]
    } else {
        0
    };
    if index > current {
        m.insert(from, index)
    } else {
        m
    }
}

/// The mathematical value of a node: its Raft state together with its
/// timer, generator, log, outbox and committed output.
pub struct NodeView {
    pub id: u64,
    pub peers: Seq<u64>,
    pub current_term: u64,
    pub voted_for: Option<u64>,
    pub role: RoleView,
    pub commit_index: u64,
    pub last_applied: u64,
    pub election_elapsed: u32,
    pub heartbeat_elapsed: u32,
    pub election_timeout_base: u32,
    pub election_timeout: u32,
    pub rng_state: u64,
    pub log: Seq<EntryView>,
    pub outbox: Seq<EnvelopeView>,
    pub committed: Seq<(u64, Seq<u8>)>,
}

/// The views of the committed pairs.
pub open spec fn committed_view(c: Seq<(LogIndex, Vec<u8>)>) -> Seq<(u64, Seq<u8>)> {
    c.map_values(|p: (LogIndex, Vec<u8>)| (p.0, p.1@))
}

impl NodeView {
    /// The node's invariant.
    pub open spec fn wf(self) -> bool {
        &&& indices_consecutive(self.log)
        &&& self.log.len() < u64::MAX
        &&& self.peers.len() < usize::MAX
        &&& self.election_timeout_base <= MAX_ELECTION_TIMEOUT_BASE
        &&& (self.election_elapsed == 0 || self.election_elapsed < self.election_timeout)
        &&& self.heartbeat_elapsed < HEARTBEAT_INTERVAL
        &&& match self.role {
            RoleView::Candidate { votes_received } => votes_received.no_duplicates(),
            RoleView::Leader { next_index, match_index } => {
                &&& match_index.dom().finite()
                &&& forall|p: u64| #[trigger] self.peers.contains(p) ==> match_index.contains_key(p)
            },
            RoleView::Follower => true,
        }
    }

    pub open spec fn quorum(self) -> nat {
        spec_quorum_size(self.peers.len())
    }

    /// Re-rolls the election timeout from the generator.
    pub open spec fn jittered(self) -> NodeView {
        let rng = xorshift(self.rng_state);
        NodeView {
            rng_state: rng,
            election_timeout: jittered_timeout(self.election_timeout_base, rand_output(rng)),
            ..self
        }
    }

    /// Queues a message for `to`.
    pub open spec fn sent(self, to: u64, message: MessageView) -> NodeView {
        NodeView {
            outbox: self.outbox.push(EnvelopeView { from: self.id, to, message }),
            ..self
        }
    }

    /// The next log index a leader will send to `peer` (1 when none is recorded).
    pub open spec fn next_index_for(self, peer: u64) -> u64 {
        match self.role {
            RoleView::Leader { next_index, .. } => if next_index.contains_key(peer) {
                next_index[peer]
            } else {
                1
            },
            _ => 1,
        }
    }

    /// The AppendEntries a leader sends to `peer`: everything from the peer's next index on.
    pub open spec fn append_entries_to(self, peer: u64) -> EnvelopeView {
        let next = self.next_index_for(peer);
        let prev: u64 = if next == 0 {
            0
        } else {
            (next - 1) as u64
        };
        EnvelopeView {
            from: self.id,
            to: peer,
            message: MessageView::AppendEntries(
                AppendEntriesView {
                    term: self.current_term,
                    leader_id: self.id,
                    prev_log_index: prev,
                    prev_log_term: match term_at(self.log, prev) {
                        Some(t) => t,
                        None => 0,
                    },
                    entries: suffix_from(self.log, next),
                    leader_commit: self.commit_index,
                },
            ),
        }
    }

    /// A leader sends AppendEntries to every peer, in peer order; anyone else sends nothing.
    pub open spec fn broadcast_append_entries(self) -> NodeView {
        if self.role is Leader {
            NodeView {
                outbox: self.outbox + self.peers.map_values(|p: u64| self.append_entries_to(p)),
                ..self
            }
        } else {
            self
        }
    }

    /// Becoming leader: every peer's next index is one past our log, its match index 0.
    pub open spec fn become_leader(self) -> NodeView {
        let last = self.log.len();
        NodeView {
            role: RoleView::Leader {
                next_index: Map::new(|p: u64| self.peers.contains(p), |p: u64| (last + 1) as u64),
                match_index: Map::new(|p: u64| self.peers.contains(p), |p: u64| 0u64),
            },
            heartbeat_elapsed: 0,
            ..self
        }.broadcast_append_entries()
    }

    /// Stepping down to follower in `term`, with no vote cast and a fresh timeout.
    pub open spec fn become_follower(self, term: u64) -> NodeView {
        NodeView {
            current_term: term,
            voted_for: None,
            role: RoleView::Follower,
            election_elapsed: 0,
            ..self
        }.jittered()
    }

    /// The RequestVote a candidate sends to `peer`.
    pub open spec fn request_vote_to(self, peer: u64) -> EnvelopeView {
        EnvelopeView {
            from: self.id,
            to: peer,
            message: MessageView::RequestVote(
                RequestVote {
                    term: self.current_term,
                    candidate_id: self.id,
                    last_log_index: self.log.len() as u64,
                    last_log_term: spec_last_term(self.log),
                },
            ),
        }
    }

    /// Starting an election: a new term, a vote for ourselves, a fresh timeout, then
    /// either immediate leadership (a cluster of one) or a RequestVote to every peer.
    pub open spec fn start_election(self) -> NodeView {
        let s = NodeView {
            current_term: (self.current_term + 1) as u64,
            voted_for: Some(self.id),
            election_elapsed: 0,
            role: RoleView::Candidate { votes_received: seq![self.id] },
            ..self
        }.jittered();
        if self.peers.len() == 0 {
            s.become_leader()
        } else {
            NodeView { outbox: s.outbox + self.peers.map_values(|p: u64| s.request_vote_to(p)), ..s }
        }
    }

    /// Whether a tick starts an election.
    pub open spec fn tick_starts_election(self) -> bool {
        !(self.role is Leader) && self.election_elapsed + 1 >= self.election_timeout
    }

    /// One unit of time: a leader heartbeats every HEARTBEAT_INTERVAL ticks; anyone
    /// else starts an election once the election timeout has elapsed.
    pub open spec fn ticked(self) -> NodeView {
        if self.role is Leader {
            if self.heartbeat_elapsed + 1 >= HEARTBEAT_INTERVAL {
                NodeView { heartbeat_elapsed: 0, ..self }.broadcast_append_entries()
            } else {
                NodeView { heartbeat_elapsed: (self.heartbeat_elapsed + 1) as u32, ..self }
            }
        } else {
            let s = NodeView { election_elapsed: (self.election_elapsed + 1) as u32, ..self };
            if self.tick_starts_election() {
                s.start_election()
            } else {
                s
            }
        }
    }

    /// Whether a candidate's log is at least as up to date as ours.
    pub open spec fn candidate_log_ok(self, req: RequestVote) -> bool {
        ||| req.last_log_term > spec_last_term(self.log)
        ||| (req.last_log_term == spec_last_term(self.log) && req.last_log_index
            >= self.log.len())
    }

    /// Whether we grant a vote: same term, no vote for someone else, and an
    /// up-to-date candidate log.
    pub open spec fn grants_vote(self, req: RequestVote) -> bool {
        &&& req.term == self.current_term
        &&& (self.voted_for is None || self.voted_for == Some(req.candidate_id))
        &&& self.candidate_log_ok(req)
    }

    pub open spec fn handle_request_vote(self, from: u64, req: RequestVote) -> NodeView {
        let grant = self.grants_vote(req);
        let s = if grant {
            NodeView {
                voted_for: Some(req.candidate_id),
                election_elapsed: 0,
                ..self
            }.jittered()
        } else {
            self
        };
        s.sent(
            from,
            MessageView::RequestVoteReply(
                RequestVoteReply { term: s.current_term, vote_granted: grant },
            ),
        )
    }

    pub open spec fn handle_request_vote_reply(self, from: u64, reply: RequestVoteReply) -> NodeView {
        if reply.term != self.current_term || !reply.vote_granted {
            self
        } else {
            match self.role {
                RoleView::Candidate { votes_received } => {
                    let votes = if votes_received.contains(from) {
                        votes_received
                    } else {
                        votes_received.push(from)
                    };
                    let s = NodeView { role: RoleView::Candidate { votes_received: votes }, ..self };
                    if votes.len() >= self.quorum() {
                        s.become_leader()
                    } else {
                        s
                    }
                },
                _ => self,
            }
        }
    }

    /// Applying committed entries: everything in (last_applied, commit_index] that
    /// the log holds is appended to the committed output.
    pub open spec fn applied(self) -> NodeView {
        if self.last_applied < self.commit_index {
            NodeView {
                committed: self.committed + applied_range(
                    self.log,
                    self.last_applied as int,
                    self.commit_index as int,
                ),
                last_applied: self.commit_index,
                ..self
            }
        } else {
            self
        }
    }

    pub open spec fn handle_append_entries(self, from: u64, req: AppendEntriesView) -> NodeView {
        if req.term < self.current_term {
            self.sent(
                from,
                MessageView::AppendEntriesReply(
                    AppendEntriesReply {
                        term: self.current_term,
                        success: false,
                        conflict_index: None,
                        match_index: 0,
                    },
                ),
            )
        } else {
            let s = NodeView {
                election_elapsed: 0,
                ..self
            }.jittered();
            let s = NodeView { role: RoleView::Follower, ..s };
            if !log_accepts(s.log, req.prev_log_index, req.prev_log_term) {
                let conflict: u64 = if (s.log.len() as u64) < req.prev_log_index {
                    s.log.len() as u64
                } else {
                    req.prev_log_index
                };
                s.sent(
                    from,
                    MessageView::AppendEntriesReply(
                        AppendEntriesReply {
                            term: s.current_term,
                            success: false,
                            conflict_index: Some(conflict),
                            match_index: 0,
                        },
                    ),
                )
            } else {
                let log = reconciled(s.log, req.prev_log_index + 1, req.entries);
                let s = NodeView { log, ..s };
                let s = if req.leader_commit > s.commit_index {
                    NodeView {
                        commit_index: if req.leader_commit < log.len() {
                            req.leader_commit
                        } else {
                            log.len() as u64
                        },
                        ..s
                    }.applied()
                } else {
                    s
                };
                s.sent(
                    from,
                    MessageView::AppendEntriesReply(
                        AppendEntriesReply {
                            term: s.current_term,
                            success: true,
                            conflict_index: None,
                            match_index: (req.prev_log_index + req.entries.len()) as u64,
                        },
                    ),
                )
            }
        }
    }

    pub open spec fn handle_append_entries_reply(self, from: u64, reply: AppendEntriesReply) -> NodeView {
        if reply.term != self.current_term {
            self
        } else {
            match self.role {
                RoleView::Leader { next_index, match_index } => {
                    if reply.success {
                        let m = updated_match(match_index, from, reply.match_index);
                        let n = next_index.insert(from, (reply.match_index + 1) as u64);
                        let candidate = quorum_index(m, self.log.len() as u64, self.quorum());
                        let s = NodeView {
                            role: RoleView::Leader { next_index: n, match_index: m },
                            ..self
                        };
                        if candidate > self.commit_index {
                            NodeView { commit_index: candidate, ..s }.applied()
                        } else {
                            s
                        }
                    } else {
                        let retry: u64 = match reply.conflict_index {
                            Some(c) => if c >= 1 {
                                c
                            } else {
                                1
                            },
                            None => 1,
                        };
                        NodeView {
                            role: RoleView::Leader {
                                next_index: next_index.insert(from, retry),
                                match_index,
                            },
                            ..self
                        }
                    }
                },
                _ => self,
            }
        }
    }

    /// Receiving a message: a higher term first turns us into a follower of that
    /// term, then the message is handled by its kind.
    pub open spec fn stepped(self, from: u64, message: MessageView) -> NodeView {
        let s = if message.term() > self.current_term {
            self.become_follower(message.term())
        } else {
            self
        };
        match message {
            MessageView::RequestVote(m) => s.handle_request_vote(from, m),
            MessageView::RequestVoteReply(m) => s.handle_request_vote_reply(from, m),
            MessageView::AppendEntries(m) => s.handle_append_entries(from, m),
            MessageView::AppendEntriesReply(m) => s.handle_append_entries_reply(from, m),
        }
    }

    /// Whether handling `message` from `from` stays within the integer ranges and
    /// indices: a successful reply to a leader in its term must not carry the largest
    /// index, and must leave at least a quorum of values (the recorded match indices
    /// and the leader's own) to choose the commit index from; an accepted AppendEntries
    /// must leave room in the log index space.
    pub open spec fn can_step(self, from: u64, message: MessageView) -> bool {
        match message {
            MessageView::AppendEntriesReply(r) => (r.term == self.current_term && self.role is Leader
                && r.success) ==> {
                &&& r.match_index < u64::MAX
                &&& self.quorum() <= updated_match(self.role->match_index, from, r.match_index).dom().len() + 1
            },
            MessageView::AppendEntries(r) => (r.term >= self.current_term && log_accepts(
                self.log,
                r.prev_log_index,
                r.prev_log_term,
            )) ==> r.prev_log_index + r.entries.len() < u64::MAX,
            _ => true,
        }
    }

    /// Whether a tick stays within the integer ranges: a new election needs a next term.
    pub open spec fn can_tick(self) -> bool {
        self.tick_starts_election() ==> self.current_term < u64::MAX
    }

    /// Whether a proposal stays within the log index space.
    pub open spec fn can_propose(self) -> bool {
        self.role is Leader ==> self.log.len() + 1 < u64::MAX
    }

    /// A leader appends the proposal to its log in its current term and broadcasts.
    pub open spec fn proposed(self, data: Seq<u8>) -> NodeView {
        NodeView {
            log: self.log.push(
                EntryView { term: self.current_term, index: (self.log.len() + 1) as u64, data },
            ),
            ..self
        }.broadcast_append_entries()
    }
}

/// A single Raft node. Owns no I/O — the driver feeds it ticks and
/// inbound messages, and drains outbound messages + committed entries
/// after each call. This is what makes deterministic simulation possible:
/// the driver fully controls time and message delivery.
pub struct Node {
    pub state: NodeState,
    /// Base election timeout. Actual timeout used each round is this
    /// plus a jittered amount in [0, base), to avoid nodes with similar
    /// timeouts perpetually splitting votes.
    pub election_timeout_base: u32,
    pub election_timeout: u32,
    /// Local PRNG used only for timeout jitter, seeded from the node id.
    /// Deliberately separate from any network-level randomness so a
    /// node's jitter behavior doesn't depend on simulator seed.
    pub rng_state: u64,
    pub log: Log,
    pub outbox: Vec<Envelope>,
    pub committed: Vec<(LogIndex, Vec<u8>)>,
}

impl View for Node {
    type V = NodeView;

    open spec fn view(&self) -> NodeView {
        NodeView {
            id: self.state.id,
            peers: self.state.peers@,
            current_term: self.state.current_term,
            voted_for: self.state.voted_for,
            role: self.state.role@,
            commit_index: self.state.commit_index,
            last_applied: self.state.last_applied,
            election_elapsed: self.state.election_elapsed,
            heartbeat_elapsed: self.state.heartbeat_elapsed,
            election_timeout_base: self.election_timeout_base,
            election_timeout: self.election_timeout,
            rng_state: self.rng_state,
            log: self.log@,
            outbox: envelopes_view(self.outbox@),
            committed: committed_view(self.committed@),
        }
    }
}

impl Node {
    pub open spec fn wf(&self) -> bool {
        self@.wf()
    }

    /// Whether handling `message` from `from` stays within the integer ranges and
    /// indices; see `NodeView::can_step`.
    pub fn can_step(&self, from: NodeId, message: &Message) -> (ok: bool)
        requires
            self.wf(),
        ensures
            ok == self@.can_step(from, message@),
    {
        match message {
            Message::AppendEntriesReply(r) => {
                if r.term == self.state.current_term && r.success {
                    match &self.state.role {
                        Role::Leader { match_index, .. } => {
                            let (known, current) = match match_index.get(&from) {
                                Some(v) => (true, *v),
                                None => (false, 0),
                            };
                            let grows = !known && r.match_index > current;
                            // Values to choose from: the recorded indices plus the leader's own.
                            let spare = self.state.quorum_size() - 1;
                            let enough = if grows {
                                spare == 0 || spare - 1 <= match_index.len()
                            } else {
                                spare <= match_index.len()
                            };
                            proof {
                                let m = match_index@;
                                if grows {
                                    assert(m.insert(from, r.match_index).dom() =~= m.dom().insert(from));
                                } else if r.match_index > current {
                                    assert(m.insert(from, r.match_index).dom() =~= m.dom());
                                }
                            }
                            r.match_index < u64::MAX && enough
                        },
                        _ => true,
                    }
                } else {
                    true
                }
            },
            Message::AppendEntries(r) => {
                let accepted = r.term >= self.state.current_term && (r.prev_log_index == 0
                    || match self.log.term_at(r.prev_log_index) {
                    Some(t) => t == r.prev_log_term,
                    None => false,
                });
                !accepted || (r.entries.len() as u64) < u64::MAX - r.prev_log_index
            },
            _ => true,
        }
    }

    pub fn new(id: NodeId, peers: Vec<NodeId>, election_timeout_base: u32) -> (node: Self)
        requires
            peers@.len() < usize::MAX,
            election_timeout_base <= MAX_ELECTION_TIMEOUT_BASE,
        ensures
            node.wf(),
            node@ == (NodeView {
                id,
                peers: peers@,
                current_term: 0,
                voted_for: None,
                role: RoleView::Follower,
                commit_index: 0,
                last_applied: 0,
                election_elapsed: 0,
                heartbeat_elapsed: 0,
                election_timeout_base,
                election_timeout: election_timeout_base,
                rng_state: initial_rng_state(id),
                log: Seq::empty(),
                outbox: Seq::empty(),
                committed: Seq::empty(),
            }).jittered(),
            node@.rng_state != 0,
            election_timeout_base <= node@.election_timeout,
            election_timeout_base > 0 ==> node@.election_timeout < 2 * election_timeout_base,
    {
        let seed = id.wrapping_mul(0x9E37_79B9_7F4A_7C15) ^ 0xDEAD_BEEF;
        let mut node = Node {
            state: NodeState::new(id, peers),
            election_timeout_base,
            election_timeout: election_timeout_base,
            rng_state: if seed == 0 {
                0xDEAD_BEEF
            } else {
                seed
            },
            log: Log::new(),
            outbox: Vec::new(),
            committed: Vec::new(),
        };
        proof {
            assert(envelopes_view(node.outbox@) =~= Seq::<EnvelopeView>::empty());
            assert(committed_view(node.committed@) =~= Seq::<(u64, Seq<u8>)>::empty());
        }
        proof {
            assert(initial_rng_state(id) != 0);
            lemma_xorshift_nonzero(initial_rng_state(id));
        }
        node.jitter_timeout();
        node
    }

    pub fn with_default_timeout(id: NodeId, peers: Vec<NodeId>) -> (node: Self)
        requires
            peers@.len() < usize::MAX,
        ensures
            node.wf(),
            node@ == (NodeView {
                id,
                peers: peers@,
                current_term: 0,
                voted_for: None,
                role: RoleView::Follower,
                commit_index: 0,
                last_applied: 0,
                election_elapsed: 0,
                heartbeat_elapsed: 0,
                election_timeout_base: DEFAULT_ELECTION_TIMEOUT,
                election_timeout: DEFAULT_ELECTION_TIMEOUT,
                rng_state: initial_rng_state(id),
                log: Seq::empty(),
                outbox: Seq::empty(),
                committed: Seq::empty(),
            }).jittered(),
            node@.rng_state != 0,
            DEFAULT_ELECTION_TIMEOUT <= node@.election_timeout < 2 * DEFAULT_ELECTION_TIMEOUT,
    {
        Self::new(id, peers, DEFAULT_ELECTION_TIMEOUT)
    }

    fn next_rand(&mut self) -> (r: u32)
        ensures
            final(self)@ == (NodeView { rng_state: xorshift(old(self)@.rng_state), ..old(self)@ }),
            r == rand_output(xorshift(old(self)@.rng_state)),
    {
        let mut x = self.rng_state;
        x ^= x << 13;
        x ^= x >> 7;
        x ^= x << 17;
        self.rng_state = x;
        (x % u64::from(u32::MAX)) as u32
    }

    /// Picks a fresh randomized timeout in [base, 2*base) (exactly 0 for a base
    /// of 0). Called whenever the election clock is reset, so retried elections
    /// don't collide.
    fn jitter_timeout(&mut self)
        requires
            old(self)@.election_timeout_base <= MAX_ELECTION_TIMEOUT_BASE,
        ensures
            final(self)@ == old(self)@.jittered(),
    {
        let spread = self.election_timeout_base.max(1);
        let extra = self.next_rand() % spread;
        self.election_timeout = self.election_timeout_base + extra;
    }

    pub fn drain_outbox(&mut self) -> (drained: Vec<Envelope>)
        ensures
            envelopes_view(drained@) == old(self)@.outbox,
            final(self)@ == (NodeView { outbox: Seq::empty(), ..old(self)@ }),
    {
        let mut drained = Vec::new();
        std::mem::swap(&mut drained, &mut self.outbox);
        proof {
            assert(envelopes_view(self.outbox@) =~= Seq::<EnvelopeView>::empty());
        }
        drained
    }

    fn become_follower(&mut self, term: Term)
        requires
            old(self)@.election_timeout_base <= MAX_ELECTION_TIMEOUT_BASE,
        ensures
            final(self)@ == old(self)@.become_follower(term),
    {
        self.state.current_term = term;
        self.state.voted_for = None;
        self.state.role = Role::Follower;
        self.state.election_elapsed = 0;
        self.jitter_timeout();
    }

    fn send_append_entries_to(&mut self, peer: NodeId)
        ensures
            final(self)@ == if old(self)@.role is Leader {
                NodeView {
                    outbox: old(self)@.outbox.push(old(self)@.append_entries_to(peer)),
                    ..old(self)@
                }
            } else {
                old(self)@
            },
    {
        let next = if let Role::Leader { next_index, .. } = &self.state.role {
            match next_index.get(&peer) {
                Some(n) => *n,
                None => 1,
            }
        } else {
            return ;
        };
        let prev_log_index = next.saturating_sub(1);
        let prev_log_term = match self.log.term_at(prev_log_index) {
            Some(t) => t,
            None => 0,
        };
        let entries = owned_entries(self.log.entries_from(next));
        self.send(
            peer,
            Message::AppendEntries(
                AppendEntries {
                    term: self.state.current_term,
                    leader_id: self.state.id,
                    prev_log_index,
                    prev_log_term,
                    entries,
                    leader_commit: self.state.commit_index,
                },
            ),
        );
    }

    fn broadcast_append_entries(&mut self)
        ensures
            final(self)@ == old(self)@.broadcast_append_entries(),
    {
        let ghost pre = self@;
        let n = self.state.peers.len();
        let mut i: usize = 0;
        while i < n
            invariant
                0 <= i <= n,
                n == pre.peers.len(),
                self@ == (NodeView {
                    outbox: if pre.role is Leader {
                        pre.outbox + pre.peers.take(i as int).map_values(
                            |p: u64| pre.append_entries_to(p),
                        )
                    } else {
                        pre.outbox
                    },
                    ..pre
                }),
            decreases n - i,
        {
            let peer = self.state.peers[i];
            self.send_append_entries_to(peer);
            proof {
                assert(pre.peers.take(i + 1).map_values(|p: u64| pre.append_entries_to(p))
                    =~= pre.peers.take(i as int).map_values(|p: u64| pre.append_entries_to(p)).push(
                    pre.append_entries_to(peer),
                ));
            }
            i = i + 1;
        }
        proof {
            assert(pre.peers.take(n as int) =~= pre.peers);
        }
    }

    fn become_leader(&mut self)
        requires
            old(self)@.log.len() < u64::MAX,
        ensures
            final(self)@ == old(self)@.become_leader(),
    {
        let ghost pre = self@;
        let last_index = self.log.last_index();
        let first_unsent = last_index + 1;
        let mut next_index = HashMap::new();
        let mut match_index = HashMap::new();
        let n = self.state.peers.len();
        let mut i: usize = 0;
        while i < n
            invariant
                0 <= i <= n,
                n == pre.peers.len(),
                self@ == pre,
                last_index == pre.log.len(),
                last_index < u64::MAX,
                next_index@ == Map::new(
                    |p: u64| pre.peers.take(i as int).contains(p),
                    |p: u64| first_unsent,
                ),
                first_unsent == last_index + 1,
                match_index@ == Map::new(
                    |p: u64| pre.peers.take(i as int).contains(p),
                    |p: u64| 0u64,
                ),
            decreases n - i,
        {
            let peer = self.state.peers[i];
            next_index.insert(peer, first_unsent);
            match_index.insert(peer, 0);
            proof {
                assert(pre.peers.take(i + 1) =~= pre.peers.take(i as int).push(peer));
                assert forall|p: u64| pre.peers.take(i + 1).contains(p) <==> (pre.peers.take(
                    i as int,
                ).contains(p) || p == peer) by {
                    if p == peer {
                        assert(pre.peers.take(i + 1)[i as int] == peer);
                    }
                    if pre.peers.take(i as int).contains(p) {
                        let j = choose|j: int|
                            0 <= j < i && pre.peers.take(i as int)[j] == p;
                        assert(pre.peers.take(i + 1)[j] == p);
                    }
                }
                assert(next_index@ =~= Map::new(
                    |p: u64| pre.peers.take(i + 1).contains(p),
                    |p: u64| first_unsent,
                ));
                assert(match_index@ =~= Map::new(
                    |p: u64| pre.peers.take(i + 1).contains(p),
                    |p: u64| 0u64,
                ));
            }
            i = i + 1;
        }
        proof {
            assert(pre.peers.take(n as int) =~= pre.peers);
        }
        self.state.role = Role::Leader { next_index, match_index };
        self.state.heartbeat_elapsed = 0;
        self.broadcast_append_entries();
    }

    fn start_election(&mut self)
        requires
            old(self)@.log.len() < u64::MAX,
            old(self)@.peers.len() < usize::MAX,
            old(self)@.election_timeout_base <= MAX_ELECTION_TIMEOUT_BASE,
            old(self)@.current_term < u64::MAX,
        ensures
            final(self)@ == old(self)@.start_election(),
    {
        let ghost pre = self@;
        self.state.current_term += 1;
        self.state.voted_for = Some(self.state.id);
        self.state.election_elapsed = 0;
        let votes_received = vec![self.state.id];
        proof {
            assert(votes_received@ =~= seq![pre.id]);
        }
        self.state.role = Role::Candidate { votes_received };
        // Re-roll the timeout now, so if this election doesn't reach
        // quorum, the retry wait is a fresh random duration.
        self.jitter_timeout();

        if self.state.cluster_size() == 1 {
            self.become_leader();
            return ;
        }
        let ghost mid = self@;
        let request = RequestVote {
            term: self.state.current_term,
            candidate_id: self.state.id,
            last_log_index: self.log.last_index(),
            last_log_term: self.log.last_term(),
        };
        let n = self.state.peers.len();
        let mut i: usize = 0;
        while i < n
            invariant
                0 <= i <= n,
                n == mid.peers.len(),
                request == (RequestVote {
                    term: mid.current_term,
                    candidate_id: mid.id,
                    last_log_index: mid.log.len() as u64,
                    last_log_term: spec_last_term(mid.log),
                }),
                self@ == (NodeView {
                    outbox: mid.outbox + mid.peers.take(i as int).map_values(
                        |p: u64| mid.request_vote_to(p),
                    ),
                    ..mid
                }),
            decreases n - i,
        {
            let peer = self.state.peers[i];
            self.send(peer, Message::RequestVote(request.clone()));
            proof {
                assert(mid.peers.take(i + 1).map_values(|p: u64| mid.request_vote_to(p))
                    =~= mid.peers.take(i as int).map_values(|p: u64| mid.request_vote_to(p)).push(
                    mid.request_vote_to(peer),
                ));
            }
            i = i + 1;
        }
        proof {
            assert(mid.peers.take(n as int) =~= mid.peers);
        }
    }

    pub fn tick(&mut self)
        requires
            old(self).wf(),
            old(self)@.can_tick(),
        ensures
            final(self).wf(),
            final(self)@ == old(self)@.ticked(),
    {
        if self.state.role.is_leader() {
            self.state.heartbeat_elapsed += 1;
            if self.state.heartbeat_elapsed >= HEARTBEAT_INTERVAL {
                self.state.heartbeat_elapsed = 0;
                self.broadcast_append_entries();
            }
        } else {
            self.state.election_elapsed += 1;
            if self.state.election_elapsed >= self.election_timeout {
                self.start_election();
            }
        }
    }

    fn handle_request_vote(&mut self, from: NodeId, req: RequestVote)
        requires
            old(self)@.election_timeout_base <= MAX_ELECTION_TIMEOUT_BASE,
        ensures
            final(self)@ == old(self)@.handle_request_vote(from, req),
    {
        let mut grant = false;

        if req.term == self.state.current_term {
            let havent_voted = match self.state.voted_for {
                None => true,
                Some(x) => x == req.candidate_id,
            };
            let candidate_log_ok = req.last_log_term > self.log.last_term() || (req.last_log_term
                == self.log.last_term() && req.last_log_index >= self.log.last_index());

            if havent_voted && candidate_log_ok {
                grant = true;
                self.state.voted_for = Some(req.candidate_id);
                self.state.election_elapsed = 0;
                self.jitter_timeout();
            }
        }

        self.send(
            from,
            Message::RequestVoteReply(
                RequestVoteReply { term: self.state.current_term, vote_granted: grant },
            ),
        );
    }

    fn handle_request_vote_reply(&mut self, from: NodeId, reply: RequestVoteReply)
        requires
            old(self)@.log.len() < u64::MAX,
            old(self)@.peers.len() < usize::MAX,
        ensures
            final(self)@ == old(self)@.handle_request_vote_reply(from, reply),
    {
        if reply.term != self.state.current_term || !reply.vote_granted {
            return ;
        }
        let mut role = Role::Follower;
        std::mem::swap(&mut role, &mut self.state.role);
        match role {
            Role::Candidate { mut votes_received } => {
                if !contains_id(&votes_received, from) {
                    votes_received.push(from);
                }
                let should_become_leader = votes_received.len() >= self.state.quorum_size();
                self.state.role = Role::Candidate { votes_received };
                if should_become_leader {
                    self.become_leader();
                }
            },
            other => {
                self.state.role = other;
            },
        }
    }

    fn apply_committed(&mut self)
        ensures
            final(self)@ == old(self)@.applied(),
    {
        let ghost pre = self@;
        proof {
            assert(pre.committed + applied_range(pre.log, pre.last_applied as int, pre.last_applied as int)
                =~= pre.committed);
        }
        while self.state.last_applied < self.state.commit_index
            invariant
                self.log@ == pre.log,
                self@ == (NodeView {
                    committed: pre.committed + applied_range(
                        pre.log,
                        pre.last_applied as int,
                        self@.last_applied as int,
                    ),
                    last_applied: self@.last_applied,
                    ..pre
                }),
                pre.last_applied <= self@.last_applied,
                pre.last_applied < pre.commit_index ==> self@.last_applied <= pre.commit_index,
                pre.last_applied >= pre.commit_index ==> self@.last_applied == pre.last_applied,
            decreases self@.commit_index - self@.last_applied,
        {
            let ghost before = self@;
            self.state.last_applied += 1;
            let la = self.state.last_applied;
            let ghost old_committed = self.committed@;
            let ghost prefix = applied_range(pre.log, pre.last_applied as int, la - 1);
            let ghost expected = pre.committed + applied_range(pre.log, pre.last_applied as int, la as int);
            proof {
                assert(applied_range(pre.log, pre.last_applied as int, la as int) == if 1 <= la
                    <= pre.log.len() {
                    prefix.push((pre.log[la - 1].index, pre.log[la - 1].data))
                } else {
                    prefix
                });
            }
            if let Some(entry) = self.log.get(la) {
                let data = entry.data.clone();
                proof {
                    assert(data@ =~= entry.data@);
                }
                self.committed.push((entry.index, data));
                proof {
                    assert(committed_view(self.committed@) =~= committed_view(old_committed).push(
                        (entry.index, entry.data@),
                    ));
                    assert(committed_view(self.committed@) =~= expected);
                }
            } else {
                proof {
                    assert(committed_view(self.committed@) =~= expected);
                }
            }
        }
        proof {
            if pre.last_applied >= pre.commit_index {
                assert(self@ == pre);
            }
        }
    }

    fn handle_append_entries(&mut self, from: NodeId, req: AppendEntries)
        requires
            old(self).wf(),
            (req.term >= old(self)@.current_term && log_accepts(
                old(self)@.log,
                req.prev_log_index,
                req.prev_log_term,
            )) ==> req.prev_log_index + req.entries@.len() < u64::MAX,
        ensures
            final(self).wf(),
            final(self)@ == old(self)@.handle_append_entries(from, req@),
    {
        if req.term < self.state.current_term {
            self.send(
                from,
                Message::AppendEntriesReply(
                    AppendEntriesReply {
                        term: self.state.current_term,
                        success: false,
                        conflict_index: None,
                        match_index: 0,
                    },
                ),
            );
            return ;
        }
        self.state.election_elapsed = 0;
        self.jitter_timeout();
        match self.state.role {
            Role::Follower => {},
            _ => {
                self.state.role = Role::Follower;
            },
        }

        let log_ok = req.prev_log_index == 0 || match self.log.term_at(req.prev_log_index) {
            Some(t) => t == req.prev_log_term,
            None => false,
        };

        if !log_ok {
            let conflict = self.log.last_index().min(req.prev_log_index);
            self.send(
                from,
                Message::AppendEntriesReply(
                    AppendEntriesReply {
                        term: self.state.current_term,
                        success: false,
                        conflict_index: Some(conflict),
                        match_index: 0,
                    },
                ),
            );
            return ;
        }
        let ghost mid = self@;
        let ghost entries = req@.entries;
        let mut next_index = req.prev_log_index + 1;
        let n = req.entries.len();
        let mut i: usize = 0;
        proof {
            assert(entries.skip(0) =~= entries);
        }
        while i < n
            invariant
                0 <= i <= n,
                n == entries.len(),
                entries == entries_view(req.entries@),
                req.prev_log_index + n < u64::MAX,
                next_index == req.prev_log_index + 1 + i,
                self.log.wf(),
                self@ == (NodeView { log: self.log@, ..mid }),
                reconciled(self.log@, next_index as int, entries.skip(i as int)) == reconciled(
                    mid.log,
                    req.prev_log_index + 1,
                    entries,
                ),
                self.log@.len() <= mid.log.len() || self.log@.len() <= req.prev_log_index + i,
                mid.log.len() < u64::MAX,
            decreases n - i,
        {
            let entry = &req.entries[i];
            proof {
                assert(entries.skip(i as int).drop_first() =~= entries.skip(i + 1));
                assert(entries.skip(i as int)[0] == entry@);
            }
            let matches = match self.log.term_at(next_index) {
                Some(t) => t == entry.term,
                None => false,
            };
            if !matches {
                self.log.truncate_from(next_index);
                self.log.append(entry.term, entry.data.clone());
            }
            next_index += 1;
            i += 1;
        }
        proof {
            assert(entries.skip(n as int) =~= Seq::<EntryView>::empty());
        }
        // The highest index this follower now actually holds, matching
        // what it just applied -- this is what the leader must trust.
        let replicated_index = next_index - 1;

        if req.leader_commit > self.state.commit_index {
            self.state.commit_index = req.leader_commit.min(self.log.last_index());
            self.apply_committed();
        }
        self.send(
            from,
            Message::AppendEntriesReply(
                AppendEntriesReply {
                    term: self.state.current_term,
                    success: true,
                    conflict_index: None,
                    match_index: replicated_index,
                },
            ),
        );
    }

    fn handle_append_entries_reply(&mut self, from: NodeId, reply: AppendEntriesReply)
        requires
            old(self).wf(),
            (reply.term == old(self)@.current_term && old(self)@.role is Leader && reply.success) ==> {
                &&& reply.match_index < u64::MAX
                &&& old(self)@.quorum() <= updated_match(old(self)@.role->match_index, from, reply.match_index).dom().len() + 1
            },
        ensures
            final(self).wf(),
            final(self)@ == old(self)@.handle_append_entries_reply(from, reply),
    {
        if reply.term != self.state.current_term {
            return ;
        }
        let ghost pre = self@;
        let last_index = self.log.last_index();
        let quorum = self.state.quorum_size();
        let mut newly_committed: Option<u64> = None;

        let mut role = Role::Follower;
        std::mem::swap(&mut role, &mut self.state.role);
        match role {
            Role::Leader { mut next_index, mut match_index } => {
                if reply.success {
                    let current = match match_index.get(&from) {
                        Some(v) => *v,
                        None => 0,
                    };
                    // Never regress: an older, delayed reply must not undo
                    // progress recorded by a newer one.
                    if reply.match_index > current {
                        match_index.insert(from, reply.match_index);
                    }
                    next_index.insert(from, reply.match_index + 1);
                    let candidate_commit = quorum_commit_index(&match_index, last_index, quorum);
                    newly_committed = Some(candidate_commit);
                } else {
                    let retry_from = match reply.conflict_index {
                        Some(c) => c,
                        None => 1,
                    }.max(1);
                    next_index.insert(from, retry_from);
                }
                self.state.role = Role::Leader { next_index, match_index };
            },
            other => {
                self.state.role = other;
            },
        }

        if let Some(candidate_commit) = newly_committed {
            if candidate_commit > self.state.commit_index {
                self.state.commit_index = candidate_commit;
                self.apply_committed();
            }
        }
    }

    pub fn step(&mut self, from: NodeId, message: Message)
        requires
            old(self).wf(),
            old(self)@.can_step(from, message@),
        ensures
            final(self).wf(),
            final(self)@ == old(self)@.stepped(from, message@),
    {
        let msg_term = match &message {
            Message::RequestVote(m) => m.term,
            Message::RequestVoteReply(m) => m.term,
            Message::AppendEntries(m) => m.term,
            Message::AppendEntriesReply(m) => m.term,
        };

        if msg_term > self.state.current_term {
            self.become_follower(msg_term);
        }

        match message {
            Message::RequestVote(m) => self.handle_request_vote(from, m),
            Message::RequestVoteReply(m) => self.handle_request_vote_reply(from, m),
            Message::AppendEntries(m) => self.handle_append_entries(from, m),
            Message::AppendEntriesReply(m) => self.handle_append_entries_reply(from, m),
        }
    }

    pub fn propose(&mut self, data: Vec<u8>) -> (index: Option<LogIndex>)
        requires
            old(self).wf(),
            old(self)@.can_propose(),
        ensures
            final(self).wf(),
            match index {
                None => !(old(self)@.role is Leader) && final(self)@ == old(self)@,
                Some(i) => old(self)@.role is Leader && i == old(self)@.log.len() + 1
                    && final(self)@ == old(self)@.proposed(data@),
            },
    {
        if !self.state.role.is_leader() {
            return None;
        }
        let index = self.log.append(self.state.current_term, data);
        self.broadcast_append_entries();
        Some(index)
    }

    fn send(&mut self, to: NodeId, message: Message)
        ensures
            final(self)@ == old(self)@.sent(to, message@),
    {
        let ghost old_outbox = self.outbox@;
        self.outbox.push(Envelope { from: self.state.id, to, message });
        proof {
            assert(envelopes_view(self.outbox@) =~= envelopes_view(old_outbox).push(
                EnvelopeView { from: self.state.id, to, message: message@ },
            ));
        }
    }
}

/// Whether `id` occurs in `ids`.
fn contains_id(ids: &Vec<NodeId>, id: NodeId) -> (found: bool)
    ensures
        found == ids@.contains(id),
{
    let n = ids.len();
    let mut i: usize = 0;
    while i < n
        invariant
            0 <= i <= n,
            n == ids@.len(),
            forall|j: int| 0 <= j < i ==> ids@[j] != id,
        decreases n - i,
    {
        if ids[i] == id {
            return true;
        }
        i = i + 1;
    }
    false
}

/// Copies a slice of entries into an owned vector.
fn owned_entries(entries: &[LogEntry]) -> (owned: Vec<LogEntry>)
    ensures
        entries_view(owned@) == entries_view(entries@),
{
    let mut owned: Vec<LogEntry> = Vec::new();
    let n = entries.len();
    let mut i: usize = 0;
    while i < n
        invariant
            0 <= i <= n,
            n == entries@.len(),
            entries_view(owned@) == entries_view(entries@.take(i as int)),
        decreases n - i,
    {
        let e = entries[i].clone();
        owned.push(e);
        proof {
            assert(entries_view(entries@.take(i + 1)) =~= entries_view(entries@.take(i as int)).push(
                entries@[i as int]@,
            ));
            assert(entries_view(owned@) =~= entries_view(entries@.take(i + 1)));
        }
        i = i + 1;
    }
    proof {
        assert(entries@.take(n as int) =~= entries@);
    }
    owned
}

} // verus!
