//! The per-node Raft state: role, terms, votes and commit progress.
use vstd::prelude::*;

use std::collections::HashMap;

use crate::types::{NodeId, Term};

verus! {

#[derive(Debug, Clone, PartialEq, Eq)]
pub enum Role {
    Follower,
    Candidate {
        /// Votes received so far this term, including our own.
        votes_received: Vec<NodeId>,
    },
    Leader {
        /// Next log index to send to each peer.
        next_index: HashMap<NodeId, u64>,
        /// Highest log index known replicated on each peer.
        match_index: HashMap<NodeId, u64>,
    },
}

/// The mathematical value of a role.
pub enum RoleView {
    Follower,
    Candidate { votes_received: Seq<u64> },
    Leader { next_index: Map<u64, u64>, match_index: Map<u64, u64> },
}

impl View for Role {
    type V = RoleView;

    open spec fn view(&self) -> RoleView {
        match self {
            Role::Follower => RoleView::Follower,
            Role::Candidate { votes_received } => RoleView::Candidate {
                votes_received: votes_received@,
            },
            Role::Leader { next_index, match_index } => RoleView::Leader {
                next_index: next_index@,
                match_index: match_index@,
            },
        }
    }
}

impl Role {
    pub fn is_leader(&self) -> (leader: bool)
        ensures
            leader == (self@ is Leader),
    {
        match self {
            Role::Leader { .. } => true,
            _ => false,
        }
    }
}

/// Number of nodes in a cluster whose member has `n_peers` peers.
pub open spec fn spec_cluster_size(n_peers: nat) -> nat {
    n_peers + 1
}

/// Smallest number of nodes that forms a strict majority of the cluster.
pub open spec fn spec_quorum_size(n_peers: nat) -> nat {
    spec_cluster_size(n_peers) / 2 + 1
}

/// Persistent + volatile state a single Raft node tracks.
/// Deliberately holds no socket, no thread, no clock — those live
/// outside the core and drive it via `tick()` / `step()`.
#[derive(Debug)]
pub struct NodeState {
    pub id: NodeId,
    pub peers: Vec<NodeId>,
    // --- Persistent state (must survive restarts in a real deployment) ---
    pub current_term: Term,
    pub voted_for: Option<NodeId>,
    // --- Volatile state ---
    pub role: Role,
    pub commit_index: u64,
    pub last_applied: u64,
    /// Ticks elapsed since we last heard from a leader or granted a vote.
    /// Compared against a randomized election timeout owned by the driver.
    pub election_elapsed: u32,
    pub heartbeat_elapsed: u32,
}

impl NodeState {
    pub fn new(id: NodeId, peers: Vec<NodeId>) -> (state: Self)
        ensures
            state.id == id,
            state.peers@ == peers@,
            state.current_term == 0,
            state.voted_for is None,
            state.role@ is Follower,
            state.commit_index == 0,
            state.last_applied == 0,
            state.election_elapsed == 0,
            state.heartbeat_elapsed == 0,
    {
        NodeState {
            id,
            peers,
            current_term: 0,
            voted_for: None,
            role: Role::Follower,
            commit_index: 0,
            last_applied: 0,
            election_elapsed: 0,
            heartbeat_elapsed: 0,
        }
    }

    /// Cluster size including self — used for majority calculations.
    pub fn cluster_size(&self) -> (size: usize)
        requires
            self.peers@.len() < usize::MAX,
        ensures
            size == spec_cluster_size(self.peers@.len()),
    {
        self.peers.len() + 1
    }

    pub fn quorum_size(&self) -> (size: usize)
        requires
            self.peers@.len() < usize::MAX,
        ensures
            size == spec_quorum_size(self.peers@.len()),
    {
        self.cluster_size() / 2 + 1
    }
}

/// The quorum is the smallest strict majority: twice the quorum size exceeds
/// the cluster size, one less would not, and a quorum never exceeds the cluster.
pub proof fn lemma_quorum_is_smallest_majority(n_peers: nat)
    ensures
        2 * spec_quorum_size(n_peers) > spec_cluster_size(n_peers),
        2 * (spec_quorum_size(n_peers) - 1) <= spec_cluster_size(n_peers),
        spec_quorum_size(n_peers) <= spec_cluster_size(n_peers),
        spec_quorum_size(n_peers) >= 1,
{
}

/// Any two quorums drawn from the same cluster share at least one member.
pub proof fn lemma_quorums_intersect(cluster: Set<u64>, a: Set<u64>, b: Set<u64>, n_peers: nat)
    requires
        cluster.finite(),
        cluster.len() == spec_cluster_size(n_peers),
        a.subset_of(cluster),
        b.subset_of(cluster),
        a.len() >= spec_quorum_size(n_peers),
        b.len() >= spec_quorum_size(n_peers),
    ensures
        exists|x: u64| a.contains(x) && b.contains(x),
{
    vstd::set_lib::lemma_set_subset_finite(cluster, a);
    vstd::set_lib::lemma_set_subset_finite(cluster, b);
    if a.disjoint(b) {
        vstd::set_lib::lemma_set_disjoint_lens(a, b);
        vstd::set_lib::lemma_len_subset(a + b, cluster);
    }
    assert(!a.disjoint(b));
}

} // verus!
