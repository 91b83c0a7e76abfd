use quorum::log::{Log, LogEntry};
use quorum::message::{
    AppendEntries, AppendEntriesReply, Envelope, Message, RequestVote, RequestVoteReply,
};
use quorum::node::Node;
use quorum::sim::Simulator;
use quorum::state::{NodeState, Role};

fn entry(term: u64, index: u64, data: &[u8]) -> LogEntry {
    LogEntry { term, index, data: data.to_vec() }
}

/// Ticks a follower or candidate until its election timer fires; returns the tick count.
fn ticks_until_election(node: &mut Node) -> u32 {
    let start_term = node.state.current_term;
    let mut ticks = 0;
    while node.state.current_term == start_term {
        node.tick();
        ticks += 1;
        assert!(ticks < 10_000, "election never started");
    }
    ticks
}

/// Builds node 1 of a two-node cluster {1, 2} and makes it leader of term 1.
fn two_node_leader() -> Node {
    let mut node = Node::new(1, vec![2], 5);
    ticks_until_election(&mut node);
    assert_eq!(node.state.current_term, 1);
    node.drain_outbox();
    node.step(2, Message::RequestVoteReply(RequestVoteReply { term: 1, vote_granted: true }));
    assert!(node.state.role.is_leader());
    node.drain_outbox();
    node
}

#[test]
fn log_append_then_read_back() {
    let mut log = Log::new();
    assert_eq!(log.last_index(), 0);
    assert_eq!(log.last_term(), 0);
    assert_eq!(log.append(3, b"a".to_vec()), 1);
    assert_eq!(log.append(4, b"b".to_vec()), 2);
    assert_eq!(log.last_index(), 2);
    assert_eq!(log.last_term(), 4);
    assert_eq!(log.get(1), Some(&entry(3, 1, b"a")));
    assert_eq!(log.get(2), Some(&entry(4, 2, b"b")));
    assert_eq!(log.get(0), None);
    assert_eq!(log.get(3), None);
    assert_eq!(log.term_at(2), Some(4));
    assert_eq!(log.term_at(0), None);
    assert_eq!(log.term_at(9), None);
}

#[test]
fn log_truncate_and_suffix() {
    let mut log = Log::new();
    for t in 1..=4u64 {
        log.append(t, vec![t as u8]);
    }
    assert_eq!(log.entries_from(3), &[entry(3, 3, &[3]), entry(4, 4, &[4])][..]);
    assert!(log.entries_from(0).is_empty());
    assert!(log.entries_from(5).is_empty());
    log.truncate_from(10);
    assert_eq!(log.last_index(), 4);
    log.truncate_from(3);
    assert_eq!(log.last_index(), 2);
    assert_eq!(log.term_at(3), None);
    assert_eq!(log.term_at(2), Some(2));
    assert_eq!(log.append(9, vec![9]), 3);
    log.truncate_from(0);
    assert_eq!(log.last_index(), 0);
}

#[test]
fn quorum_sizes_are_strict_majorities() {
    for (peers, cluster, quorum) in [(0usize, 1usize, 1usize), (1, 2, 2), (2, 3, 2), (3, 4, 3), (4, 5, 3), (5, 6, 4), (6, 7, 4)] {
        let state = NodeState::new(1, (2..2 + peers as u64).collect());
        assert_eq!(state.cluster_size(), cluster);
        assert_eq!(state.quorum_size(), quorum);
        assert!(2 * state.quorum_size() > state.cluster_size());
    }
}

#[test]
fn new_node_starts_as_follower_in_term_zero() {
    let node = Node::with_default_timeout(7, vec![8, 9]);
    assert_eq!(node.state.id, 7);
    assert_eq!(node.state.peers, vec![8, 9]);
    assert_eq!(node.state.current_term, 0);
    assert_eq!(node.state.voted_for, None);
    assert_eq!(node.state.role, Role::Follower);
    assert_eq!(node.state.commit_index, 0);
    assert!(node.committed.is_empty());
}

#[test]
fn election_timeout_lies_between_base_and_twice_base() {
    for id in 1..=20u64 {
        let mut node = Node::new(id, vec![100], 10);
        let first = ticks_until_election(&mut node);
        assert!((10..20).contains(&first), "first timeout {} out of range", first);
        // Each retry re-rolls its timeout in the same range.
        let second = ticks_until_election(&mut node);
        assert!((10..20).contains(&second), "retry timeout {} out of range", second);
    }
    let mut instant = Node::new(1, vec![2], 0);
    assert_eq!(ticks_until_election(&mut instant), 1);
}

#[test]
fn default_timeout_is_ten_ticks_plus_jitter() {
    let mut node = Node::with_default_timeout(3, vec![4, 5]);
    let ticks = ticks_until_election(&mut node);
    assert!((10..20).contains(&ticks));
}

#[test]
fn single_node_cluster_elects_itself_at_first_timeout() {
    let mut node = Node::new(1, vec![], 3);
    ticks_until_election(&mut node);
    assert!(node.state.role.is_leader());
    assert_eq!(node.state.current_term, 1);
    assert_eq!(node.state.voted_for, Some(1));
    assert!(node.drain_outbox().is_empty());
}

#[test]
fn candidate_requests_votes_from_every_peer() {
    let mut node = Node::new(1, vec![2, 3], 4);
    ticks_until_election(&mut node);
    assert!(matches!(node.state.role, Role::Candidate { .. }));
    let out = node.drain_outbox();
    let expected: Vec<Envelope> = [2u64, 3]
        .iter()
        .map(|&to| Envelope {
            from: 1,
            to,
            message: Message::RequestVote(RequestVote {
                term: 1,
                candidate_id: 1,
                last_log_index: 0,
                last_log_term: 0,
            }),
        })
        .collect();
    assert_eq!(out, expected);
    assert!(node.drain_outbox().is_empty());
}

#[test]
fn quorum_of_votes_makes_leader() {
    let mut node = Node::new(1, vec![2, 3, 4, 5], 4);
    ticks_until_election(&mut node);
    node.drain_outbox();
    let granted = Message::RequestVoteReply(RequestVoteReply { term: 1, vote_granted: true });
    node.step(2, granted.clone());
    assert!(!node.state.role.is_leader());
    // The same voter counts once.
    node.step(2, granted.clone());
    assert!(!node.state.role.is_leader());
    // A refusal or a vote from another term does not count.
    node.step(3, Message::RequestVoteReply(RequestVoteReply { term: 1, vote_granted: false }));
    node.step(4, Message::RequestVoteReply(RequestVoteReply { term: 0, vote_granted: true }));
    assert!(!node.state.role.is_leader());
    node.step(3, granted);
    assert!(node.state.role.is_leader());
    assert_eq!(node.state.current_term, 1);
    // Becoming leader sends a heartbeat to each peer.
    let out = node.drain_outbox();
    assert_eq!(out.len(), 4);
    for (env, to) in out.iter().zip([2u64, 3, 4, 5]) {
        assert_eq!(
            env,
            &Envelope {
                from: 1,
                to,
                message: Message::AppendEntries(AppendEntries {
                    term: 1,
                    leader_id: 1,
                    prev_log_index: 0,
                    prev_log_term: 0,
                    entries: vec![],
                    leader_commit: 0,
                }),
            }
        );
    }
}

#[test]
fn higher_term_turns_node_into_follower_of_that_term() {
    let mut leader = two_node_leader();
    leader.step(2, Message::RequestVoteReply(RequestVoteReply { term: 9, vote_granted: false }));
    assert_eq!(leader.state.current_term, 9);
    assert_eq!(leader.state.role, Role::Follower);
    assert_eq!(leader.state.voted_for, None);
}

#[test]
fn votes_once_per_term() {
    let mut node = Node::new(1, vec![2, 3], 10);
    let ask = |candidate: u64| {
        Message::RequestVote(RequestVote { term: 1, candidate_id: candidate, last_log_index: 0, last_log_term: 0 })
    };
    node.step(2, ask(2));
    assert_eq!(node.state.voted_for, Some(2));
    node.step(3, ask(3));
    assert_eq!(node.state.voted_for, Some(2));
    // Asking again for the same candidate is granted again.
    node.step(2, ask(2));
    let out = node.drain_outbox();
    let granted: Vec<bool> = out
        .iter()
        .map(|e| match &e.message {
            Message::RequestVoteReply(r) => r.vote_granted,
            _ => panic!("unexpected message"),
        })
        .collect();
    assert_eq!(granted, vec![true, false, true]);
    assert_eq!(out[1].to, 3);
}

#[test]
fn vote_refused_to_candidate_with_older_log() {
    let mut node = Node::new(1, vec![2, 3], 10);
    // Give the node an entry of term 2.
    node.step(
        2,
        Message::AppendEntries(AppendEntries {
            term: 2,
            leader_id: 2,
            prev_log_index: 0,
            prev_log_term: 0,
            entries: vec![entry(2, 1, b"x")],
            leader_commit: 0,
        }),
    );
    node.drain_outbox();
    // A candidate in term 3 whose last entry is from term 1 is behind.
    node.step(3, Message::RequestVote(RequestVote { term: 3, candidate_id: 3, last_log_index: 5, last_log_term: 1 }));
    assert_eq!(node.state.voted_for, None);
    let out = node.drain_outbox();
    assert_eq!(out[0].message, Message::RequestVoteReply(RequestVoteReply { term: 3, vote_granted: false }));
    // Same last term and a log at least as long is up to date.
    node.step(3, Message::RequestVote(RequestVote { term: 3, candidate_id: 3, last_log_index: 1, last_log_term: 2 }));
    assert_eq!(node.state.voted_for, Some(3));
}

#[test]
fn stale_append_entries_refused() {
    let mut node = Node::new(1, vec![2], 10);
    node.step(2, Message::RequestVote(RequestVote { term: 4, candidate_id: 2, last_log_index: 0, last_log_term: 0 }));
    node.drain_outbox();
    node.step(
        2,
        Message::AppendEntries(AppendEntries {
            term: 3,
            leader_id: 2,
            prev_log_index: 0,
            prev_log_term: 0,
            entries: vec![entry(3, 1, b"old")],
            leader_commit: 1,
        }),
    );
    let out = node.drain_outbox();
    assert_eq!(
        out,
        vec![Envelope {
            from: 1,
            to: 2,
            message: Message::AppendEntriesReply(AppendEntriesReply {
                term: 4,
                success: false,
                conflict_index: None,
                match_index: 0,
            }),
        }]
    );
    assert!(node.committed.is_empty());
}

#[test]
fn missing_previous_entry_reports_conflict_index() {
    let mut node = Node::new(1, vec![2], 10);
    node.step(
        2,
        Message::AppendEntries(AppendEntries {
            term: 1,
            leader_id: 2,
            prev_log_index: 5,
            prev_log_term: 1,
            entries: vec![entry(1, 6, b"z")],
            leader_commit: 0,
        }),
    );
    let out = node.drain_outbox();
    assert_eq!(
        out[0].message,
        Message::AppendEntriesReply(AppendEntriesReply {
            term: 1,
            success: false,
            conflict_index: Some(0),
            match_index: 0,
        })
    );
}

#[test]
fn follower_replaces_conflicting_entries_and_commits() {
    let mut node = Node::new(1, vec![2], 10);
    let ae = |term: u64, prev: u64, prev_term: u64, entries: Vec<LogEntry>, commit: u64| {
        Message::AppendEntries(AppendEntries {
            term,
            leader_id: 2,
            prev_log_index: prev,
            prev_log_term: prev_term,
            entries,
            leader_commit: commit,
        })
    };
    node.step(2, ae(1, 0, 0, vec![entry(1, 1, b"a"), entry(1, 2, b"b"), entry(1, 3, b"c")], 1));
    assert_eq!(node.committed, vec![(1, b"a".to_vec())]);
    // A new leader in term 2 disagrees from index 2 on.
    node.step(2, ae(2, 1, 1, vec![entry(2, 2, b"B")], 2));
    assert_eq!(node.committed, vec![(1, b"a".to_vec()), (2, b"B".to_vec())]);
    let out = node.drain_outbox();
    assert_eq!(
        out.last().unwrap().message,
        Message::AppendEntriesReply(AppendEntriesReply {
            term: 2,
            success: true,
            conflict_index: None,
            match_index: 2,
        })
    );
    // Entry 3 was cut with the conflict: committing up to 3 only reaches 2.
    node.step(2, ae(2, 2, 2, vec![], 3));
    assert_eq!(node.state.commit_index, 2);
    // An entry already held with the same term is kept, not rewritten.
    node.step(2, ae(2, 1, 1, vec![entry(2, 2, b"ignored")], 2));
    node.step(2, ae(2, 2, 2, vec![entry(2, 3, b"C")], 3));
    assert_eq!(
        node.committed,
        vec![(1, b"a".to_vec()), (2, b"B".to_vec()), (3, b"C".to_vec())]
    );
}

#[test]
fn propose_only_on_leader() {
    let mut follower = Node::new(1, vec![2], 10);
    assert_eq!(follower.propose(b"x".to_vec()), None);
    assert!(follower.drain_outbox().is_empty());

    let mut leader = two_node_leader();
    assert_eq!(leader.propose(b"x".to_vec()), Some(1));
    assert_eq!(leader.propose(b"y".to_vec()), Some(2));
    let out = leader.drain_outbox();
    assert_eq!(out.len(), 2);
    assert_eq!(
        out[1].message,
        Message::AppendEntries(AppendEntries {
            term: 1,
            leader_id: 1,
            prev_log_index: 0,
            prev_log_term: 0,
            entries: vec![entry(1, 1, b"x"), entry(1, 2, b"y")],
            leader_commit: 0,
        })
    );
}

#[test]
fn leader_commits_only_what_a_quorum_holds() {
    let mut leader = Node::new(1, vec![2, 3, 4, 5], 4);
    ticks_until_election(&mut leader);
    for voter in [2u64, 3] {
        leader.step(voter, Message::RequestVoteReply(RequestVoteReply { term: 1, vote_granted: true }));
    }
    assert!(leader.state.role.is_leader());
    leader.propose(b"v".to_vec());
    let ok = |m: u64| Message::AppendEntriesReply(AppendEntriesReply { term: 1, success: true, conflict_index: None, match_index: m });
    leader.step(2, ok(1));
    assert_eq!(leader.state.commit_index, 0, "two of five is not a quorum");
    leader.step(2, ok(1));
    assert_eq!(leader.state.commit_index, 0, "the same peer counts once");
    leader.step(3, ok(1));
    assert_eq!(leader.state.commit_index, 1);
    assert_eq!(leader.committed, vec![(1, b"v".to_vec())]);
}

#[test]
fn stale_reply_never_regresses_match_index() {
    let mut leader = two_node_leader();
    leader.propose(b"p".to_vec());
    leader.propose(b"q".to_vec());
    let reply = |m: u64| Message::AppendEntriesReply(AppendEntriesReply { term: 1, success: true, conflict_index: None, match_index: m });
    leader.step(2, reply(2));
    assert_eq!(leader.state.commit_index, 2);
    // A delayed reply from before must not move the record back.
    leader.step(2, reply(0));
    match &leader.state.role {
        Role::Leader { match_index, next_index } => {
            assert_eq!(match_index[&2], 2);
            assert_eq!(next_index[&2], 1);
        }
        _ => panic!("should still lead"),
    }
    assert_eq!(leader.state.commit_index, 2);
    assert_eq!(leader.committed, vec![(1, b"p".to_vec()), (2, b"q".to_vec())]);
}

#[test]
fn failed_reply_moves_next_index_back() {
    let mut leader = two_node_leader();
    let fail = |c: Option<u64>| Message::AppendEntriesReply(AppendEntriesReply { term: 1, success: false, conflict_index: c, match_index: 0 });
    leader.step(2, fail(Some(0)));
    let next = |n: &Node| match &n.state.role {
        Role::Leader { next_index, .. } => next_index[&2],
        _ => panic!("should lead"),
    };
    assert_eq!(next(&leader), 1);
    leader.step(2, fail(Some(7)));
    assert_eq!(next(&leader), 7);
    leader.step(2, fail(None));
    assert_eq!(next(&leader), 1);
}

#[test]
fn leader_heartbeats_every_second_tick() {
    let mut leader = two_node_leader();
    leader.tick();
    assert!(leader.drain_outbox().is_empty());
    leader.tick();
    assert_eq!(leader.drain_outbox().len(), 1);
    leader.tick();
    leader.tick();
    assert_eq!(leader.drain_outbox().len(), 1);
}

#[test]
fn partitioned_pair_never_elects_and_heals() {
    let mut sim = Simulator::new(5);
    sim.add_node(Node::new(1, vec![2], 5));
    sim.add_node(Node::new(2, vec![1], 7));
    sim.conditions.partition(1, 2);
    sim.run_ticks(100);
    assert_eq!(sim.current_leader(), None, "neither side of a 2-node split has a quorum");
    sim.conditions.heal(1, 2);
    sim.run_ticks(100);
    assert!(sim.current_leader().is_some());
}

#[test]
fn adding_a_node_with_a_known_id_replaces_it() {
    let mut sim = Simulator::new(1);
    sim.add_node(Node::new(1, vec![2], 5));
    sim.add_node(Node::new(2, vec![1], 5));
    sim.add_node(Node::new(1, vec![2], 9));
    assert_eq!(sim.nodes.len(), 2);
    assert_eq!(sim.nodes[0].state.id, 1);
    assert_eq!(sim.nodes[1].state.id, 2);
}

#[test]
fn identical_runs_match_node_for_node() {
    let build = || {
        let mut sim = Simulator::new(2718);
        for id in 1..=5u64 {
            let peers: Vec<u64> = (1..=5u64).filter(|&p| p != id).collect();
            sim.add_node(Node::new(id, peers, 10));
        }
        sim.conditions.drop_rate_pct = 10;
        sim.conditions.max_delay = 4;
        sim
    };
    let mut a = build();
    let mut b = build();
    a.run_ticks(150);
    b.run_ticks(150);
    for (x, y) in a.nodes.iter().zip(b.nodes.iter()) {
        assert_eq!(x.state.current_term, y.state.current_term);
        assert_eq!(x.state.role, y.state.role);
        assert_eq!(x.state.voted_for, y.state.voted_for);
        assert_eq!(x.committed, y.committed);
    }
    assert_eq!(a.current_leader(), b.current_leader());
}

#[test]
fn committed_output_is_in_index_order_and_grows() {
    let mut sim = Simulator::new(31);
    for id in 1..=3u64 {
        let peers: Vec<u64> = (1..=3u64).filter(|&p| p != id).collect();
        sim.add_node(Node::new(id, peers, 10 + id as u32));
    }
    sim.run_ticks(40);
    let leader = sim.current_leader().expect("a leader");
    let mut before: Vec<Vec<(u64, Vec<u8>)>> = sim.nodes.iter().map(|n| n.committed.clone()).collect();
    for round in 0..5u8 {
        sim.nodes.iter_mut().find(|n| n.state.id == leader).unwrap().propose(vec![round]);
        sim.run_ticks(10);
        for (node, old) in sim.nodes.iter().zip(before.iter()) {
            assert!(node.committed.starts_with(old));
            assert!(node.committed.windows(2).all(|w| w[0].0 < w[1].0));
            assert!(node.committed.iter().all(|(i, _)| *i <= node.state.last_applied));
        }
        before = sim.nodes.iter().map(|n| n.committed.clone()).collect();
    }
    assert!(sim.nodes.iter().all(|n| n.committed.len() >= 5));
}

#[test]
fn terms_never_decrease_in_a_run() {
    let mut sim = Simulator::new(99);
    for id in 1..=5u64 {
        let peers: Vec<u64> = (1..=5u64).filter(|&p| p != id).collect();
        sim.add_node(Node::new(id, peers, 10));
    }
    sim.conditions.drop_rate_pct = 30;
    let mut terms: Vec<u64> = sim.nodes.iter().map(|n| n.state.current_term).collect();
    for _ in 0..200 {
        sim.step();
        let now: Vec<u64> = sim.nodes.iter().map(|n| n.state.current_term).collect();
        assert!(now.iter().zip(terms.iter()).all(|(n, t)| n >= t));
        terms = now;
    }
}

#[test]
fn no_two_leaders_share_a_term() {
    for seed in [1u64, 7, 42, 555, 2024] {
        let mut sim = Simulator::new(seed);
        for id in 1..=5u64 {
            let peers: Vec<u64> = (1..=5u64).filter(|&p| p != id).collect();
            sim.add_node(Node::new(id, peers, 10));
        }
        sim.conditions.drop_rate_pct = 15;
        sim.conditions.max_delay = 3;
        for tick in 0..300 {
            if tick == 100 {
                sim.conditions.partition(1, 2);
                sim.conditions.partition(1, 3);
            }
            if tick == 200 {
                sim.conditions.heal_all();
            }
            sim.step();
            let leaders: Vec<(u64, u64)> = sim
                .nodes
                .iter()
                .filter(|n| n.state.role.is_leader())
                .map(|n| (n.state.id, n.state.current_term))
                .collect();
            for (i, a) in leaders.iter().enumerate() {
                for b in &leaders[i + 1..] {
                    assert_ne!(a.1, b.1, "nodes {} and {} both lead term {}", a.0, b.0, a.1);
                }
            }
        }
    }
}

#[test]
fn duplicate_peer_entries_are_tolerated() {
    // Peers [2, 2]: a cluster size of 3 and a quorum of 2 from the list itself.
    let mut node = Node::new(1, vec![2, 2], 4);
    ticks_until_election(&mut node);
    assert_eq!(node.drain_outbox().len(), 2);
    node.step(2, Message::RequestVoteReply(RequestVoteReply { term: 1, vote_granted: true }));
    assert!(node.state.role.is_leader());
    assert_eq!(node.propose(b"d".to_vec()), Some(1));
    node.step(2, Message::AppendEntriesReply(AppendEntriesReply { term: 1, success: true, conflict_index: None, match_index: 1 }));
    assert_eq!(node.committed, vec![(1, b"d".to_vec())]);
}

#[test]
fn current_leader_needs_the_whole_cluster_in_its_term() {
    // Node 1 elects itself quickly; node 2 is still in term 0.
    let mut sim = Simulator::new(3);
    sim.add_node(Node::new(1, vec![], 2));
    sim.add_node(Node::new(2, vec![], 1000));
    sim.run_ticks(5);
    assert!(sim.nodes[0].state.role.is_leader());
    assert_ne!(sim.nodes[0].state.current_term, sim.nodes[1].state.current_term);
    assert_eq!(sim.current_leader(), None);

    // Alone, the leader is agreed on.
    sim.nodes.retain(|n| n.state.id == 1);
    assert_eq!(sim.current_leader(), Some(1));

    // Two leaders in the same term are no agreement either.
    let mut two = Simulator::new(4);
    two.add_node(Node::new(1, vec![], 3));
    two.add_node(Node::new(2, vec![], 3));
    two.run_ticks(10);
    assert!(two.nodes.iter().all(|n| n.state.role.is_leader()));
    assert_eq!(two.nodes[0].state.current_term, two.nodes[1].state.current_term);
    assert_eq!(two.current_leader(), None);

    assert_eq!(Simulator::new(5).current_leader(), None);
}

#[test]
fn repeated_peer_entries_build_a_node() {
    // Peers [2, 2, 2]: the list implies a quorum of 3, but only node 2 can vote.
    let mut node = Node::new(1, vec![2, 2, 2], 4);
    assert_eq!(node.state.quorum_size(), 3);
    ticks_until_election(&mut node);
    assert_eq!(node.drain_outbox().len(), 3);
    node.step(2, Message::RequestVoteReply(RequestVoteReply { term: 1, vote_granted: true }));
    assert!(!node.state.role.is_leader());
    assert!(matches!(node.state.role, Role::Candidate { .. }));
}

#[test]
fn can_step_rejects_only_out_of_range_handling() {
    let leader = two_node_leader();
    let reply = |m: u64| Message::AppendEntriesReply(AppendEntriesReply { term: 1, success: true, conflict_index: None, match_index: m });
    assert!(leader.can_step(2, &reply(0)));
    assert!(!leader.can_step(2, &reply(u64::MAX)));
    let huge = Message::AppendEntries(AppendEntries {
        term: 1,
        leader_id: 2,
        prev_log_index: u64::MAX - 1,
        prev_log_term: 0,
        entries: vec![entry(1, 1, b"x")],
        leader_commit: 0,
    });
    // The previous entry is missing, so the request is refused without overflow.
    assert!(leader.can_step(2, &huge));
    let follower = Node::new(3, vec![1], 10);
    assert!(follower.can_step(1, &huge));
}
