//! Deterministic network simulator for testing Raft under adversarial
//! conditions (drops, delays, partitions) with fully reproducible runs.
//! No threads, no sockets, no wall-clock time — everything advances
//! by explicit `tick()` calls driven by this harness.
use vstd::prelude::*;

use std::collections::VecDeque;

use crate::message::{envelopes_view, Envelope, EnvelopeView};
use crate::node::{lemma_xorshift_nonzero, xorshift, Node, NodeView};
use crate::types::NodeId;

verus! {

/// A message in flight, scheduled to arrive at a specific virtual tick.
pub struct InFlight {
    pub envelope: Envelope,
    pub deliver_at: u64,
}

impl View for InFlight {
    type V = (EnvelopeView, u64);

    open spec fn view(&self) -> (EnvelopeView, u64) {
        (self.envelope@, self.deliver_at)
    }
}

/// Minimal xorshift PRNG so the simulator has zero external dependencies
/// and every run is reproducible purely from an integer seed.
pub struct Rng(pub u64);

/// The generator state a seed starts from: the seed itself, or a fixed value for 0.
pub open spec fn rng_seeded(seed: u64) -> u64 {
    if seed == 0 {
        0xdeadbeef
    } else {
        seed
    }
}

impl Rng {
    fn new(seed: u64) -> (rng: Self)
        ensures
            rng.0 == rng_seeded(seed),
            rng.0 != 0,
    {
        Rng(
            if seed == 0 {
                0xdeadbeef
            } else {
                seed
            },
        )
    }

    fn next_u64(&mut self) -> (x: u64)
        ensures
            final(self).0 == xorshift(old(self).0),
            x == final(self).0,
            old(self).0 != 0 ==> x != 0,
    {
        let mut x = self.0;
        x ^= x << 13;
        x ^= x >> 7;
        x ^= x << 17;
        self.0 = x;
        proof {
            if old(self).0 != 0 {
                lemma_xorshift_nonzero(old(self).0);
            }
        }
        x
    }

    fn chance(&mut self, numerator: u64, denominator: u64) -> (hit: bool)
        requires
            denominator > 0,
        ensures
            final(self).0 == xorshift(old(self).0),
            hit == (xorshift(old(self).0) % denominator < numerator),
    {
        self.next_u64() % denominator < numerator
    }

    fn range(&mut self, lo: u64, hi: u64) -> (x: u64)
        requires
            lo <= hi,
            hi - lo < u64::MAX,
        ensures
            final(self).0 == xorshift(old(self).0),
            x == lo + xorshift(old(self).0) % ((hi - lo + 1) as u64),
            lo <= x <= hi,
    {
        lo + self.next_u64() % (hi - lo + 1)
    }
}

/// Controls what fraction of messages get dropped and how much jitter
/// is added to delivery, plus which node pairs are currently partitioned.
pub struct NetworkConditions {
    pub drop_rate_pct: u64,
    pub min_delay: u64,
    pub max_delay: u64,
    /// Each partitioned (sender, receiver) pair, listed once.
    pub partitioned_pairs: Vec<(NodeId, NodeId)>,
}

/// The mathematical value of the network conditions.
pub struct ConditionsView {
    pub drop_rate_pct: u64,
    pub min_delay: u64,
    pub max_delay: u64,
    /// The (sender, receiver) pairs whose messages are cut off.
    pub partitions: Set<(u64, u64)>,
}

impl View for NetworkConditions {
    type V = ConditionsView;

    open spec fn view(&self) -> ConditionsView {
        ConditionsView {
            drop_rate_pct: self.drop_rate_pct,
            min_delay: self.min_delay,
            max_delay: self.max_delay,
            partitions: self.partitioned_pairs@.to_set(),
        }
    }
}

impl NetworkConditions {
    /// No pair is listed twice.
    pub open spec fn wf(&self) -> bool {
        self.partitioned_pairs@.no_duplicates()
    }

    fn add_pair(&mut self, pair: (NodeId, NodeId))
        requires
            old(self).wf(),
        ensures
            final(self).wf(),
            final(self)@ == (ConditionsView { partitions: old(self)@.partitions.insert(pair), ..old(self)@ }),
    {
        if !self.is_partitioned(pair.0, pair.1) {
            let ghost before = self.partitioned_pairs@;
            self.partitioned_pairs.push(pair);
            proof {
                assert(self.partitioned_pairs@ =~= before.push(pair));
                before.lemma_push_to_set_commute(pair);
                assert forall|i: int, j: int|
                    0 <= i < self.partitioned_pairs@.len() && 0 <= j < self.partitioned_pairs@.len()
                        && i != j implies self.partitioned_pairs@[i]
                    != self.partitioned_pairs@[j] by {
                    if i == before.len() as int {
                        assert(before.contains(self.partitioned_pairs@[j]));
                    } else if j == before.len() as int {
                        assert(before.contains(self.partitioned_pairs@[i]));
                    }
                }
            }
        } else {
            proof {
                assert(self@.partitions =~= old(self)@.partitions.insert(pair));
            }
        }
    }

    fn remove_pair(&mut self, pair: (NodeId, NodeId))
        requires
            old(self).wf(),
        ensures
            final(self).wf(),
            final(self)@ == (ConditionsView { partitions: old(self)@.partitions.remove(pair), ..old(self)@ }),
    {
        let ghost before = self.partitioned_pairs@;
        let mut kept: Vec<(NodeId, NodeId)> = Vec::new();
        let n = self.partitioned_pairs.len();
        let mut i: usize = 0;
        while i < n
            invariant
                0 <= i <= n,
                n == before.len(),
                self.partitioned_pairs@ == before,
                kept@.no_duplicates(),
                kept@.to_set() == before.take(i as int).to_set().remove(pair),
                before.no_duplicates(),
            decreases n - i,
        {
            let p = self.partitioned_pairs[i];
            let ghost kept_before = kept@;
            proof {
                assert(before.take(i + 1) =~= before.take(i as int).push(p));
                before.take(i as int).lemma_push_to_set_commute(p);
            }
            if p.0 != pair.0 || p.1 != pair.1 {
                kept.push(p);
                proof {
                    kept_before.lemma_push_to_set_commute(p);
                    assert(!kept_before.contains(p)) by {
                        if kept_before.contains(p) {
                            assert(kept_before.to_set().contains(p));
                            assert(before.take(i as int).to_set().contains(p));
                            let j = choose|j: int| 0 <= j < i && before.take(i as int)[j] == p;
                            assert(before[j] == before[i as int]);
                        }
                    }
                    assert forall|a: int, b: int|
                        0 <= a < kept@.len() && 0 <= b < kept@.len() && a != b implies kept@[a]
                        != kept@[b] by {
                        if a == kept_before.len() as int {
                            assert(kept_before.contains(kept@[b]));
                        } else if b == kept_before.len() as int {
                            assert(kept_before.contains(kept@[a]));
                        }
                    }
                    assert(kept@.to_set() =~= before.take(i + 1).to_set().remove(pair));
                }
            } else {
                proof {
                    assert(kept@.to_set() =~= before.take(i + 1).to_set().remove(pair));
                }
            }
            i = i + 1;
        }
        proof {
            assert(before.take(n as int) =~= before);
        }
        self.partitioned_pairs = kept;
    }

    pub fn partition(&mut self, a: NodeId, b: NodeId)
        requires
            old(self).wf(),
        ensures
            final(self).wf(),
            final(self)@ == (ConditionsView { partitions: old(self)@.partitions.insert((a, b)).insert((b, a)), ..old(self)@ }),
    {
        self.add_pair((a, b));
        self.add_pair((b, a));
    }

    pub fn heal(&mut self, a: NodeId, b: NodeId)
        requires
            old(self).wf(),
        ensures
            final(self).wf(),
            final(self)@ == (ConditionsView { partitions: old(self)@.partitions.remove((a, b)).remove((b, a)), ..old(self)@ }),
    {
        self.remove_pair((a, b));
        self.remove_pair((b, a));
    }

    pub fn heal_all(&mut self)
        ensures
            final(self).wf(),
            final(self)@ == (ConditionsView { partitions: Set::<(u64, u64)>::empty(), ..old(self)@ }),
    {
        self.partitioned_pairs.clear();
        proof {
            assert(self.partitioned_pairs@.to_set() =~= Set::<(u64, u64)>::empty());
        }
    }

    fn is_partitioned(&self, a: NodeId, b: NodeId) -> (cut: bool)
        ensures
            cut == self@.partitions.contains((a, b)),
    {
        let n = self.partitioned_pairs.len();
        let mut i: usize = 0;
        while i < n
            invariant
                0 <= i <= n,
                n == self.partitioned_pairs@.len(),
                forall|j: int| 0 <= j < i ==> self.partitioned_pairs@[j] != (a, b),
            decreases n - i,
        {
            let p = self.partitioned_pairs[i];
            if p.0 == a && p.1 == b {
                proof {
                    assert(self.partitioned_pairs@.contains((a, b)));
                }
                return true;
            }
            i = i + 1;
        }
        false
    }
}

impl Default for NetworkConditions {
    fn default() -> (conditions: Self)
        ensures
            conditions.wf(),
            conditions@ == (ConditionsView {
                drop_rate_pct: 0,
                min_delay: 1,
                max_delay: 1,
                partitions: Set::<(u64, u64)>::empty(),
            }),
    {
        let conditions = NetworkConditions {
            drop_rate_pct: 0,
            min_delay: 1,
            max_delay: 1,
            partitioned_pairs: Vec::new(),
        };
        proof {
            assert(conditions.partitioned_pairs@.to_set() =~= Set::<(u64, u64)>::empty());
        }
        conditions
    }
}

/// The views of a sequence of nodes.
pub open spec fn nodes_view(nodes: Seq<Node>) -> Seq<NodeView> {
    nodes.map_values(|n: Node| n@)
}

/// The position of the first node with this id, if any.
pub open spec fn node_index(nodes: Seq<NodeView>, id: u64) -> Option<int> {
    if exists|i: int| 0 <= i < nodes.len() && nodes[i].id == id {
        Some(
            choose|i: int|
                0 <= i < nodes.len() && nodes[i].id == id && forall|j: int|
                    0 <= j < i ==> nodes[j].id != id,
        )
    } else {
        None
    }
}

/// Node `l` leads and the cluster agrees on it: every node is in `l`'s term and
/// no other node leads.
pub open spec fn is_agreed_leader(nodes: Seq<NodeView>, l: int) -> bool {
    &&& 0 <= l < nodes.len()
    &&& nodes[l].role is Leader
    &&& forall|j: int|
        #![trigger nodes[j]]
        0 <= j < nodes.len() ==> nodes[j].current_term == nodes[l].current_term && (j != l ==> !(
        nodes[j].role is Leader))
}

/// The position of the leader the whole cluster agrees on, if there is one.
pub open spec fn agreed_leader(nodes: Seq<NodeView>) -> Option<int> {
    if exists|l: int| is_agreed_leader(nodes, l) {
        Some(choose|l: int| is_agreed_leader(nodes, l))
    } else {
        None
    }
}

/// Adding a node replaces the node with the same id, or joins the cluster at the end.
pub open spec fn with_node(nodes: Seq<NodeView>, node: NodeView) -> Seq<NodeView> {
    match node_index(nodes, node.id) {
        Some(i) => nodes.update(i, node),
        None => nodes.push(node),
    }
}

/// Delivering one envelope: the first node with the addressee's id steps on it,
/// unless handling it would leave the integer ranges; with no such node it is lost.
pub open spec fn delivered(nodes: Seq<NodeView>, e: EnvelopeView) -> Seq<NodeView> {
    match node_index(nodes, e.to) {
        Some(i) => if nodes[i].can_step(e.from, e.message) {
            nodes.update(i, nodes[i].stepped(e.from, e.message))
        } else {
            nodes
        },
        None => nodes,
    }
}

/// Walks the queue in order: messages due by `clock` are delivered, the others are
/// kept, in order, after `kept`.
pub open spec fn deliver_due(
    nodes: Seq<NodeView>,
    kept: Seq<(EnvelopeView, u64)>,
    pending: Seq<(EnvelopeView, u64)>,
    clock: u64,
) -> (Seq<NodeView>, Seq<(EnvelopeView, u64)>)
    decreases pending.len(),
{
    if pending.len() == 0 {
        (nodes, kept)
    } else {
        let m = pending[0];
        if m.1 <= clock {
            deliver_due(delivered(nodes, m.0), kept, pending.drop_first(), clock)
        } else {
            deliver_due(nodes, kept.push(m), pending.drop_first(), clock)
        }
    }
}

/// Every node ticked once.
pub open spec fn all_ticked(nodes: Seq<NodeView>) -> Seq<NodeView> {
    nodes.map_values(|n: NodeView| n.ticked())
}

/// Every node's queued messages, in node order.
pub open spec fn all_outboxes(nodes: Seq<NodeView>) -> Seq<EnvelopeView> {
    nodes.map_values(|n: NodeView| n.outbox).flatten()
}

/// Every node with its outbox emptied.
pub open spec fn all_drained(nodes: Seq<NodeView>) -> Seq<NodeView> {
    nodes.map_values(|n: NodeView| NodeView { outbox: Seq::empty(), ..n })
}

/// The mathematical value of a simulator.
pub struct SimView {
    pub nodes: Seq<NodeView>,
    pub conditions: ConditionsView,
    pub rng: u64,
    pub clock: u64,
    pub in_flight: Seq<(EnvelopeView, u64)>,
}

impl SimView {
    /// Scheduling one envelope: partitioned pairs lose it; otherwise, with a nonzero drop
    /// rate, one draw decides whether it is dropped; a kept envelope draws its delay in
    /// [min_delay, max_delay] and joins the end of the queue.
    pub open spec fn enqueued(self, e: EnvelopeView) -> SimView {
        let c = self.conditions;
        if c.partitions.contains((e.from, e.to)) {
            self
        } else if c.drop_rate_pct > 0 && xorshift(self.rng) % 100 < c.drop_rate_pct {
            SimView { rng: xorshift(self.rng), ..self }
        } else {
            let r = if c.drop_rate_pct > 0 {
                xorshift(self.rng)
            } else {
                self.rng
            };
            let r2 = xorshift(r);
            let delay = c.min_delay + r2 % ((c.max_delay - c.min_delay + 1) as u64);
            SimView {
                rng: r2,
                in_flight: self.in_flight.push((e, (self.clock + delay) as u64)),
                ..self
            }
        }
    }

    /// Scheduling envelopes in order.
    pub open spec fn enqueued_all(self, es: Seq<EnvelopeView>) -> SimView
        decreases es.len(),
    {
        if es.len() == 0 {
            self
        } else {
            self.enqueued(es[0]).enqueued_all(es.drop_first())
        }
    }

    /// One virtual tick: the clock advances, every node ticks, every outbox is
    /// drained into the network in node order, then everything due is delivered.
    pub open spec fn stepped(self) -> SimView {
        let clock = (self.clock + 1) as u64;
        let ticked = all_ticked(self.nodes);
        let s = SimView { clock, nodes: all_drained(ticked), ..self }.enqueued_all(
            all_outboxes(ticked),
        );
        let (nodes, kept) = deliver_due(s.nodes, Seq::empty(), s.in_flight, clock);
        SimView { nodes, in_flight: kept, ..s }
    }

    /// Whether a tick stays within the integer ranges: the clock and every scheduled
    /// delivery time fit, the delay range is well formed, and no node's tick overflows.
    pub open spec fn can_step(self) -> bool {
        &&& self.clock < u64::MAX
        &&& self.conditions.min_delay <= self.conditions.max_delay
        &&& self.conditions.max_delay - self.conditions.min_delay < u64::MAX
        &&& self.clock + 1 + self.conditions.max_delay <= u64::MAX
        &&& forall|i: int| 0 <= i < self.nodes.len() ==> (#[trigger] self.nodes[i]).can_tick()
    }

    /// `n` ticks in a row.
    pub open spec fn run(self, n: nat) -> SimView
        decreases n,
    {
        if n == 0 {
            self
        } else {
            self.stepped().run((n - 1) as nat)
        }
    }

    /// Whether `n` ticks in a row stay within the integer ranges.
    pub open spec fn can_run(self, n: nat) -> bool
        decreases n,
    {
        n == 0 || (self.can_step() && self.stepped().can_run((n - 1) as nat))
    }
}


/// Runs are reproducible: two simulators in the same state (same seed, nodes,
/// conditions, clock and queue) are in the same state after the same number of ticks.
pub proof fn lemma_runs_are_reproducible(a: SimView, b: SimView, n: nat)
    requires
        a == b,
    ensures
        a.run(n) == b.run(n),
        a.can_run(n) == b.can_run(n),
{
}

/// Partitioning cuts both directions, and healing the same pair restores the
/// conditions exactly when the pair was not cut before.
pub proof fn lemma_heal_undoes_partition(p: Set<(u64, u64)>, a: u64, b: u64)
    requires
        !p.contains((a, b)),
        !p.contains((b, a)),
    ensures
        p.insert((a, b)).insert((b, a)).contains((a, b)),
        p.insert((a, b)).insert((b, a)).contains((b, a)),
        p.insert((a, b)).insert((b, a)).remove((a, b)).remove((b, a)) == p,
{
    assert(p.insert((a, b)).insert((b, a)).remove((a, b)).remove((b, a)) =~= p);
}

/// A message between a partitioned pair is never scheduled, and consumes no randomness.
pub proof fn lemma_partitioned_never_scheduled(s: SimView, e: EnvelopeView)
    requires
        s.conditions.partitions.contains((e.from, e.to)),
    ensures
        s.enqueued(e) == s,
{
}

/// Scheduling a message either drops it or queues it at the end, due between
/// `min_delay` and `max_delay` ticks from now; with no loss configured and no
/// partition, it is always queued.
pub proof fn lemma_scheduled_within_delay(s: SimView, e: EnvelopeView)
    requires
        s.conditions.min_delay <= s.conditions.max_delay,
        s.conditions.max_delay - s.conditions.min_delay < u64::MAX,
        s.clock + s.conditions.max_delay <= u64::MAX,
    ensures
        s.enqueued(e).in_flight == s.in_flight || ({
            let t = s.enqueued(e).in_flight.last().1;
            &&& s.enqueued(e).in_flight == s.in_flight.push((e, t))
            &&& s.clock + s.conditions.min_delay <= t <= s.clock + s.conditions.max_delay
        }),
        (s.conditions.drop_rate_pct == 0 && !s.conditions.partitions.contains((e.from, e.to)))
            ==> s.enqueued(e).in_flight.len() == s.in_flight.len() + 1,
{
    let c = s.conditions;
    if !c.partitions.contains((e.from, e.to)) && !(c.drop_rate_pct > 0 && xorshift(s.rng) % 100
        < c.drop_rate_pct) {
        let r = if c.drop_rate_pct > 0 {
            xorshift(s.rng)
        } else {
            s.rng
        };
        let r2 = xorshift(r);
        let span = (c.max_delay - c.min_delay + 1) as u64;
        assert(r2 % span < span);
    }
}

/// After delivery, every message still queued is due later than now, and the
/// messages kept earlier stay in front, in order.
pub proof fn lemma_delivery_keeps_only_future(
    nodes: Seq<NodeView>,
    kept: Seq<(EnvelopeView, u64)>,
    pending: Seq<(EnvelopeView, u64)>,
    clock: u64,
)
    ensures
        deliver_due(nodes, kept, pending, clock).1.len() >= kept.len(),
        deliver_due(nodes, kept, pending, clock).1.take(kept.len() as int) == kept,
        forall|i: int|
            kept.len() <= i < deliver_due(nodes, kept, pending, clock).1.len() ==> #[trigger] deliver_due(
                nodes,
                kept,
                pending,
                clock,
            ).1[i].1 > clock,
    decreases pending.len(),
{
    if pending.len() == 0 {
        assert(kept.take(kept.len() as int) =~= kept);
    } else {
        let m = pending[0];
        if m.1 <= clock {
            lemma_delivery_keeps_only_future(delivered(nodes, m.0), kept, pending.drop_first(), clock);
        } else {
            let k2 = kept.push(m);
            lemma_delivery_keeps_only_future(nodes, k2, pending.drop_first(), clock);
            let r = deliver_due(nodes, k2, pending.drop_first(), clock).1;
            assert(r.take(kept.len() as int) =~= kept) by {
                assert forall|i: int| 0 <= i < kept.len() implies r[i] == kept[i] by {
                    assert(r.take(k2.len() as int)[i] == k2[i]);
                }
            }
            assert forall|i: int| kept.len() <= i < r.len() implies #[trigger] r[i].1 > clock by {
                if i == kept.len() {
                    assert(r.take(k2.len() as int)[i] == k2[i]);
                }
            }
        }
    }
}

pub struct Simulator {
    pub nodes: Vec<Node>,
    pub conditions: NetworkConditions,
    pub rng: Rng,
    pub clock: u64,
    pub in_flight: VecDeque<InFlight>,
}

impl View for Simulator {
    type V = SimView;

    open spec fn view(&self) -> SimView {
        SimView {
            nodes: nodes_view(self.nodes@),
            conditions: self.conditions@,
            rng: self.rng.0,
            clock: self.clock,
            in_flight: self.in_flight@.map_values(|f: InFlight| f@),
        }
    }
}

impl Simulator {
    /// Every node is well formed and no partitioned pair is listed twice.
    pub open spec fn wf(&self) -> bool {
        &&& self.conditions.wf()
        &&& forall|i: int| 0 <= i < self.nodes@.len() ==> (#[trigger] self.nodes@[i]).wf()
    }

    pub fn new(seed: u64) -> (sim: Self)
        ensures
            sim.wf(),
            sim@ == (SimView {
                nodes: Seq::empty(),
                conditions: ConditionsView {
                    drop_rate_pct: 0,
                    min_delay: 1,
                    max_delay: 1,
                    partitions: Set::empty(),
                },
                rng: rng_seeded(seed),
                clock: 0,
                in_flight: Seq::empty(),
            }),
    {
        let sim = Simulator {
            nodes: Vec::new(),
            conditions: NetworkConditions::default(),
            rng: Rng::new(seed),
            clock: 0,
            in_flight: VecDeque::new(),
        };
        proof {
            assert(nodes_view(sim.nodes@) =~= Seq::<NodeView>::empty());
            assert(sim.in_flight@.map_values(|f: InFlight| f@) =~= Seq::<(EnvelopeView, u64)>::empty());
        }
        sim
    }

    /// The position of the first node with this id.
    fn find_node(&self, id: NodeId) -> (index: Option<usize>)
        ensures
            match index {
                Some(i) => node_index(self@.nodes, id) == Some(i as int) && i < self@.nodes.len()
                    && self@.nodes[i as int].id == id,
                None => node_index(self@.nodes, id) is None,
            },
    {
        let ghost nodes = self@.nodes;
        let n = self.nodes.len();
        let mut i: usize = 0;
        while i < n
            invariant
                0 <= i <= n,
                n == nodes.len(),
                nodes == self@.nodes,
                forall|j: int| 0 <= j < i ==> nodes[j].id != id,
            decreases n - i,
        {
            if self.nodes[i].state.id == id {
                proof {
                    assert(nodes[i as int].id == id);
                    let k = choose|k: int|
                        0 <= k < nodes.len() && nodes[k].id == id && forall|j: int|
                            0 <= j < k ==> nodes[j].id != id;
                    assert(k == i as int) by {
                        if k < i {
                        } else if k > i {
                            assert(nodes[i as int].id != id);
                        }
                    }
                }
                return Some(i);
            }
            i = i + 1;
        }
        None
    }


    /// Ticks every node once, in order.
    fn tick_all(&mut self)
        requires
            old(self).wf(),
            forall|i: int| 0 <= i < old(self)@.nodes.len() ==> (#[trigger] old(self)@.nodes[i]).can_tick(),
        ensures
            final(self).wf(),
            final(self)@ == (SimView { nodes: all_ticked(old(self)@.nodes), ..old(self)@ }),
    {
        let ghost pre = self@;
        let n = self.nodes.len();
        let mut i: usize = 0;
        while i < n
            invariant
                0 <= i <= n,
                n == pre.nodes.len(),
                self.wf(),
                self@ == (SimView { nodes: self@.nodes, ..pre }),
                self@.nodes.len() == n,
                forall|j: int| 0 <= j < i ==> #[trigger] self@.nodes[j] == pre.nodes[j].ticked(),
                forall|j: int| i <= j < n ==> #[trigger] self@.nodes[j] == pre.nodes[j],
                forall|j: int| 0 <= j < n ==> (#[trigger] pre.nodes[j]).can_tick(),
            decreases n - i,
        {
            let ghost before = self.nodes@;
            proof {
                assert(self@.nodes[i as int] == before[i as int]@);
                assert(self@.nodes[i as int] == pre.nodes[i as int]);
                assert(pre.nodes[i as int].can_tick());
                assert(before[i as int].wf());
            }
            self.nodes[i].tick();
            proof {
                assert forall|j: int| 0 <= j < n && j != i implies #[trigger] self.nodes@[j] == before[j] by {}
                assert forall|j: int| 0 <= j < n implies #[trigger] self@.nodes[j] == self.nodes@[j]@ by {}
                assert forall|j: int| 0 <= j < n implies (#[trigger] self.nodes@[j]).wf() by {
                    if j != i {
                        assert(self.nodes@[j] == before[j]);
                        assert(before[j].wf());
                    }
                }
                assert forall|j: int| i + 1 <= j < n implies #[trigger] self@.nodes[j] == pre.nodes[j] by {
                    assert(self.nodes@[j] == before[j]);
                    assert(nodes_view(before)[j] == pre.nodes[j]);
                }
                assert forall|j: int| 0 <= j < i + 1 implies #[trigger] self@.nodes[j] == pre.nodes[j].ticked() by {
                    if j != i {
                        assert(self.nodes@[j] == before[j]);
                        assert(nodes_view(before)[j] == pre.nodes[j].ticked());
                    }
                }
            }
            i = i + 1;
        }
        proof {
            assert(self@.nodes =~= all_ticked(pre.nodes));
        }
    }


    /// Collects every node's queued messages, in node order, emptying the outboxes.
    fn drain_all(&mut self) -> (fresh: Vec<Envelope>)
        requires
            old(self).wf(),
        ensures
            final(self).wf(),
            envelopes_view(fresh@) == all_outboxes(old(self)@.nodes),
            final(self)@ == (SimView { nodes: all_drained(old(self)@.nodes), ..old(self)@ }),
    {
        let ghost pre = self@;
        let mut fresh: Vec<Envelope> = Vec::new();
        let n = self.nodes.len();
        let mut i: usize = 0;
        proof {
            assert(pre.nodes.map_values(|n: NodeView| n.outbox).take(0).flatten() =~= Seq::<EnvelopeView>::empty());
            assert(envelopes_view(fresh@) =~= Seq::<EnvelopeView>::empty());
        }
        while i < n
            invariant
                0 <= i <= n,
                n == pre.nodes.len(),
                self.wf(),
                self@ == (SimView { nodes: self@.nodes, ..pre }),
                self@.nodes.len() == n,
                forall|j: int| 0 <= j < i ==> #[trigger] self@.nodes[j] == (NodeView { outbox: Seq::empty(), ..pre.nodes[j] }),
                forall|j: int| i <= j < n ==> #[trigger] self@.nodes[j] == pre.nodes[j],
                envelopes_view(fresh@) == pre.nodes.map_values(|n: NodeView| n.outbox).take(i as int).flatten(),
            decreases n - i,
        {
            let ghost before = self.nodes@;
            let ghost fresh_before = fresh@;
            proof {
                assert(self@.nodes[i as int] == before[i as int]@);
            }
            let mut out = self.nodes[i].drain_outbox();
            fresh.append(&mut out);
            proof {
                let outs = pre.nodes.map_values(|n: NodeView| n.outbox);
                assert(outs.take(i + 1) =~= outs.take(i as int).push(outs[i as int]));
                outs.take(i as int).lemma_flatten_push(outs[i as int]);
                assert(envelopes_view(fresh@) =~= envelopes_view(fresh_before) + pre.nodes[i as int].outbox);
                assert forall|j: int| 0 <= j < n && j != i implies #[trigger] self.nodes@[j] == before[j] by {}
                assert forall|j: int| 0 <= j < n implies #[trigger] self@.nodes[j] == self.nodes@[j]@ by {}
                assert forall|j: int| 0 <= j < n implies (#[trigger] self.nodes@[j]).wf() by {
                    if j != i {
                        assert(self.nodes@[j] == before[j]);
                        assert(before[j].wf());
                    } else {
                        assert(before[j].wf());
                    }
                }
                assert forall|j: int| i + 1 <= j < n implies #[trigger] self@.nodes[j] == pre.nodes[j] by {
                    assert(self.nodes@[j] == before[j]);
                    assert(nodes_view(before)[j] == pre.nodes[j]);
                }
                assert forall|j: int| 0 <= j < i + 1 implies #[trigger] self@.nodes[j] == (NodeView { outbox: Seq::empty(), ..pre.nodes[j] }) by {
                    if j != i {
                        assert(self.nodes@[j] == before[j]);
                        assert(nodes_view(before)[j] == (NodeView { outbox: Seq::empty(), ..pre.nodes[j] }));
                    }
                }
            }
            i = i + 1;
        }
        proof {
            assert(pre.nodes.map_values(|n: NodeView| n.outbox).take(n as int) =~= pre.nodes.map_values(|n: NodeView| n.outbox));
            assert(self@.nodes =~= all_drained(pre.nodes));
        }
        fresh
    }

    fn enqueue(&mut self, envelope: Envelope)
        requires
            old(self)@.conditions.min_delay <= old(self)@.conditions.max_delay,
            old(self)@.conditions.max_delay - old(self)@.conditions.min_delay < u64::MAX,
            old(self)@.clock + old(self)@.conditions.max_delay <= u64::MAX,
        ensures
            final(self)@ == old(self)@.enqueued(envelope@),
            final(self).nodes@ == old(self).nodes@,
            final(self).conditions.wf() == old(self).conditions.wf(),
    {
        if self.conditions.is_partitioned(envelope.from, envelope.to) {
            return ;
        }
        if self.conditions.drop_rate_pct > 0 && self.rng.chance(self.conditions.drop_rate_pct, 100) {
            return ;
        }
        let delay = self.rng.range(self.conditions.min_delay, self.conditions.max_delay);
        let ghost before = self.in_flight@;
        let deliver_at = self.clock + delay;
        self.in_flight.push_back(InFlight { envelope, deliver_at });
        proof {
            assert(self.in_flight@.map_values(|f: InFlight| f@) =~= before.map_values(|f: InFlight| f@).push(
                (envelope@, deliver_at),
            ));
        }
    }

    /// Schedules fresh envelopes in order.
    fn enqueue_all(&mut self, fresh: Vec<Envelope>)
        requires
            old(self)@.conditions.min_delay <= old(self)@.conditions.max_delay,
            old(self)@.conditions.max_delay - old(self)@.conditions.min_delay < u64::MAX,
            old(self)@.clock + old(self)@.conditions.max_delay <= u64::MAX,
        ensures
            final(self)@ == old(self)@.enqueued_all(envelopes_view(fresh@)),
            final(self)@.clock == old(self)@.clock,
            final(self)@.conditions == old(self)@.conditions,
            final(self).nodes@ == old(self).nodes@,
            final(self).conditions.wf() == old(self).conditions.wf(),
    {
        let ghost target = self@.enqueued_all(envelopes_view(fresh@));
        let ghost all = fresh@;
        let ghost es = envelopes_view(fresh@);
        let ghost pre_nodes = self.nodes@;
        let ghost pre_wf = self.conditions.wf();
        let ghost pre = self@;
        proof {
            assert(es.skip(0) =~= es);
        }
        for envelope in it: fresh
            invariant
                it.seq() == all,
                es == envelopes_view(all),
                self@.enqueued_all(es.skip(it.index() as int)) == target,
                self.nodes@ == pre_nodes,
                self.conditions.wf() == pre_wf,
                self@.conditions == pre.conditions,
                self@.clock == pre.clock,
                pre.conditions.min_delay <= pre.conditions.max_delay,
                pre.conditions.max_delay - pre.conditions.min_delay < u64::MAX,
                pre.clock + pre.conditions.max_delay <= u64::MAX,
        {
            proof {
                let k = it.index() as int;
                assert(es.skip(k) =~= seq![envelope@] + es.skip(k + 1)) by {
                    assert(all[k] == envelope);
                }
                assert(es.skip(k)[0] == envelope@);
                assert(es.skip(k).drop_first() =~= es.skip(k + 1));
            }
            self.enqueue(envelope);
        }
        proof {
            assert(es.skip(es.len() as int) =~= Seq::<EnvelopeView>::empty());
        }
    }


    /// Delivers every message due by now, in queue order, and keeps the rest queued.
    fn deliver_due(&mut self)
        requires
            old(self).wf(),
        ensures
            final(self).wf(),
            final(self)@ == ({
                let (nodes, kept) = deliver_due(
                    old(self)@.nodes,
                    Seq::empty(),
                    old(self)@.in_flight,
                    old(self)@.clock,
                );
                SimView { nodes, in_flight: kept, ..old(self)@ }
            }),
    {
        let ghost pre = self@;
        let ghost target = deliver_due(pre.nodes, Seq::empty(), pre.in_flight, pre.clock);
        let mut remaining: VecDeque<InFlight> = VecDeque::new();
        proof {
            assert(remaining@.map_values(|f: InFlight| f@) =~= Seq::<(EnvelopeView, u64)>::empty());
        }
        while self.in_flight.len() > 0
            invariant
                self.wf(),
                self@.conditions == pre.conditions,
                self@.rng == pre.rng,
                self@.clock == pre.clock,
                deliver_due(
                    self@.nodes,
                    remaining@.map_values(|f: InFlight| f@),
                    self@.in_flight,
                    pre.clock,
                ) == target,
            decreases self.in_flight@.len(),
        {
            let ghost queue = self@.in_flight;
            let ghost nodes_before = self@.nodes;
            let ghost kept_before = remaining@.map_values(|f: InFlight| f@);
            let msg = self.in_flight.pop_front().unwrap();
            proof {
                assert(queue[0] == msg@);
                assert(self@.in_flight =~= queue.drop_first());
            }
            if msg.deliver_at <= self.clock {
                let InFlight { envelope, deliver_at } = msg;
                let Envelope { from, to, message } = envelope;
                match self.find_node(to) {
                    Some(i) => {
                        let ghost before = self.nodes@;
                        proof {
                            assert(self@.nodes[i as int] == before[i as int]@);
                            assert(before[i as int].wf());
                        }
                        // A message whose handling would leave the integer ranges
                        // (see `NodeView::can_step`) is lost like an undeliverable one.
                        if self.nodes[i].can_step(from, &message) {
                            self.nodes[i].step(from, message);
                            proof {
                                assert forall|j: int| 0 <= j < self.nodes@.len() && j != i implies #[trigger] self.nodes@[j] == before[j] by {}
                                assert forall|j: int| 0 <= j < self.nodes@.len() implies (#[trigger] self.nodes@[j]).wf() by {
                                    if j != i {
                                        assert(self.nodes@[j] == before[j]);
                                        assert(before[j].wf());
                                    }
                                }
                                assert(self@.nodes =~= nodes_before.update(
                                    i as int,
                                    nodes_before[i as int].stepped(from, message@),
                                ));
                            }
                        }
                    },
                    None => {},
                }
            } else {
                remaining.push_back(msg);
                proof {
                    assert(remaining@.map_values(|f: InFlight| f@) =~= kept_before.push(msg@));
                }
            }
        }
        proof {
            assert(self@.in_flight.len() == 0);
        }
        self.in_flight = remaining;
    }

    /// Advances the whole cluster by one virtual tick: every node's
    /// clock ticks, then any messages scheduled to arrive now are
    /// delivered, subject to the current network conditions.
    pub fn step(&mut self)
        requires
            old(self).wf(),
            old(self)@.can_step(),
        ensures
            final(self).wf(),
            final(self)@ == old(self)@.stepped(),
    {
        let ghost pre = self@;
        self.clock += 1;
        proof {
            assert(self@ == (SimView { clock: (pre.clock + 1) as u64, ..pre }));
            assert forall|i: int| 0 <= i < self@.nodes.len() implies (#[trigger] self@.nodes[i]).can_tick() by {
                assert(pre.nodes[i].can_tick());
            }
        }
        self.tick_all();
        let ghost ticked = all_ticked(pre.nodes);
        // Collect newly queued outbound messages from all nodes.
        let fresh = self.drain_all();
        let ghost drained = self@;
        proof {
            assert(drained == (SimView {
                clock: (pre.clock + 1) as u64,
                nodes: all_drained(ticked),
                ..pre
            }));
        }
        let ghost wf_nodes = self.nodes@;
        proof {
            assert(envelopes_view(fresh@) == all_outboxes(ticked));
        }
        self.enqueue_all(fresh);
        let ghost enq = self@;
        proof {
            assert(enq == drained.enqueued_all(all_outboxes(ticked)));
            assert forall|i: int| 0 <= i < self.nodes@.len() implies (#[trigger] self.nodes@[i]).wf() by {
                assert(wf_nodes[i].wf());
            }
        }
        self.deliver_due();
        proof {
            let (nodes, kept) = deliver_due(enq.nodes, Seq::empty(), enq.in_flight, enq.clock);
            assert(self@ == SimView { nodes, in_flight: kept, ..enq });
            assert(enq.clock == (pre.clock + 1) as u64);
        }
    }

    pub fn run_ticks(&mut self, count: u64)
        requires
            old(self).wf(),
            old(self)@.can_run(count as nat),
        ensures
            final(self).wf(),
            final(self)@ == old(self)@.run(count as nat),
    {
        let ghost target = self@.run(count as nat);
        let mut done: u64 = 0;
        while done < count
            invariant
                done <= count,
                self.wf(),
                self@.can_run((count - done) as nat),
                self@.run((count - done) as nat) == target,
            decreases count - done,
        {
            self.step();
            done = done + 1;
        }
    }

    /// True once every node agrees on who the leader is for the same term:
    /// the leader's id when exactly one node leads and every node is in its
    /// term, and `None` otherwise.
    pub fn current_leader(&self) -> (leader: Option<NodeId>)
        ensures
            leader == match agreed_leader(self@.nodes) {
                Some(l) => Some(self@.nodes[l].id),
                None => None::<u64>,
            },
    {
        let ghost nodes = self@.nodes;
        let n = self.nodes.len();
        let mut i: usize = 0;
        while i < n && !self.nodes[i].state.role.is_leader()
            invariant
                0 <= i <= n,
                n == nodes.len(),
                nodes == self@.nodes,
                forall|j: int| 0 <= j < i ==> !(nodes[j].role is Leader),
            decreases n - i,
        {
            i = i + 1;
        }
        if i == n {
            proof {
                if exists|l: int| is_agreed_leader(nodes, l) {
                    let l = choose|l: int| is_agreed_leader(nodes, l);
                    assert(nodes[l].role is Leader);
                }
            }
            return None;
        }
        let l = i;
        let term = self.nodes[l].state.current_term;
        let mut j: usize = 0;
        while j < n
            invariant
                0 <= j <= n,
                n == nodes.len(),
                nodes == self@.nodes,
                0 <= l < n,
                nodes[l as int].role is Leader,
                term == nodes[l as int].current_term,
                forall|k: int|
                    #![trigger nodes[k]]
                    0 <= k < j ==> nodes[k].current_term == term && (k != l ==> !(
                    nodes[k].role is Leader)),
            decreases n - j,
        {
            let other = &self.nodes[j];
            if other.state.current_term != term || (j != l && other.state.role.is_leader()) {
                proof {
                    if exists|m: int| is_agreed_leader(nodes, m) {
                        let m = choose|m: int| is_agreed_leader(nodes, m);
                        if m != l {
                            assert(nodes[l as int].role is Leader);
                        }
                        assert(nodes[j as int].current_term == nodes[m].current_term);
                    }
                }
                return None;
            }
            j = j + 1;
        }
        proof {
            assert(is_agreed_leader(nodes, l as int));
            let m = choose|m: int| is_agreed_leader(nodes, m);
            if m != l as int {
                assert(nodes[m].role is Leader);
            }
        }
        Some(self.nodes[l].state.id)
    }

    pub fn add_node(&mut self, node: Node)
        requires
            old(self).wf(),
            node.wf(),
        ensures
            final(self).wf(),
            final(self)@ == (SimView { nodes: with_node(old(self)@.nodes, node@), ..old(self)@ }),
    {
        let ghost pre = self@;
        let ghost added = node@;
        match self.find_node(node.state.id) {
            Some(i) => {
                self.nodes.set(i, node);
                proof {
                    assert(nodes_view(self.nodes@) =~= pre.nodes.update(i as int, added));
                }
            },
            None => {
                self.nodes.push(node);
                proof {
                    assert(nodes_view(self.nodes@) =~= pre.nodes.push(added));
                }
            },
        }
    }
}

} // verus!
