# quorum

A Raft consensus core with a deterministic network simulator, written in
Verus: every function carries a contract and is proved against it.

- `log` — the replicated log (1-based, append and truncate-on-conflict).
- `message` — the RPCs and the envelope that addresses them.
- `state` — per-node Raft state, roles and quorum arithmetic.
- `quorum` — the commit rule: the highest index a quorum holds.
- `node` — a single node driven by `tick()` and `step()`. Its behaviour is
  stated as transitions of `NodeView`, the node's mathematical value.
- `sim` — a seeded simulator with drops, delays and partitions; one tick of
  the whole cluster is the transition `SimView::stepped`.
- `properties` — properties of a node that hold across its operations
  (terms never decrease, one vote per term, commits need a quorum, ...).
- `safety` — election safety of a simulated cluster under any sequence of
  ticks, proposals, network changes and crashes: no two nodes lead in the
  same term, and every leader holds votes from a majority of the members.

Tests live under `tests/`.
