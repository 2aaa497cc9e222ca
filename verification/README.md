# vcad_ecad_pcb

The combinatorial core of a PCB trace router, written in Verus: every function
in `src/` carries a `requires`/`ensures` contract that Verus proves.

## Layout

- `src/window.rs`, `src/complete.rs`, `src/search.rs`, `src/disjoint.rs`,
  `src/flow.rs`, `src/decision.rs` — joint routing of a few connections on a
  window grid of `(cell, layer)` nodes: breadth-first shortest paths, ordered
  sequential attempts, an exhaustive backtracking search, and a node-disjoint
  max-flow bound. `decide_window` returns either node-disjoint paths or a
  verdict that is proved to rule out every joint routing (terminal clash,
  severed connection, flow bottleneck with its cut, exhausted search); it
  gives up on the budget only when the plain enumeration of the window
  (`tree_solve`) needs more expansions than allowed, or when two connections
  of one net share a terminal.
- `src/escape.rs`, `src/prices.rs` — min-cost flow over a pin field by
  successive cheapest augmenting paths (placing the demand, or stopping at a
  residual cut). With edge costs bounded so that path costs fit an `i64`, a
  flow that node prices certify (no edge with capacity left at a negative
  reduced cost, hence no negative-cost residual cycle) stays certified; an
  empty flow over non-negative costs starts certified. Also the greedy
  decomposition of the flow into one escape walk per pad.
- `src/grid.rs`, `src/maze.rs` — a Lee wavefront router on a cell grid and
  path reconstruction from predecessor links.
- `src/legalize.rs` — union–find clustering of vias that sit too close.
- `src/classes.rs`, `src/pair.rs`, `src/text.rs` — net classification into
  differential pairs and length-match groups from net names, pair partners,
  and the pair-census tallies.
- `src/bitset.rs`, `src/order.rs`, `src/gpu_bridge.rs`, `src/auto.rs` —
  supporting structures: a bit set, stable key orderings, word-aligned raster
  spans, router options.
- `tests/` — executable tests of the library on concrete boards and graphs.
- `app/` — the floating-point front end around the library (world
  coordinates, timing, census rows).

Geometry in millimetres and everything that needs the board model or the
clearance oracle lives outside the verified library; the library takes the
oracle's answers as plain values (free nodes, legal edges, legal segments,
pairs found too close) and decides on them.
