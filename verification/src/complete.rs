//! Complete multi-net window router: the exhaustive, certificate-producing
//! decision procedure over the canonical `(cell, layer)` grid graph.
use vstd::prelude::*;
use crate::bitset::BitSet;
use crate::window::WindowGraph;
use crate::order::{sort_indices_by_key, sorted_permutation};
use crate::text::{append_decimal, decimal, join, text_lt};
use vstd::string::{StrSliceExecFns, StringExecFns};

verus! {

/// Default cap on grid cells per axis; the pitch coarsens to fit.
pub const MAX_AXIS_CELLS: usize = 48;

/// Search resources the caller may raise without weakening the decision
/// procedure: the DFS expansion budget and the grid's cells-per-axis cap.
#[derive(Debug, Clone, Copy)]
pub struct WindowBudget {
    /// Maximum DFS node expansions before the search reports "unknown".
    pub expansions: usize,
    /// Cap on grid cells per axis.
    pub max_axis_cells: usize,
}

impl WindowBudget {
    /// `expansions` at the default cell cap.
    pub fn new(expansions: usize) -> (b: Self)
        ensures
            b.expansions == expansions,
            b.max_axis_cells == MAX_AXIS_CELLS,
    {
        WindowBudget { expansions, max_axis_cells: MAX_AXIS_CELLS }
    }

    /// Same budget with a raised cells-per-axis cap.
    pub fn with_max_axis_cells(self, max_axis_cells: usize) -> (b: Self)
        ensures
            b.expansions == self.expansions,
            b.max_axis_cells == max_axis_cells,
    {
        WindowBudget { max_axis_cells, ..self }
    }
}


/// Number of `true` entries.
pub open spec fn count_true(s: Seq<bool>) -> nat
    decreases s.len(),
{
    if s.len() == 0 {
        0
    } else {
        count_true(s.drop_last()) + if s.last() { 1nat } else { 0nat }
    }
}

pub proof fn lemma_count_true_update(s: Seq<bool>, i: int)
    requires
        0 <= i < s.len(),
        !s[i],
    ensures
        count_true(s.update(i, true)) == count_true(s) + 1,
    decreases s.len(),
{
    let t = s.update(i, true);
    if i == s.len() - 1 {
        assert(t.drop_last() =~= s.drop_last());
    } else {
        assert(t.drop_last() =~= s.drop_last().update(i, true));
        lemma_count_true_update(s.drop_last(), i);
    }
}

pub proof fn lemma_count_true_none(n: nat)
    ensures
        count_true(Seq::new(n, |i: int| false)) == 0,
    decreases n,
{
    if n > 0 {
        assert(Seq::new(n, |i: int| false).drop_last() =~= Seq::new((n - 1) as nat, |i: int| false));
        lemma_count_true_none((n - 1) as nat);
    }
}

pub proof fn lemma_count_true_le(s: Seq<bool>)
    ensures
        count_true(s) <= s.len(),
    decreases s.len(),
{
    if s.len() > 0 {
        lemma_count_true_le(s.drop_last());
    }
}

/// Node `v` exists, is clear of fixed copper, and is not in `occ`.
pub open spec fn node_open(g: &WindowGraph, occ: Set<int>, v: int) -> bool {
    0 <= v < g.n() && g.free@[v] && !occ.contains(v)
}

/// `p` walks from `s` to `t` over open nodes joined by legal edges.
pub open spec fn is_walk(g: &WindowGraph, occ: Set<int>, p: Seq<usize>, s: int, t: int) -> bool {
    &&& p.len() >= 1
    &&& p[0] == s
    &&& p[p.len() - 1] == t
    &&& forall|i: int| 0 <= i < p.len() ==> node_open(g, occ, #[trigger] p[i] as int)
    &&& forall|i: int| 0 <= i < p.len() - 1 ==> g.step_ok(#[trigger] p[i] as int, p[i + 1] as int)
}

/// No node repeats in `p`.
pub open spec fn no_repeats(p: Seq<usize>) -> bool {
    forall|i: int, j: int| 0 <= i < j < p.len() ==> p[i] != p[j]
}

/// Every open neighbour, across a legal edge, of a node in `seen` is in `seen`.
pub open spec fn closed_under_steps(g: &WindowGraph, occ: Set<int>, seen: Seq<bool>) -> bool {
    forall|v: int, k: int|
        #![trigger seen[v], g.nbrs(v)[k]]
        0 <= v < g.n() && seen[v] && 0 <= k < g.nbrs(v).len() && g.step_ok(v, g.nbrs(v)[k])
            && node_open(g, occ, g.nbrs(v)[k]) ==> seen[g.nbrs(v)[k]]
}

/// A set of open nodes closed under legal steps that holds `s` but not `t`
/// separates them: no walk over open nodes leads from `s` to `t`.
pub proof fn lemma_closed_set_separates(
    g: &WindowGraph,
    occ: Set<int>,
    seen: Seq<bool>,
    p: Seq<usize>,
    s: int,
    t: int,
)
    requires
        g.wf(),
        seen.len() == g.n(),
        closed_under_steps(g, occ, seen),
        0 <= s < g.n(),
        seen[s],
        0 <= t < g.n(),
        !seen[t],
    ensures
        !is_walk(g, occ, p, s, t),
{
    if is_walk(g, occ, p, s, t) {
        assert forall|i: int| 0 <= i < p.len() implies #[trigger] seen[p[i] as int] by {
            lemma_walk_prefix_seen(g, occ, seen, p, i);
        }
        assert(seen[p[p.len() - 1] as int]);
    }
}

proof fn lemma_walk_prefix_seen(g: &WindowGraph, occ: Set<int>, seen: Seq<bool>, p: Seq<usize>, i: int)
    requires
        g.wf(),
        seen.len() == g.n(),
        closed_under_steps(g, occ, seen),
        p.len() >= 1,
        seen[p[0] as int],
        forall|j: int| 0 <= j < p.len() ==> node_open(g, occ, #[trigger] p[j] as int),
        forall|j: int| 0 <= j < p.len() - 1 ==> g.step_ok(#[trigger] p[j] as int, p[j + 1] as int),
        0 <= i < p.len(),
    ensures
        seen[p[i] as int],
    decreases i,
{
    if i > 0 {
        lemma_walk_prefix_seen(g, occ, seen, p, i - 1);
        let v = p[i - 1] as int;
        assert(g.step_ok(v, p[i] as int));
        let k = choose|k: int| 0 <= k < g.nbrs(v).len() && g.nbrs(v)[k] == p[i] as int;
        assert(node_open(g, occ, p[i - 1] as int));
        assert(seen[g.nbrs(v)[k]]);
    }
}

/// Some walk over open nodes leads from `s` to `t`.
pub open spec fn reaches(g: &WindowGraph, occ: Set<int>, s: int, t: int) -> bool {
    exists|p: Seq<usize>| #[trigger] is_walk(g, occ, p, s, t)
}

/// The nodes reachable from `x`, as a flag per node.
pub open spec fn component(g: &WindowGraph, occ: Set<int>, x: int) -> Seq<bool> {
    Seq::new(g.n() as nat, |v: int| reaches(g, occ, x, v))
}

/// A walk read backwards is a walk: the window graph is undirected.
pub proof fn lemma_walk_reverse(g: &WindowGraph, occ: Set<int>, p: Seq<usize>, s: int, t: int)
    requires
        g.wf(),
        is_walk(g, occ, p, s, t),
    ensures
        is_walk(g, occ, p.reverse(), t, s),
{
    let r = p.reverse();
    let m = p.len();
    assert forall|i: int| 0 <= i < r.len() implies node_open(g, occ, #[trigger] r[i] as int) by {
        assert(r[i] == p[m - 1 - i]);
    }
    assert forall|i: int| 0 <= i < r.len() - 1 implies g.step_ok(#[trigger] r[i] as int, r[i + 1] as int) by {
        let j = m - 2 - i;
        assert(r[i] == p[j + 1] && r[i + 1] == p[j]);
        assert(g.step_ok(p[j] as int, p[j + 1] as int));
        assert(node_open(g, occ, p[j] as int));
        g.lemma_nbrs_symmetric(p[j] as int, p[j + 1] as int);
        g.lemma_edge_legal_symmetric(p[j] as int, p[j + 1] as int);
    }
}

/// Reachability runs both ways.
pub proof fn lemma_reaches_symmetric(g: &WindowGraph, occ: Set<int>, s: int, t: int)
    requires
        g.wf(),
        reaches(g, occ, s, t),
    ensures
        reaches(g, occ, t, s),
{
    let p = choose|p: Seq<usize>| #[trigger] is_walk(g, occ, p, s, t);
    lemma_walk_reverse(g, occ, p, s, t);
    assert(is_walk(g, occ, p.reverse(), t, s));
}

/// Reachability composes.
pub proof fn lemma_reaches_trans(g: &WindowGraph, occ: Set<int>, a: int, b: int, c: int)
    requires
        reaches(g, occ, a, b),
        reaches(g, occ, b, c),
    ensures
        reaches(g, occ, a, c),
{
    let p = choose|p: Seq<usize>| #[trigger] is_walk(g, occ, p, a, b);
    let q = choose|q: Seq<usize>| #[trigger] is_walk(g, occ, q, b, c);
    let w = p + q.drop_first();
    assert forall|i: int| 0 <= i < w.len() implies node_open(g, occ, #[trigger] w[i] as int) by {
        if i < p.len() {
            assert(w[i] == p[i]);
        } else {
            assert(w[i] == q[i - p.len() + 1]);
        }
    }
    assert forall|i: int| 0 <= i < w.len() - 1 implies g.step_ok(#[trigger] w[i] as int, w[i + 1] as int) by {
        if i < p.len() - 1 {
            assert(w[i] == p[i] && w[i + 1] == p[i + 1]);
        } else {
            let j = i - p.len() + 1;
            assert(w[i] == q[j] && w[i + 1] == q[j + 1]);
        }
    }
    if q.len() == 1 {
        assert(w =~= p);
    } else {
        assert(w[w.len() - 1] == q[q.len() - 1]);
    }
    assert(is_walk(g, occ, w, a, c));
}

/// Every node of a BFS tree is reached from its root along the tree.
proof fn lemma_tree_walk(
    g: &WindowGraph,
    ow: Set<int>,
    start: int,
    seen: Seq<bool>,
    prev: Seq<usize>,
    dist: Seq<int>,
    v: int,
)
    requires
        g.wf(),
        bfs_tree(g, ow, start, seen, prev, dist),
        seen.len() == g.n(),
        dist.len() == g.n(),
        0 <= v < g.n(),
        seen[v],
    ensures
        reaches(g, ow, start, v),
    decreases dist[v],
{
    reveal(bfs_tree);
    assert(node_open(g, ow, v) && dist[v] >= 0);
    if v == start {
        let p = seq![start as usize];
        assert(p[0] as int == v);
        assert(is_walk(g, ow, p, start, v));
    } else {
        let u = prev[v] as int;
        lemma_tree_walk(g, ow, start, seen, prev, dist, u);
        let p = choose|p: Seq<usize>| #[trigger] is_walk(g, ow, p, start, u);
        let q = p.push(v as usize);
        assert forall|i: int| 0 <= i < q.len() implies node_open(g, ow, #[trigger] q[i] as int) by {
            if i < p.len() {
                assert(q[i] == p[i]);
            }
        }
        assert forall|i: int| 0 <= i < q.len() - 1 implies g.step_ok(#[trigger] q[i] as int, q[i + 1] as int) by {
            assert(q[i] == p[i]);
            if i < p.len() - 1 {
                assert(q[i + 1] == p[i + 1]);
            }
        }
        assert(is_walk(g, ow, q, start, v));
    }
}

/// BFS search tree: every reached node is open, and every reached node other
/// than `start` hangs off a reached predecessor one step closer to `start`.
#[verifier::opaque]
pub open spec fn bfs_tree(
    g: &WindowGraph,
    ow: Set<int>,
    start: int,
    seen: Seq<bool>,
    prev: Seq<usize>,
    dist: Seq<int>,
) -> bool {
    &&& seen.len() == g.n()
    &&& prev.len() == g.n()
    &&& dist.len() == g.n()
    &&& 0 <= start < g.n()
    &&& seen[start]
    &&& dist[start] == 0
    &&& forall|v: int| 0 <= v < g.n() && #[trigger] seen[v] ==> node_open(g, ow, v) && dist[v] >= 0
    &&& forall|v: int|
        0 <= v < g.n() && #[trigger] seen[v] && v != start ==> {
            &&& prev[v] < g.n()
            &&& seen[prev[v] as int]
            &&& dist[prev[v] as int] + 1 == dist[v]
            &&& g.step_ok(prev[v] as int, v)
        }
}

/// BFS queue bookkeeping: the queue lists exactly the reached nodes, once
/// each, and the goal is not among the nodes already taken off it.
#[verifier::opaque]
pub open spec fn bfs_queue(n: int, q: Seq<usize>, seen: Seq<bool>, head: int, goal: int) -> bool {
    &&& seen.len() == n
    &&& 0 <= head <= q.len()
    &&& q.len() == count_true(seen)
    &&& forall|i: int| 0 <= i < q.len() ==> #[trigger] q[i] < n && seen[q[i] as int]
    &&& forall|v: int| 0 <= v < n && #[trigger] seen[v] ==> exists|i: int| 0 <= i < q.len() && q[i] == v
    &&& forall|i: int| 0 <= i < head ==> #[trigger] q[i] != goal
}

/// Every open neighbour of a node taken off the queue has been reached.
#[verifier::opaque]
pub open spec fn bfs_expanded(g: &WindowGraph, ow: Set<int>, q: Seq<usize>, seen: Seq<bool>, head: int) -> bool {
    forall|i: int, k: int|
        #![trigger q[i], g.nbrs(q[i] as int)[k]]
        0 <= i < head && 0 <= k < g.nbrs(q[i] as int).len()
            && g.step_ok(q[i] as int, g.nbrs(q[i] as int)[k])
            && node_open(g, ow, g.nbrs(q[i] as int)[k]) ==> seen[g.nbrs(q[i] as int)[k]]
}

proof fn lemma_bfs_reach(
    g: &WindowGraph,
    ow: Set<int>,
    start: int,
    seen: Seq<bool>,
    prev: Seq<usize>,
    dist: Seq<int>,
    q: Seq<usize>,
    head: int,
    goal: int,
    u: int,
    nb: int,
)
    requires
        g.wf(),
        bfs_tree(g, ow, start, seen, prev, dist),
        bfs_queue(g.n(), q, seen, head, goal),
        bfs_expanded(g, ow, q, seen, head),
        0 <= head < q.len(),
        u == q[head],
        0 <= nb < g.n(),
        !seen[nb],
        node_open(g, ow, nb),
        g.step_ok(u, nb),
    ensures
        bfs_tree(g, ow, start, seen.update(nb, true), prev.update(nb, u as usize), dist.update(nb, dist[u] + 1)),
        bfs_queue(g.n(), q.push(nb as usize), seen.update(nb, true), head, goal),
        bfs_expanded(g, ow, q.push(nb as usize), seen.update(nb, true), head),
{
    reveal(bfs_tree);
    reveal(bfs_queue);
    reveal(bfs_expanded);
    let seen2 = seen.update(nb, true);
    let q2 = q.push(nb as usize);
    lemma_count_true_update(seen, nb);
    assert(q[head] < g.n() && seen[q[head] as int]);
    assert forall|v: int| 0 <= v < g.n() && #[trigger] seen2[v] implies exists|i: int|
        0 <= i < q2.len() && q2[i] == v by {
        if v == nb {
            assert(q2[q2.len() - 1] == v);
        } else {
            assert(seen[v]);
            let i = choose|i: int| 0 <= i < q.len() && q[i] == v;
            assert(q2[i] == v);
        }
    }
    assert forall|i: int| 0 <= i < q2.len() implies #[trigger] q2[i] < g.n() && seen2[q2[i] as int] by {
        if i < q.len() {
            assert(q2[i] == q[i]);
        }
    }
    assert forall|i: int| 0 <= i < head implies #[trigger] q2[i] != goal by {
        assert(q2[i] == q[i]);
    }
    assert forall|i: int, k: int|
        #![trigger q2[i], g.nbrs(q2[i] as int)[k]]
        0 <= i < head && 0 <= k < g.nbrs(q2[i] as int).len()
            && g.step_ok(q2[i] as int, g.nbrs(q2[i] as int)[k])
            && node_open(g, ow, g.nbrs(q2[i] as int)[k]) implies seen2[g.nbrs(q2[i] as int)[k]] by {
        assert(q2[i] == q[i]);
        assert(seen[g.nbrs(q[i] as int)[k]]);
    }
}

proof fn lemma_bfs_expand_done(
    g: &WindowGraph,
    ow: Set<int>,
    q: Seq<usize>,
    seen: Seq<bool>,
    head: int,
)
    requires
        bfs_expanded(g, ow, q, seen, head),
        0 <= head < q.len(),
        forall|j: int|
            0 <= j < g.nbrs(q[head] as int).len() && g.step_ok(q[head] as int, #[trigger] g.nbrs(q[head] as int)[j])
                && node_open(g, ow, g.nbrs(q[head] as int)[j]) ==> seen[g.nbrs(q[head] as int)[j]],
    ensures
        bfs_expanded(g, ow, q, seen, head + 1),
{
    reveal(bfs_expanded);
}

/// Node `w` is listed among `v`'s neighbours before any listing of `u`.
pub open spec fn first_before(g: &WindowGraph, v: int, w: int, u: int) -> bool {
    exists|x: int|
        0 <= x < g.nbrs(v).len() && #[trigger] g.nbrs(v)[x] == w && forall|z: int| 0 <= z <= x ==> #[trigger] g.nbrs(v)[z]
            != u
}

/// Walk `q` follows walk `p` for a while and then turns off it to a
/// neighbour listed before the node `p` moves on to: with neighbours listed
/// left, right, down, up (then the layer below and above), `q` comes first
/// in the order of their step directions.
pub open spec fn walk_precedes(g: &WindowGraph, q: Seq<usize>, p: Seq<usize>) -> bool {
    exists|j: int|
        0 <= j && j + 1 < p.len() && j + 1 < q.len() && (forall|m: int| 0 <= m <= j ==> #[trigger] q[m] == p[m])
            && #[trigger] first_before(g, p[j] as int, q[j + 1] as int, p[j + 1] as int)
}

/// Queue order of the breadth-first search: `pos` numbers the reached
/// nodes by queue position; each node hangs off the first node taken off
/// the queue with a step to it; children of earlier nodes come earlier; and
/// children of one node come in the order of its neighbour list.
#[verifier::opaque]
pub open spec fn bfs_order(
    g: &WindowGraph,
    start: int,
    q: Seq<usize>,
    seen: Seq<bool>,
    prev: Seq<usize>,
    pos: Seq<int>,
) -> bool {
    &&& pos.len() == g.n()
    &&& q.len() >= 1
    &&& q[0] == start
    &&& forall|v: int| 0 <= v < g.n() && #[trigger] seen[v] ==> 0 <= pos[v] < q.len() && q[pos[v]] == v
    &&& forall|i: int| 0 <= i < q.len() ==> #[trigger] pos[q[i] as int] == i
    &&& forall|v: int|
        0 <= v < g.n() && #[trigger] seen[v] && v != start ==> forall|i: int|
            0 <= i < pos[prev[v] as int] ==> !g.step_ok(#[trigger] q[i] as int, v)
    &&& forall|x: int, y: int|
        0 <= x < g.n() && 0 <= y < g.n() && #[trigger] seen[x] && #[trigger] seen[y] && x != start && y != start
            && pos[prev[x] as int] < pos[prev[y] as int] ==> pos[x] < pos[y]
    &&& forall|x: int, y: int|
        0 <= x < g.n() && 0 <= y < g.n() && #[trigger] seen[x] && #[trigger] seen[y] && x != start && y != start
            && prev[x] == prev[y] && first_before(g, prev[x] as int, x, y) ==> pos[x] < pos[y]
}

proof fn lemma_order_start(g: &WindowGraph, start: usize, seen: Seq<bool>, prev: Seq<usize>)
    requires
        start < g.n(),
        seen.len() == g.n(),
        forall|v: int| 0 <= v < g.n() ==> (#[trigger] seen[v] <==> v == start),
    ensures
        bfs_order(g, start as int, seq![start], seen, prev, Seq::new(g.n() as nat, |v: int| 0int)),
{
    reveal(bfs_order);
}

/// Reaching `nb` from the node `u` at the head of the queue, through `u`'s
/// `k`-th neighbour listing, keeps the queue order.
proof fn lemma_order_push(
    g: &WindowGraph,
    ow: Set<int>,
    start: int,
    q: Seq<usize>,
    seen: Seq<bool>,
    prev: Seq<usize>,
    pos: Seq<int>,
    head: int,
    k: int,
)
    requires
        g.wf(),
        bfs_order(g, start, q, seen, prev, pos),
        bfs_expanded(g, ow, q, seen, head),
        seen.len() == g.n(),
        prev.len() == g.n(),
        q.len() <= g.n(),
        0 <= head < q.len(),
        seen[start],
        forall|i: int| 0 <= i < q.len() ==> #[trigger] q[i] < g.n() && seen[q[i] as int],
        forall|v: int| 0 <= v < g.n() && #[trigger] seen[v] && v != start ==> prev[v] < g.n() && seen[prev[v] as int],
        0 <= k < g.nbrs(q[head] as int).len(),
        g.step_ok(q[head] as int, g.nbrs(q[head] as int)[k]),
        node_open(g, ow, g.nbrs(q[head] as int)[k]),
        !seen[g.nbrs(q[head] as int)[k]],
        forall|x: int|
            0 <= x < k && g.step_ok(q[head] as int, #[trigger] g.nbrs(q[head] as int)[x]) && node_open(
                g,
                ow,
                g.nbrs(q[head] as int)[x],
            ) ==> seen[g.nbrs(q[head] as int)[x]],
        forall|v: int|
            0 <= v < g.n() && #[trigger] seen[v] && v != start ==> pos[prev[v] as int] < head || (prev[v] == q[head]
                && exists|x: int| 0 <= x < k && g.nbrs(q[head] as int)[x] == v),
    ensures
        ({
            let u = q[head];
            let nb = g.nbrs(u as int)[k];
            bfs_order(g, start, q.push(nb as usize), seen.update(nb, true), prev.update(nb, u), pos.update(nb, q.len() as int))
        }),
{
    reveal(bfs_order);
    reveal(bfs_expanded);
    let u = q[head];
    let nb = g.nbrs(u as int)[k];
    let q2 = q.push(nb as usize);
    let seen2 = seen.update(nb, true);
    let prev2 = prev.update(nb, u);
    let pos2 = pos.update(nb, q.len() as int);
    assert(q[head] < g.n());
    g.lemma_nbrs_in_range(u as int);
    assert(0 <= nb < g.n());
    assert(nb != start);
    assert forall|i: int| 0 <= i < q.len() implies q[i] != nb by {
        if q[i] == nb {
            assert(seen[q[i] as int]) by {
                assert(pos[q[i] as int] == i);
            }
        }
    }
    assert forall|v: int| 0 <= v < g.n() && #[trigger] seen2[v] implies 0 <= pos2[v] < q2.len() && q2[pos2[v]] == v by {
        if v != nb {
            assert(seen[v]);
        }
    }
    assert forall|i: int| 0 <= i < q2.len() implies #[trigger] pos2[q2[i] as int] == i by {
        if i < q.len() {
            assert(q2[i] == q[i]);
            assert(q[i] != nb);
        }
    }
    assert forall|v: int| 0 <= v < g.n() && #[trigger] seen2[v] && v != start implies forall|i: int|
        0 <= i < pos2[prev2[v] as int] ==> !g.step_ok(#[trigger] q2[i] as int, v) by {
        if v == nb {
            assert(pos2[u as int] == head) by {
                assert(pos[q[head] as int] == head);
                assert(u != nb);
            }
            assert forall|i: int| 0 <= i < pos2[prev2[v] as int] implies !g.step_ok(#[trigger] q2[i] as int, v) by {
                assert(q2[i] == q[i]);
                if g.step_ok(q[i] as int, v) {
                    let kk = choose|kk: int| 0 <= kk < g.nbrs(q[i] as int).len() && g.nbrs(q[i] as int)[kk] == v;
                    assert(g.nbrs(q[i] as int)[kk] == v);
                }
            }
        } else {
            assert(seen[v]);
            assert(prev2[v] == prev[v]);
            assert(seen[prev[v] as int]);
            assert forall|i: int| 0 <= i < pos2[prev2[v] as int] implies !g.step_ok(#[trigger] q2[i] as int, v) by {
                assert(pos2[prev2[v] as int] == pos[prev[v] as int]);
                assert(pos[prev[v] as int] <= head);
                assert(q2[i] == q[i]);
            }
        }
    }
    assert forall|x: int, y: int|
        0 <= x < g.n() && 0 <= y < g.n() && #[trigger] seen2[x] && #[trigger] seen2[y] && x != start && y != start
            && pos2[prev2[x] as int] < pos2[prev2[y] as int] implies pos2[x] < pos2[y] by {
        if x != nb && y != nb {
            assert(seen[x] && seen[y]);
            assert(seen[prev[x] as int] && seen[prev[y] as int]);
        } else if x == nb && y != nb {
            assert(seen[y]);
            assert(pos[u as int] == head);
            assert(seen[prev[y] as int]);
            assert(pos[prev[y] as int] <= head);
        } else if y == nb && x != nb {
            assert(seen[x]);
        }
    }
    assert forall|x: int, y: int|
        0 <= x < g.n() && 0 <= y < g.n() && #[trigger] seen2[x] && #[trigger] seen2[y] && x != start && y != start
            && prev2[x] == prev2[y] && first_before(g, prev2[x] as int, x, y) implies pos2[x] < pos2[y] by {
        if x != nb && y != nb {
            assert(seen[x] && seen[y]);
        } else if x == nb && y != nb {
            assert(seen[y]);
            assert(prev[y] == u);
            let xy = choose|xy: int| 0 <= xy < k && g.nbrs(u as int)[xy] == y;
            let x0 = choose|x0: int|
                0 <= x0 < g.nbrs(u as int).len() && #[trigger] g.nbrs(u as int)[x0] == nb && forall|z: int|
                    0 <= z <= x0 ==> #[trigger] g.nbrs(u as int)[z] != y;
            if x0 < k {
                assert(seen[g.nbrs(u as int)[x0]]);
            } else {
                assert(g.nbrs(u as int)[xy] != y);
            }
        } else if x == nb && y == nb {
            let x0 = choose|x0: int|
                0 <= x0 < g.nbrs(u as int).len() && #[trigger] g.nbrs(u as int)[x0] == nb && forall|z: int|
                    0 <= z <= x0 ==> #[trigger] g.nbrs(u as int)[z] != nb;
            assert(g.nbrs(u as int)[x0] != nb);
        } else {
            assert(seen[x]);
        }
    }
}

/// BFS layering: distances along the queue never decrease and span at most
/// one step beyond the head, and every open neighbour of an expanded node
/// was reached at most one step further out.
#[verifier::opaque]
pub open spec fn bfs_layers(g: &WindowGraph, ow: Set<int>, q: Seq<usize>, seen: Seq<bool>, dist: Seq<int>, head: int) -> bool {
    &&& forall|i: int, j: int| 0 <= i < j < q.len() ==> dist[#[trigger] q[i] as int] <= dist[#[trigger] q[j] as int]
    &&& head < q.len() ==> forall|j: int| 0 <= j < q.len() ==> dist[#[trigger] q[j] as int] <= dist[q[head] as int] + 1
    &&& forall|i: int, k: int|
        #![trigger q[i], g.nbrs(q[i] as int)[k]]
        0 <= i < head && 0 <= k < g.nbrs(q[i] as int).len() && g.step_ok(q[i] as int, g.nbrs(q[i] as int)[k])
            && node_open(g, ow, g.nbrs(q[i] as int)[k]) ==> seen[g.nbrs(q[i] as int)[k]] && dist[g.nbrs(
            q[i] as int,
        )[k]] <= dist[q[i] as int] + 1
}

proof fn lemma_layers_push(
    g: &WindowGraph,
    ow: Set<int>,
    q: Seq<usize>,
    seen: Seq<bool>,
    dist: Seq<int>,
    head: int,
    nb: int,
)
    requires
        bfs_layers(g, ow, q, seen, dist, head),
        0 <= head < q.len(),
        0 <= nb < seen.len(),
        seen.len() <= usize::MAX,
        seen.len() == g.n(),
        dist.len() == seen.len(),
        !seen[nb],
        forall|i: int| 0 <= i < q.len() ==> #[trigger] q[i] < seen.len() && seen[q[i] as int] && q[i] != nb,
    ensures
        bfs_layers(
            g,
            ow,
            q.push(nb as usize),
            seen.update(nb, true),
            dist.update(nb, dist[q[head] as int] + 1),
            head,
        ),
{
    reveal(bfs_layers);
    let q2 = q.push(nb as usize);
    let d2 = dist.update(nb, dist[q[head] as int] + 1);
    let s2 = seen.update(nb, true);
    assert(q2[q.len() as int] as int == nb);
    assert(d2[nb] == dist[q[head] as int] + 1);
    assert forall|i: int| 0 <= i < q.len() implies d2[q2[i] as int] == dist[q[i] as int] by {
        assert(q2[i] == q[i]);
    }
    assert forall|i: int, j: int| 0 <= i < j < q2.len() implies d2[#[trigger] q2[i] as int] <= d2[#[trigger] q2[j] as int] by {
        if j < q.len() {
            assert(d2[q2[i] as int] == dist[q[i] as int]);
            assert(d2[q2[j] as int] == dist[q[j] as int]);
        } else {
            assert(d2[q2[i] as int] == dist[q[i] as int]);
            assert(dist[q[i] as int] <= dist[q[head] as int] + 1);
        }
    }
    assert forall|j: int| 0 <= j < q2.len() implies d2[#[trigger] q2[j] as int] <= d2[q2[head] as int] + 1 by {
        assert(d2[q2[head] as int] == dist[q[head] as int]);
        if j < q.len() {
            assert(d2[q2[j] as int] == dist[q[j] as int]);
        }
    }
    assert forall|i: int, k: int|
        #![trigger q2[i], g.nbrs(q2[i] as int)[k]]
        0 <= i < head && 0 <= k < g.nbrs(q2[i] as int).len() && g.step_ok(q2[i] as int, g.nbrs(q2[i] as int)[k])
            && node_open(g, ow, g.nbrs(q2[i] as int)[k]) implies s2[g.nbrs(q2[i] as int)[k]] && d2[g.nbrs(
            q2[i] as int,
        )[k]] <= d2[q2[i] as int] + 1 by {
        assert(q2[i] == q[i]);
        let w = g.nbrs(q[i] as int)[k];
        assert(seen[w] && dist[w] <= dist[q[i] as int] + 1);
        assert(w != nb);
        assert(d2[q2[i] as int] == dist[q[i] as int]);
    }
}

proof fn lemma_layers_advance(
    g: &WindowGraph,
    ow: Set<int>,
    q: Seq<usize>,
    seen: Seq<bool>,
    dist: Seq<int>,
    head: int,
)
    requires
        bfs_layers(g, ow, q, seen, dist, head),
        0 <= head < q.len(),
        forall|j: int|
            0 <= j < g.nbrs(q[head] as int).len() && g.step_ok(q[head] as int, #[trigger] g.nbrs(q[head] as int)[j])
                && node_open(g, ow, g.nbrs(q[head] as int)[j]) ==> seen[g.nbrs(q[head] as int)[j]] && dist[g.nbrs(
                q[head] as int,
            )[j]] <= dist[q[head] as int] + 1,
    ensures
        bfs_layers(g, ow, q, seen, dist, head + 1),
{
    reveal(bfs_layers);
    if head + 1 < q.len() {
        assert forall|j: int| 0 <= j < q.len() implies dist[#[trigger] q[j] as int] <= dist[q[head + 1] as int] + 1 by {
            assert(dist[q[j] as int] <= dist[q[head] as int] + 1);
            assert(dist[q[head] as int] <= dist[q[head + 1] as int]);
        }
    }
}

/// When the goal leaves the queue, no walk to it is shorter than its BFS
/// distance.
proof fn lemma_layers_shortest(
    g: &WindowGraph,
    ow: Set<int>,
    start: int,
    q: Seq<usize>,
    seen: Seq<bool>,
    prev: Seq<usize>,
    dist: Seq<int>,
    head: int,
    goal: int,
    p: Seq<usize>,
)
    requires
        g.wf(),
        bfs_tree(g, ow, start, seen, prev, dist),
        bfs_queue(g.n(), q, seen, head, goal),
        bfs_layers(g, ow, q, seen, dist, head),
        0 <= head < q.len(),
        q[head] == goal,
        is_walk(g, ow, p, start, goal),
    ensures
        dist[goal] + 1 <= p.len(),
{
    reveal(bfs_tree);
    reveal(bfs_queue);
    reveal(bfs_layers);
    let dd = dist[goal];
    if p.len() < dd + 1 {
        // Every node of the walk is reached no further out than its position.
        assert forall|i: int| 0 <= i < p.len() implies #[trigger] seen[p[i] as int] && dist[p[i] as int] <= i by {
            lemma_walk_layers(g, ow, start, q, seen, prev, dist, head, goal, p, i);
        }
        assert(dist[p[p.len() - 1] as int] <= p.len() - 1);
    }
}

proof fn lemma_walk_layers(
    g: &WindowGraph,
    ow: Set<int>,
    start: int,
    q: Seq<usize>,
    seen: Seq<bool>,
    prev: Seq<usize>,
    dist: Seq<int>,
    head: int,
    goal: int,
    p: Seq<usize>,
    i: int,
)
    requires
        g.wf(),
        bfs_tree(g, ow, start, seen, prev, dist),
        bfs_queue(g.n(), q, seen, head, goal),
        bfs_layers(g, ow, q, seen, dist, head),
        0 <= head < q.len(),
        q[head] == goal,
        is_walk(g, ow, p, start, goal),
        p.len() <= dist[goal] + 1,
        0 <= i < p.len(),
    ensures
        seen[p[i] as int] && dist[p[i] as int] <= i,
    decreases i,
{
    reveal(bfs_tree);
    reveal(bfs_queue);
    reveal(bfs_layers);
    if i > 0 {
        lemma_walk_layers(g, ow, start, q, seen, prev, dist, head, goal, p, i - 1);
        let v = p[i - 1] as int;
        let w = p[i] as int;
        assert(node_open(g, ow, v));
        assert(g.step_ok(v, w));
        let iv = choose|x: int| 0 <= x < q.len() && q[x] == v;
        if iv >= head {
            assert(dist[q[head] as int] <= dist[q[iv] as int]);
        }
        assert(iv < head);
        let k = choose|k: int| 0 <= k < g.nbrs(v).len() && g.nbrs(v)[k] == w;
        assert(q[iv] as int == v);
        assert(g.nbrs(q[iv] as int)[k] == w);
        assert(node_open(g, ow, w));
    }
}

/// Breadth-first search from `start` to `goal` over open nodes joined by
/// legal edges.
///
/// On success the node path `start ..= goal` is returned. On failure the set
/// of nodes reached is returned — when `start` is open it holds `start`, is
/// closed under legal steps and lacks `goal`, which is the certificate that
/// no path exists ([`lemma_closed_set_separates`]). Passing `usize::MAX` as
/// `goal` asks for that set outright.
pub fn bfs_path(g: &WindowGraph, start: usize, goal: usize, occ: &BitSet) -> (r: Result<Vec<usize>, Vec<bool>>)
    requires
        g.wf(),
        start < g.n(),
        goal < g.n() || goal == usize::MAX,
        occ.capacity() >= g.n(),
    ensures
        match r {
            Ok(path) => {
                &&& is_walk(g, occ@, path@, start as int, goal as int)
                &&& no_repeats(path@)
                &&& forall|p: Seq<usize>| #[trigger] is_walk(g, occ@, p, start as int, goal as int) ==> path@.len() <= p.len()
                &&& forall|p: Seq<usize>|
                    #[trigger] is_walk(g, occ@, p, start as int, goal as int) && p.len() == path@.len() ==> !walk_precedes(
                        g,
                        p,
                        path@,
                    )
            },
            Err(seen) => {
                &&& seen@.len() == g.n()
                &&& forall|v: int| 0 <= v < g.n() ==> (seen@[v] <==> #[trigger] reaches(g, occ@, start as int, v))
                &&& !node_open(g, occ@, start as int) ==> forall|v: int| 0 <= v < g.n() ==> !seen@[v]
                &&& node_open(g, occ@, start as int) ==> {
                    &&& seen@[start as int]
                    &&& goal < g.n() ==> !seen@[goal as int]
                    &&& closed_under_steps(g, occ@, seen@)
                    &&& forall|v: int| 0 <= v < g.n() && seen@[v] ==> node_open(g, occ@, v)
                }
            },
        },
{
    proof {
        g.lemma_sizes();
    }
    let n = g.free.len();
    let mut seen: Vec<bool> = vec![false; n];
    if !g.free[start] || occ.get(start) {
        proof {
            assert forall|v: int| 0 <= v < g.n() implies (seen@[v] <==> #[trigger] reaches(g, occ@, start as int, v)) by {
                if reaches(g, occ@, start as int, v) {
                    let p = choose|p: Seq<usize>| #[trigger] is_walk(g, occ@, p, start as int, v);
                    assert(node_open(g, occ@, p[0] as int));
                }
            }
        }
        return Err(seen);
    }
    let ghost ow = occ@;
    let mut prev: Vec<usize> = vec![usize::MAX; n];
    let ghost mut dist: Seq<int> = Seq::new(n as nat, |i: int| 0);
    proof {
        assert(seen@ =~= Seq::new(n as nat, |i: int| false));
        lemma_count_true_none(n as nat);
    }
    seen.set(start, true);
    proof {
        lemma_count_true_update(Seq::new(n as nat, |i: int| false), start as int);
        assert(seen@ =~= Seq::new(n as nat, |i: int| false).update(start as int, true));
    }
    let mut q: Vec<usize> = Vec::new();
    q.push(start);
    let mut head: usize = 0;
    let ghost mut pos: Seq<int> = Seq::new(n as nat, |v: int| 0int);
    proof {
        assert(q@ =~= seq![start]);
        lemma_order_start(g, start, seen@, prev@);
        reveal(bfs_tree);
        reveal(bfs_queue);
        reveal(bfs_expanded);
        reveal(bfs_layers);
        assert forall|v: int| 0 <= v < n && #[trigger] seen@[v] implies exists|i: int| 0 <= i < q@.len() && q@[i] == v by {
            assert(v == start as int);
            assert(q@[0] == start);
        }
    }
    while head < q.len()
        invariant
            g.wf(),
            n == g.n(),
            ow == occ@,
            occ.capacity() >= g.n(),
            start < n,
            goal < n || goal == usize::MAX,
            seen@.len() == n,
            prev@.len() == n,
            dist.len() == n,
            bfs_tree(g, ow, start as int, seen@, prev@, dist),
            bfs_queue(n as int, q@, seen@, head as int, goal as int),
            bfs_expanded(g, ow, q@, seen@, head as int),
            bfs_layers(g, ow, q@, seen@, dist, head as int),
            bfs_order(g, start as int, q@, seen@, prev@, pos),
            pos.len() == n,
            forall|v: int| 0 <= v < n && #[trigger] seen@[v] && v != start ==> pos[prev@[v] as int] < head,
        decreases n - head,
    {
        proof {
            reveal(bfs_queue);
            lemma_count_true_le(seen@);
        }
        let u = q[head];
        if u == goal {
            proof {
                reveal(bfs_tree);
                reveal(bfs_queue);
            }
            let path = walk_back(g, Ghost(ow), &prev, Ghost(dist), Ghost(seen@), start, goal);
            proof {
                assert forall|p: Seq<usize>|
                    #[trigger] is_walk(g, occ@, p, start as int, goal as int) && p.len() == path@.len() implies !walk_precedes(
                    g,
                    p,
                    path@,
                ) by {
                    lemma_first_in_order(g, ow, start as int, q@, seen@, prev@, dist, pos, head as int, goal as int, path@, p);
                }
                assert forall|p: Seq<usize>| #[trigger] is_walk(g, occ@, p, start as int, goal as int) implies path@.len()
                    <= p.len() by {
                    lemma_layers_shortest(g, ow, start as int, q@, seen@, prev@, dist, head as int, goal as int, p);
                }
            }
            return Ok(path);
        }
        proof {
            reveal(bfs_queue);
        }
        let nbs = g.neighbors(u);
        let mut k: usize = 0;
        while k < nbs.len()
            invariant
                g.wf(),
                n == g.n(),
                ow == occ@,
                occ.capacity() >= g.n(),
                start < n,
                u < n,
                head < q@.len(),
                u == q@[head as int],
                u != goal,
                nbs@.len() == g.nbrs(u as int).len(),
                forall|j: int| 0 <= j < nbs@.len() ==> nbs@[j] as int == #[trigger] g.nbrs(u as int)[j],
                forall|j: int| 0 <= j < nbs@.len() ==> #[trigger] nbs@[j] < n,
                k <= nbs@.len(),
                seen@.len() == n,
                prev@.len() == n,
                dist.len() == n,
                bfs_tree(g, ow, start as int, seen@, prev@, dist),
                bfs_queue(n as int, q@, seen@, head as int, goal as int),
                bfs_expanded(g, ow, q@, seen@, head as int),
                bfs_layers(g, ow, q@, seen@, dist, head as int),
                bfs_order(g, start as int, q@, seen@, prev@, pos),
                pos.len() == n,
                forall|v: int|
                    0 <= v < n && #[trigger] seen@[v] && v != start ==> pos[prev@[v] as int] < head || (prev@[v] == u
                        && exists|x: int| 0 <= x < k && g.nbrs(u as int)[x] == v),
                forall|j: int|
                    0 <= j < k && g.step_ok(u as int, #[trigger] g.nbrs(u as int)[j])
                        && node_open(g, ow, g.nbrs(u as int)[j]) ==> seen@[g.nbrs(u as int)[j]] && dist[g.nbrs(
                        u as int,
                    )[j]] <= dist[u as int] + 1,
            decreases nbs@.len() - k,
        {
            let nb = nbs[k];
            proof {
                assert(g.nbrs(u as int)[k as int] == nb as int);
            }
            let ghost seen0 = seen@;
            if !(seen[nb] || !g.free[nb] || occ.get(nb) || !g.edge_ok(u, nb)) {
                proof {
                    assert(g.nbrs(u as int).contains(nb as int));
                    lemma_bfs_reach(g, ow, start as int, seen@, prev@, dist, q@, head as int, goal as int, u as int, nb as int);
                    reveal(bfs_queue);
                    lemma_layers_push(g, ow, q@, seen@, dist, head as int, nb as int);
                    dist = dist.update(nb as int, dist[u as int] + 1);
                    reveal(bfs_tree);
                    lemma_count_true_le(seen@);
                    lemma_order_push(g, ow, start as int, q@, seen@, prev@, pos, head as int, k as int);
                }
                let ghost pos0 = pos;
                proof {
                    pos = pos.update(nb as int, q@.len() as int);
                }
                let ghost prev0 = prev@;
                seen.set(nb, true);
                prev.set(nb, u);
                q.push(nb);
                proof {
                    assert forall|v: int|
                        0 <= v < n && #[trigger] seen@[v] && v != start implies pos[prev@[v] as int] < head || (prev@[v] == u
                            && exists|x: int| 0 <= x < k + 1 && g.nbrs(u as int)[x] == v) by {
                        if v == nb as int {
                            assert(g.nbrs(u as int)[k as int] == v);
                        } else {
                            assert(seen0[v]);
                            assert(prev@[v] == prev0[v]);
                            assert(seen0[prev0[v] as int]) by {
                                reveal(bfs_tree);
                            }
                            assert(!seen0[nb as int]);
                            assert(prev0[v] as int != nb as int);
                            assert(pos[prev0[v] as int] == pos0[prev0[v] as int]);
                        }
                    }
                }
            }
            proof {
                reveal(bfs_layers);
                reveal(bfs_queue);
                assert forall|j: int|
                    0 <= j < k + 1 && g.step_ok(u as int, #[trigger] g.nbrs(u as int)[j])
                        && node_open(g, ow, g.nbrs(u as int)[j]) implies seen@[g.nbrs(u as int)[j]] && dist[g.nbrs(
                        u as int,
                    )[j]] <= dist[u as int] + 1 by {
                    if j < k {
                        assert(seen0[g.nbrs(u as int)[j]]);
                    } else {
                        let w = g.nbrs(u as int)[j];
                        assert(w == nb as int);
                        if seen0[w] {
                            assert(seen@[w]);
                            let iw = choose|x: int| 0 <= x < q@.len() && q@[x] == w;
                            assert(dist[q@[iw] as int] <= dist[q@[head as int] as int] + 1);
                        }
                    }
                }
            }
            k = k + 1;
        }
        proof {
            lemma_bfs_expand_done(g, ow, q@, seen@, head as int);
            lemma_layers_advance(g, ow, q@, seen@, dist, head as int);
            reveal(bfs_queue);
            lemma_order_queue(g, start as int, q@, seen@, prev@, pos, head as int);
        }
        head = head + 1;
    }
    proof {
        reveal(bfs_tree);
        reveal(bfs_queue);
        reveal(bfs_expanded);
        assert forall|v: int, j: int|
            #![trigger seen@[v], g.nbrs(v)[j]]
            0 <= v < g.n() && seen@[v] && 0 <= j < g.nbrs(v).len() && g.step_ok(v, g.nbrs(v)[j])
                && node_open(g, ow, g.nbrs(v)[j]) implies seen@[g.nbrs(v)[j]] by {
            let i = choose|i: int| 0 <= i < q@.len() && q@[i] == v;
            assert(q@[i] == v);
        }
        if goal < n && seen@[goal as int] {
            let i = choose|i: int| 0 <= i < q@.len() && q@[i] == goal;
            assert(q@[i] != goal);
        }
        assert forall|v: int| 0 <= v < g.n() implies (seen@[v] <==> #[trigger] reaches(g, occ@, start as int, v)) by {
            if seen@[v] {
                lemma_tree_walk(g, ow, start as int, seen@, prev@, dist, v);
            } else if reaches(g, occ@, start as int, v) {
                let p = choose|p: Seq<usize>| #[trigger] is_walk(g, occ@, p, start as int, v);
                lemma_closed_set_separates(g, ow, seen@, p, start as int, v);
            }
        }
    }
    Err(seen)
}

proof fn lemma_order_pos(g: &WindowGraph, start: int, q: Seq<usize>, seen: Seq<bool>, prev: Seq<usize>, pos: Seq<int>, v: int)
    requires
        bfs_order(g, start, q, seen, prev, pos),
        0 <= v < g.n(),
        seen[v],
    ensures
        0 <= pos[v] < q.len(),
        q[pos[v]] as int == v,
        pos[start] == 0,
        v != start ==> pos[v] != 0,
{
    reveal(bfs_order);
    assert(pos[q[0] as int] == 0);
}

proof fn lemma_order_queue(g: &WindowGraph, start: int, q: Seq<usize>, seen: Seq<bool>, prev: Seq<usize>, pos: Seq<int>, i: int)
    requires
        bfs_order(g, start, q, seen, prev, pos),
        0 <= i < q.len(),
    ensures
        pos[q[i] as int] == i,
{
    reveal(bfs_order);
}

proof fn lemma_order_first(
    g: &WindowGraph,
    start: int,
    q: Seq<usize>,
    seen: Seq<bool>,
    prev: Seq<usize>,
    pos: Seq<int>,
    v: int,
    i: int,
)
    requires
        bfs_order(g, start, q, seen, prev, pos),
        0 <= v < g.n(),
        seen[v],
        v != start,
        0 <= i < pos[prev[v] as int],
    ensures
        !g.step_ok(q[i] as int, v),
{
    reveal(bfs_order);
}

proof fn lemma_order_children(
    g: &WindowGraph,
    start: int,
    q: Seq<usize>,
    seen: Seq<bool>,
    prev: Seq<usize>,
    pos: Seq<int>,
    x: int,
    y: int,
)
    requires
        bfs_order(g, start, q, seen, prev, pos),
        0 <= x < g.n(),
        0 <= y < g.n(),
        seen[x],
        seen[y],
        x != start,
        y != start,
    ensures
        pos[prev[x] as int] < pos[prev[y] as int] ==> pos[x] < pos[y],
        prev[x] == prev[y] && first_before(g, prev[x] as int, x, y) ==> pos[x] < pos[y],
{
    reveal(bfs_order);
}

proof fn lemma_tree_prev(g: &WindowGraph, ow: Set<int>, start: int, seen: Seq<bool>, prev: Seq<usize>, dist: Seq<int>, v: int)
    requires
        bfs_tree(g, ow, start, seen, prev, dist),
        0 <= v < g.n(),
        seen[v],
        v != start,
    ensures
        0 <= prev[v] < g.n(),
        seen[prev[v] as int],
        dist[start] == 0,
{
    reveal(bfs_tree);
}

/// Along two shortest walks to the goal that part at step `j + 1`, the
/// later nodes of `p` sit strictly earlier in the queue than those of the
/// search-tree walk `path`, from the parting on.
proof fn lemma_ahead(
    g: &WindowGraph,
    ow: Set<int>,
    start: int,
    q: Seq<usize>,
    seen: Seq<bool>,
    prev: Seq<usize>,
    dist: Seq<int>,
    pos: Seq<int>,
    p: Seq<usize>,
    path: Seq<usize>,
    j: int,
    m: int,
)
    requires
        g.wf(),
        bfs_tree(g, ow, start, seen, prev, dist),
        bfs_order(g, start, q, seen, prev, pos),
        path.len() >= 1,
        is_walk(g, ow, path, start, path[path.len() - 1] as int),
        is_walk(g, ow, p, start, path[path.len() - 1] as int),
        p.len() == path.len(),
        forall|i: int| 0 <= i < p.len() ==> #[trigger] seen[p[i] as int],
        forall|i: int| 0 <= i < path.len() - 1 ==> prev[#[trigger] path[i + 1] as int] == path[i],
        forall|i: int| 0 <= i < path.len() ==> seen[#[trigger] path[i] as int] && dist[path[i] as int] == i,
        0 <= j,
        j + 1 <= m < path.len(),
        forall|i: int| 0 <= i <= j ==> #[trigger] p[i] == path[i],
        first_before(g, path[j] as int, p[j + 1] as int, path[j + 1] as int),
    ensures
        pos[p[m] as int] < pos[path[m] as int],
    decreases m,
{
    let y = path[m] as int;
    let x = p[m] as int;
    let v = p[m - 1] as int;
    assert(seen[y] && dist[y] == m);
    assert(seen[path[0] as int] && dist[path[0] as int] == 0);
    assert(0 <= y < g.n()) by {
        assert(node_open(g, ow, path[m] as int));
    }
    assert(node_open(g, ow, x));
    assert(node_open(g, ow, v));
    assert(g.step_ok(v, x));
    assert(seen[x]);
    assert(seen[v]);
    assert(path[0] as int == start);
    if y == start {
        lemma_tree_prev(g, ow, start, seen, prev, dist, x);
        assert(false);
    }
    assert(prev[y] as int == path[m - 1]);
    lemma_order_pos(g, start, q, seen, prev, pos, v);
    lemma_order_pos(g, start, q, seen, prev, pos, y);
    lemma_order_pos(g, start, q, seen, prev, pos, x);
    if m == j + 1 {
        assert(v == path[j]);
        let x0 = choose|x0: int|
            0 <= x0 < g.nbrs(v).len() && #[trigger] g.nbrs(v)[x0] == x && forall|z: int| 0 <= z <= x0 ==> #[trigger] g.nbrs(v)[z]
                != y;
        assert(g.nbrs(v)[x0] != y);
        if x != start {
            lemma_tree_prev(g, ow, start, seen, prev, dist, x);
            lemma_order_pos(g, start, q, seen, prev, pos, prev[x] as int);
            if pos[v] < pos[prev[x] as int] {
                lemma_order_first(g, start, q, seen, prev, pos, x, pos[v]);
            }
            lemma_order_children(g, start, q, seen, prev, pos, x, y);
            if pos[prev[x] as int] == pos[v] {
                assert(prev[x] as int == v);
            }
        }
    } else {
        lemma_ahead(g, ow, start, q, seen, prev, dist, pos, p, path, j, m - 1);
        assert(pos[v] < pos[path[m - 1] as int]);
        if x == y {
            lemma_order_first(g, start, q, seen, prev, pos, y, pos[v]);
        } else if x != start {
            lemma_tree_prev(g, ow, start, seen, prev, dist, x);
            lemma_order_pos(g, start, q, seen, prev, pos, prev[x] as int);
            if pos[v] < pos[prev[x] as int] {
                lemma_order_first(g, start, q, seen, prev, pos, x, pos[v]);
            }
            lemma_order_children(g, start, q, seen, prev, pos, x, y);
        }
    }
}

/// The search-tree walk to the goal comes first, in the order of step
/// directions, among all shortest walks to it.
proof fn lemma_first_in_order(
    g: &WindowGraph,
    ow: Set<int>,
    start: int,
    q: Seq<usize>,
    seen: Seq<bool>,
    prev: Seq<usize>,
    dist: Seq<int>,
    pos: Seq<int>,
    head: int,
    goal: int,
    path: Seq<usize>,
    p: Seq<usize>,
)
    requires
        g.wf(),
        bfs_tree(g, ow, start, seen, prev, dist),
        bfs_queue(g.n(), q, seen, head, goal),
        bfs_layers(g, ow, q, seen, dist, head),
        bfs_order(g, start, q, seen, prev, pos),
        0 <= head < q.len(),
        q[head] == goal,
        is_walk(g, ow, path, start, goal),
        path.len() == dist[goal] + 1,
        forall|i: int| 0 <= i < path.len() - 1 ==> prev[#[trigger] path[i + 1] as int] == path[i],
        forall|i: int| 0 <= i < path.len() ==> seen[#[trigger] path[i] as int] && dist[path[i] as int] == i,
        is_walk(g, ow, p, start, goal),
        p.len() == path.len(),
    ensures
        !walk_precedes(g, p, path),
{
    assert forall|i: int| 0 <= i < p.len() implies #[trigger] seen[p[i] as int] by {
        lemma_walk_layers(g, ow, start, q, seen, prev, dist, head, goal, p, i);
    }
    if walk_precedes(g, p, path) {
        let j = choose|j: int|
            0 <= j && j + 1 < path.len() && j + 1 < p.len() && (forall|m: int| 0 <= m <= j ==> #[trigger] p[m] == path[m])
                && #[trigger] first_before(g, path[j] as int, p[j + 1] as int, path[j + 1] as int);
        let last = path.len() - 1;
        lemma_ahead(g, ow, start, q, seen, prev, dist, pos, p, path, j, last);
        assert(p[last] == path[last]);
    }
}

/// Follow `prev` links from `goal` back to `start` and return the walk in
/// forward order.
#[verifier::rlimit(40)]
fn walk_back(
    g: &WindowGraph,
    ow: Ghost<Set<int>>,
    prev: &Vec<usize>,
    dist: Ghost<Seq<int>>,
    seen: Ghost<Seq<bool>>,
    start: usize,
    goal: usize,
) -> (path: Vec<usize>)
    requires
        g.wf(),
        start < g.n(),
        goal < g.n(),
        prev@.len() == g.n(),
        dist@.len() == g.n(),
        seen@.len() == g.n(),
        seen@[goal as int],
        seen@[start as int],
        dist@[start as int] == 0,
        forall|v: int| 0 <= v < g.n() && #[trigger] seen@[v] ==> node_open(g, ow@, v) && dist@[v] >= 0,
        forall|v: int|
            0 <= v < g.n() && #[trigger] seen@[v] && v != start ==> {
                &&& prev@[v] < g.n()
                &&& seen@[prev@[v] as int]
                &&& dist@[prev@[v] as int] + 1 == dist@[v]
                &&& g.step_ok(prev@[v] as int, v)
            },
    ensures
        is_walk(g, ow@, path@, start as int, goal as int),
        no_repeats(path@),
        path@.len() == dist@[goal as int] + 1,
        forall|i: int| 0 <= i < path@.len() - 1 ==> prev@[#[trigger] path@[i + 1] as int] == path@[i],
        forall|i: int| 0 <= i < path@.len() ==> seen@[#[trigger] path@[i] as int] && dist@[path@[i] as int] == i,
{
    let ghost d = dist@;
    let mut back: Vec<usize> = Vec::new();
    back.push(goal);
    let mut cur = goal;
    while cur != start
        invariant
            g.wf(),
            start < g.n(),
            prev@.len() == g.n(),
            d.len() == g.n(),
            seen@.len() == g.n(),
            d[start as int] == 0,
            forall|v: int| 0 <= v < g.n() && #[trigger] seen@[v] ==> node_open(g, ow@, v) && d[v] >= 0,
            forall|v: int|
                0 <= v < g.n() && #[trigger] seen@[v] && v != start ==> {
                    &&& prev@[v] < g.n()
                    &&& seen@[prev@[v] as int]
                    &&& d[prev@[v] as int] + 1 == d[v]
                    &&& g.step_ok(prev@[v] as int, v)
                },
            cur < g.n(),
            seen@[cur as int],
            back@.len() >= 1,
            back@[0] == goal,
            back@[back@.len() - 1] == cur,
            forall|j: int| 0 <= j < back@.len() ==> #[trigger] back@[j] < g.n() && seen@[back@[j] as int]
                && d[back@[j] as int] == d[goal as int] - j,
            forall|j: int| 0 <= j < back@.len() - 1 ==> g.step_ok(#[trigger] back@[j + 1] as int, back@[j] as int),
            forall|j: int| 0 <= j < back@.len() - 1 ==> prev@[#[trigger] back@[j] as int] == back@[j + 1],
        decreases d[cur as int],
    {
        cur = prev[cur];
        back.push(cur);
    }
    let mut path: Vec<usize> = Vec::new();
    let len = back.len();
    let mut j: usize = 0;
    while j < len
        invariant
            len == back@.len(),
            j <= len,
            path@.len() == j,
            forall|i: int| 0 <= i < j ==> #[trigger] path@[i] == back@[len - 1 - i],
        decreases len - j,
    {
        path.push(back[len - 1 - j]);
        j = j + 1;
    }
    proof {
        assert forall|i: int| 0 <= i < path@.len() implies node_open(g, ow@, #[trigger] path@[i] as int) by {
            assert(path@[i] == back@[len - 1 - i]);
        }
        assert forall|i: int| 0 <= i < path@.len() - 1 implies g.step_ok(#[trigger] path@[i] as int, path@[i + 1] as int) by {
            assert(path@[i] == back@[len - 1 - i]);
            assert(path@[i + 1] == back@[len - 1 - (i + 1)]);
            assert(back@[(len - 2 - i) + 1] == back@[len - 1 - i]);
        }
        assert forall|a: int, b: int| 0 <= a < b < path@.len() implies path@[a] != path@[b] by {
            assert(path@[a] == back@[len - 1 - a]);
            assert(path@[b] == back@[len - 1 - b]);
        }
        assert(back@[len - 1] == start);
        assert(d[start as int] == d[goal as int] - (len - 1));
        assert forall|i: int| 0 <= i < path@.len() - 1 implies prev@[#[trigger] path@[i + 1] as int] == path@[i] by {
            assert(path@[i] == back@[len - 1 - i]);
            assert(path@[i + 1] == back@[len - 1 - (i + 1)]);
            assert(back@[(len - 2 - i) + 1] == back@[len - 1 - i]);
        }
        assert forall|i: int| 0 <= i < path@.len() implies seen@[#[trigger] path@[i] as int] && dist@[path@[i] as int] == i by {
            assert(path@[i] == back@[len - 1 - i]);
        }
    }
    path
}


/// `|a - b|`.
pub open spec fn abs_diff(a: int, b: int) -> int {
    if a >= b { a - b } else { b - a }
}

/// Manhattan span, in cells and layers, between two grid nodes.
pub open spec fn term_span(nx: int, plane: int, s: int, t: int) -> int {
    abs_diff((s % plane) % nx, (t % plane) % nx) + abs_diff((s % plane) / nx, (t % plane) / nx)
        + abs_diff(s / plane, t / plane)
}

/// The span of a connection is the full 3-D Manhattan distance between its
/// terminals: in a window `nx` cells wide and `ny` rows tall, the node of
/// cell `(x1, y1)` on layer `l1` and that of `(x2, y2)` on layer `l2` lie
/// `|x1 - x2| + |y1 - y2| + |l1 - l2|` apart, a layer change included.
pub proof fn lemma_span_is_manhattan(nx: int, ny: int, x1: int, y1: int, l1: int, x2: int, y2: int, l2: int)
    requires
        nx >= 1,
        ny >= 1,
        0 <= x1 < nx,
        0 <= x2 < nx,
        0 <= y1 < ny,
        0 <= y2 < ny,
        l1 >= 0,
        l2 >= 0,
    ensures
        term_span(nx, nx * ny, l1 * (nx * ny) + y1 * nx + x1, l2 * (nx * ny) + y2 * nx + x2) == (if x1 >= x2 {
            x1 - x2
        } else {
            x2 - x1
        }) + (if y1 >= y2 {
            y1 - y2
        } else {
            y2 - y1
        }) + (if l1 >= l2 {
            l1 - l2
        } else {
            l2 - l1
        }),
{
    let p = nx * ny;
    let c1 = y1 * nx + x1;
    let c2 = y2 * nx + x2;
    assert(c1 < p && c2 < p && c1 >= 0 && c2 >= 0) by (nonlinear_arith)
        requires
            nx >= 1,
            0 <= x1 < nx,
            0 <= x2 < nx,
            0 <= y1 < ny,
            0 <= y2 < ny,
            p == nx * ny,
            c1 == y1 * nx + x1,
            c2 == y2 * nx + x2,
    ;
    vstd::arithmetic::div_mod::lemma_fundamental_div_mod_converse(l1 * p + c1, p, l1, c1);
    vstd::arithmetic::div_mod::lemma_fundamental_div_mod_converse(l2 * p + c2, p, l2, c2);
    vstd::arithmetic::div_mod::lemma_fundamental_div_mod_converse(c1, nx, y1, x1);
    vstd::arithmetic::div_mod::lemma_fundamental_div_mod_converse(c2, nx, y2, x2);
    assert(l1 * (nx * ny) + y1 * nx + x1 == l1 * p + c1);
    assert(l2 * (nx * ny) + y2 * nx + x2 == l2 * p + c2);
}

/// Two nodes of one cell on different layers are a positive span apart:
/// the layer change counts.
pub proof fn lemma_layer_change_spans(nx: int, ny: int, x: int, y: int, l1: int, l2: int)
    requires
        nx >= 1,
        ny >= 1,
        0 <= x < nx,
        0 <= y < ny,
        0 <= l1 < l2,
    ensures
        term_span(nx, nx * ny, l1 * (nx * ny) + y * nx + x, l2 * (nx * ny) + y * nx + x) == l2 - l1 > 0,
{
    lemma_span_is_manhattan(nx, ny, x, y, l1, x, y, l2);
}

/// Terminal spans of every connection.
pub open spec fn term_spans(terms: Seq<(usize, usize)>, nx: int, plane: int) -> Seq<u64> {
    Seq::new(terms.len(), |i: int| term_span(nx, plane, terms[i].0 as int, terms[i].1 as int) as u64)
}

/// `0, 1, …, k-1`.
pub open spec fn identity_order(k: nat) -> Seq<usize> {
    Seq::new(k, |i: int| i as usize)
}

/// `base` followed by each of `extra` not already listed.
pub open spec fn append_new(base: Seq<Seq<usize>>, o: Seq<usize>) -> Seq<Seq<usize>> {
    if base.contains(o) { base } else { base.push(o) }
}

fn span_of(nx: usize, plane: usize, s: usize, t: usize) -> (r: u64)
    requires
        nx >= 1,
        plane >= 1,
        term_span(nx as int, plane as int, s as int, t as int) <= u64::MAX,
    ensures
        r as int == term_span(nx as int, plane as int, s as int, t as int),
{
    let (sx, sy, sl) = ((s % plane) % nx, (s % plane) / nx, s / plane);
    let (tx, ty, tl) = ((t % plane) % nx, (t % plane) / nx, t / plane);
    let dx = if sx >= tx { sx - tx } else { tx - sx };
    let dy = if sy >= ty { sy - ty } else { ty - sy };
    let dl = if sl >= tl { sl - tl } else { tl - sl };
    (dx as u64) + (dy as u64) + (dl as u64)
}

fn same_order(a: &Vec<usize>, b: &Vec<usize>) -> (r: bool)
    ensures
        r == (a@ == b@),
{
    if a.len() != b.len() {
        return false;
    }
    let mut i: usize = 0;
    while i < a.len()
        invariant
            a@.len() == b@.len(),
            i <= a@.len(),
            forall|j: int| 0 <= j < i ==> a@[j] == b@[j],
        decreases a@.len() - i,
    {
        if a[i] != b[i] {
            return false;
        }
        i = i + 1;
    }
    assert(a@ =~= b@);
    true
}

fn contains_order(orders: &Vec<Vec<usize>>, o: &Vec<usize>) -> (r: bool)
    ensures
        r == orders@.map_values(|v: Vec<usize>| v@).contains(o@),
{
    let ghost views = orders@.map_values(|v: Vec<usize>| v@);
    let mut i: usize = 0;
    while i < orders.len()
        invariant
            views == orders@.map_values(|v: Vec<usize>| v@),
            i <= orders@.len(),
            forall|j: int| 0 <= j < i ==> views[j] != o@,
        decreases orders@.len() - i,
    {
        if same_order(&orders[i], o) {
            assert(views[i as int] == o@);
            return true;
        }
        i = i + 1;
    }
    false
}

/// Deterministic connection orders for the witness attempt: as given, then
/// longest terminal span first, then shortest first (ties by connection
/// index), each only if not already listed.
pub fn attempt_orders(terms: &Vec<(usize, usize)>, nx: usize, plane: usize) -> (orders: Vec<Vec<usize>>)
    requires
        nx >= 1,
        plane >= 1,
        forall|i: int| 0 <= i < terms@.len() ==>
            term_span(nx as int, plane as int, #[trigger] terms@[i].0 as int, terms@[i].1 as int) <= u64::MAX,
    ensures
        exists|longest: Seq<usize>, shortest: Seq<usize>| {
            &&& sorted_permutation(term_spans(terms@, nx as int, plane as int), true, longest)
            &&& sorted_permutation(term_spans(terms@, nx as int, plane as int), false, shortest)
            &&& orders@.map_values(|v: Vec<usize>| v@) == append_new(
                append_new(seq![identity_order(terms@.len())], longest),
                shortest,
            )
        },
{
    let k = terms.len();
    let mut keys: Vec<u64> = Vec::new();
    let mut i: usize = 0;
    while i < k
        invariant
            k == terms@.len(),
            nx >= 1,
            plane >= 1,
            i <= k,
            forall|j: int| 0 <= j < terms@.len() ==>
                term_span(nx as int, plane as int, #[trigger] terms@[j].0 as int, terms@[j].1 as int) <= u64::MAX,
            keys@ == term_spans(terms@, nx as int, plane as int).subrange(0, i as int),
        decreases k - i,
    {
        let (s, t) = terms[i];
        keys.push(span_of(nx, plane, s, t));
        i = i + 1;
    }
    assert(keys@ =~= term_spans(terms@, nx as int, plane as int));
    let mut identity: Vec<usize> = Vec::new();
    let mut j: usize = 0;
    while j < k
        invariant
            j <= k,
            identity@ == identity_order(j as nat),
        decreases k - j,
    {
        identity.push(j);
        j = j + 1;
        assert(identity@ =~= identity_order(j as nat));
    }
    let longest = sort_indices_by_key(&keys, true);
    let shortest = sort_indices_by_key(&keys, false);
    let mut orders: Vec<Vec<usize>> = Vec::new();
    orders.push(identity);
    let ghost base = seq![identity_order(terms@.len())];
    assert(orders@.map_values(|v: Vec<usize>| v@) =~= base);
    if !contains_order(&orders, &longest) {
        orders.push(longest.clone());
    }
    let ghost base2 = append_new(base, longest@);
    assert(orders@.map_values(|v: Vec<usize>| v@) =~= base2);
    if !contains_order(&orders, &shortest) {
        orders.push(shortest.clone());
    }
    assert(orders@.map_values(|v: Vec<usize>| v@) =~= append_new(base2, shortest@));
    orders
}


/// The nodes a path visits.
pub open spec fn path_nodes(p: Seq<usize>) -> Set<int> {
    Set::new(|v: int| exists|i: int| 0 <= i < p.len() && p[i] as int == v)
}

/// Two paths share no node.
pub open spec fn node_disjoint(p: Seq<usize>, q: Seq<usize>) -> bool {
    forall|a: int, b: int| 0 <= a < p.len() && 0 <= b < q.len() ==> p[a] != q[b]
}

/// Every connection index is in range and both terminals are nodes.
pub open spec fn terms_ok(g: &WindowGraph, terms: Seq<(usize, usize)>) -> bool {
    forall|i: int| 0 <= i < terms.len() ==> #[trigger] terms[i].0 < g.n() && terms[i].1 < g.n()
}

/// The connections named by `order` are distinct, and each has a simple
/// walk between its terminals in `paths`, pairwise node-disjoint.
pub open spec fn routed_in_order(
    g: &WindowGraph,
    terms: Seq<(usize, usize)>,
    order: Seq<usize>,
    paths: Seq<Seq<usize>>,
) -> bool {
    &&& forall|j: int| 0 <= j < order.len() ==> {
        let c = #[trigger] order[j] as int;
        &&& is_walk(g, Set::empty(), paths[c], terms[c].0 as int, terms[c].1 as int)
        &&& no_repeats(paths[c])
    }
    &&& forall|a: int, b: int|
        0 <= a < b < order.len() ==> #[trigger] order[a] != #[trigger] order[b]
            && node_disjoint(paths[order[a] as int], paths[order[b] as int])
}

/// The nodes taken by the paths of the first `j` connections of `order`.
pub open spec fn taken(order: Seq<usize>, paths: Seq<Seq<usize>>, j: int) -> Set<int> {
    Set::new(|v: int| exists|m: int| 0 <= m < j && #[trigger] path_nodes(paths[order[m] as int]).contains(v))
}

/// Each of the first `j` connections of `order` took a shortest simple walk
/// through the nodes that the connections before it left free.
pub open spec fn greedy_prefix(
    g: &WindowGraph,
    terms: Seq<(usize, usize)>,
    order: Seq<usize>,
    paths: Seq<Seq<usize>>,
    j: int,
) -> bool {
    forall|m: int|
        0 <= m < j ==> {
            let c = #[trigger] order[m] as int;
            let occ = taken(order, paths, m);
            &&& is_walk(g, occ, paths[c], terms[c].0 as int, terms[c].1 as int)
            &&& no_repeats(paths[c])
            &&& forall|q: Seq<usize>| #[trigger] is_walk(g, occ, q, terms[c].0 as int, terms[c].1 as int) ==> paths[c].len() <= q.len()
        }
}

/// The greedy routing stalls at position `j` of `order`: the connections
/// before it took the shortest walks `paths`, and connection `order[j]` has
/// no walk through the nodes they left free.
pub open spec fn stalls_at(
    g: &WindowGraph,
    terms: Seq<(usize, usize)>,
    order: Seq<usize>,
    paths: Seq<Seq<usize>>,
    j: int,
) -> bool {
    &&& 0 <= j < order.len()
    &&& greedy_prefix(g, terms, order, paths, j)
    &&& !reaches(g, taken(order, paths, j), terms[order[j] as int].0 as int, terms[order[j] as int].1 as int)
}

/// Along `order`, the greedy routing never stalls, whichever shortest walks
/// the connections before take.
pub open spec fn never_stalls(g: &WindowGraph, terms: Seq<(usize, usize)>, order: Seq<usize>) -> bool {
    forall|ps: Seq<Seq<usize>>, j: int| !#[trigger] stalls_at(g, terms, order, ps, j)
}

/// The taken nodes depend only on the paths of the connections counted.
pub proof fn lemma_taken_frame(order: Seq<usize>, ps: Seq<Seq<usize>>, qs: Seq<Seq<usize>>, j: int)
    requires
        forall|m: int| 0 <= m < j ==> ps[#[trigger] order[m] as int] == qs[order[m] as int],
    ensures
        taken(order, ps, j) == taken(order, qs, j),
{
    assert forall|v: int| taken(order, ps, j).contains(v) <==> taken(order, qs, j).contains(v) by {
        if taken(order, ps, j).contains(v) {
            let m = choose|m: int| 0 <= m < j && #[trigger] path_nodes(ps[order[m] as int]).contains(v);
            assert(ps[order[m] as int] == qs[order[m] as int]);
            assert(path_nodes(qs[order[m] as int]).contains(v));
        }
        if taken(order, qs, j).contains(v) {
            let m = choose|m: int| 0 <= m < j && #[trigger] path_nodes(qs[order[m] as int]).contains(v);
            assert(ps[order[m] as int] == qs[order[m] as int]);
            assert(path_nodes(ps[order[m] as int]).contains(v));
        }
    }
    assert(taken(order, ps, j) =~= taken(order, qs, j));
}

/// `q` is a walk from `s` to `t` no other walk is shorter than.
pub open spec fn shortest_walk(g: &WindowGraph, occ: Set<int>, q: Seq<usize>, s: int, t: int) -> bool {
    &&& is_walk(g, occ, q, s, t)
    &&& forall|r: Seq<usize>| #[trigger] is_walk(g, occ, r, s, t) ==> q.len() <= r.len()
}

/// Where a walk exists, a shortest one exists.
pub proof fn lemma_shortest_walk_exists(g: &WindowGraph, occ: Set<int>, p: Seq<usize>, s: int, t: int)
    requires
        is_walk(g, occ, p, s, t),
    ensures
        exists|q: Seq<usize>| #[trigger] shortest_walk(g, occ, q, s, t),
    decreases p.len(),
{
    if forall|r: Seq<usize>| #[trigger] is_walk(g, occ, r, s, t) ==> p.len() <= r.len() {
        assert(shortest_walk(g, occ, p, s, t));
    } else {
        let r = choose|r: Seq<usize>| #[trigger] is_walk(g, occ, r, s, t) && r.len() < p.len();
        lemma_shortest_walk_exists(g, occ, r, s, t);
    }
}

/// A shortest walk repeats no node: cutting out the loop between two visits
/// would shorten it.
pub proof fn lemma_shortest_walk_simple(g: &WindowGraph, occ: Set<int>, q: Seq<usize>, s: int, t: int)
    requires
        shortest_walk(g, occ, q, s, t),
    ensures
        no_repeats(q),
{
    if !no_repeats(q) {
        let (i, j) = choose|i: int, j: int| 0 <= i < j < q.len() && q[i] == q[j];
        let r = q.take(i + 1) + q.skip(j + 1);
        let d = j - i;
        assert(r.len() == q.len() - d);
        assert forall|x: int| 0 <= x < r.len() implies r[x] == (if x <= i { q[x] } else { q[x + d] }) by {
            if x <= i {
                assert(r[x] == q.take(i + 1)[x]);
            } else {
                assert(r[x] == q.skip(j + 1)[x - (i + 1)]);
            }
        }
        assert forall|x: int| 0 <= x < r.len() implies node_open(g, occ, #[trigger] r[x] as int) by {
            if x <= i {
                assert(node_open(g, occ, q[x] as int));
            } else {
                assert(node_open(g, occ, q[x + d] as int));
            }
        }
        assert forall|x: int| 0 <= x < r.len() - 1 implies g.step_ok(#[trigger] r[x] as int, r[x + 1] as int) by {
            if x < i {
                assert(g.step_ok(q[x] as int, q[x + 1] as int));
            } else {
                assert(r[x] == q[x + d]);
                assert(r[x + 1] == q[x + 1 + d]);
                assert(g.step_ok(q[x + d] as int, q[x + d + 1] as int));
            }
        }
        assert(r[r.len() - 1] == t as usize) by {
            if r.len() - 1 <= i {
                assert(r.len() - 1 == i);
                assert(j == q.len() - 1);
            } else {
                assert(r[r.len() - 1] == q[r.len() - 1 + d]);
            }
        }
        assert(is_walk(g, occ, r, s, t));
    }
}

/// Mark every node of `path` in `occ`.
fn occupy_path(occ: &mut BitSet, path: &Vec<usize>, n: usize)
    requires
        old(occ).capacity() >= n,
        forall|i: int| 0 <= i < path@.len() ==> #[trigger] path@[i] < n,
    ensures
        final(occ).capacity() == old(occ).capacity(),
        final(occ)@ == old(occ)@.union(path_nodes(path@)),
{
    let mut i: usize = 0;
    while i < path.len()
        invariant
            occ.capacity() == old(occ).capacity(),
            occ.capacity() >= n,
            forall|j: int| 0 <= j < path@.len() ==> #[trigger] path@[j] < n,
            i <= path@.len(),
            occ@ == old(occ)@.union(path_nodes(path@.subrange(0, i as int))),
        decreases path@.len() - i,
    {
        let ghost before = occ@;
        occ.set(path[i]);
        proof {
            assert(occ@ =~= before.insert(path@[i as int] as int));
            let sub1 = path@.subrange(0, i + 1);
            let sub0 = path@.subrange(0, i as int);
            assert(path_nodes(sub1) =~= path_nodes(sub0).insert(path@[i as int] as int)) by {
                assert forall|v: int| path_nodes(sub1).contains(v) implies path_nodes(sub0).insert(
                    path@[i as int] as int,
                ).contains(v) by {
                    let k = choose|k: int| 0 <= k < sub1.len() && #[trigger] sub1[k] as int == v;
                    if k < i {
                        assert(sub0[k] as int == v);
                    }
                }
                assert forall|v: int| path_nodes(sub0).insert(path@[i as int] as int).contains(v) implies path_nodes(
                    sub1,
                ).contains(v) by {
                    if v == path@[i as int] as int {
                        assert(sub1[i as int] as int == v);
                    } else {
                        let k = choose|k: int| 0 <= k < sub0.len() && #[trigger] sub0[k] as int == v;
                        assert(sub1[k] as int == v);
                    }
                }
            }
            assert(occ@ =~= old(occ)@.union(path_nodes(path@.subrange(0, i + 1))));
        }
        i = i + 1;
    }
    assert(path@.subrange(0, path@.len() as int) =~= path@);
}

/// Route the connections in `order`, each taking a shortest path through the
/// nodes its predecessors left free. `Some` holds per-connection paths
/// (indexed by connection, empty for connections not in `order`) forming a
/// node-disjoint joint routing of the ordered connections; `None` means the
/// greedy routing stalled on a connection with no walk left, which says
/// nothing of other orders or other paths.
pub fn sequential_bfs(g: &WindowGraph, order: &Vec<usize>, terms: &Vec<(usize, usize)>) -> (r: Option<
    Vec<Vec<usize>>,
>)
    requires
        g.wf(),
        terms_ok(g, terms@),
        forall|j: int| 0 <= j < order@.len() ==> #[trigger] order@[j] < terms@.len(),
    ensures
        r matches Some(paths) ==> {
            &&& paths@.len() == terms@.len()
            &&& routed_in_order(g, terms@, order@, paths@.map_values(|p: Vec<usize>| p@))
            &&& greedy_prefix(g, terms@, order@, paths@.map_values(|p: Vec<usize>| p@), order@.len() as int)
            &&& forall|c: int| 0 <= c < terms@.len() && !order@.contains(c as usize) ==> (#[trigger] paths@[c])@.len() == 0
        },
        r is None ==> exists|ps: Seq<Seq<usize>>, j: int| #[trigger] stalls_at(g, terms@, order@, ps, j),
{
    proof {
        g.lemma_sizes();
    }
    let n = g.free.len();
    let k = terms.len();
    let mut occ = BitSet::new(n);
    let mut paths: Vec<Vec<usize>> = Vec::new();
    let mut c: usize = 0;
    while c < k
        invariant
            c <= k,
            paths@.len() == c,
            forall|x: int| 0 <= x < c ==> (#[trigger] paths@[x])@.len() == 0,
        decreases k - c,
    {
        paths.push(Vec::new());
        c = c + 1;
    }
    let mut j: usize = 0;
    while j < order.len()
        invariant
            g.wf(),
            n == g.n(),
            k == terms@.len(),
            terms_ok(g, terms@),
            forall|x: int| 0 <= x < order@.len() ==> #[trigger] order@[x] < terms@.len(),
            j <= order@.len(),
            occ.capacity() >= n,
            paths@.len() == k,
            forall|v: int| #[trigger] occ@.contains(v) <==> exists|m: int|
                0 <= m < j && path_nodes(paths@[order@[m] as int]@).contains(v),
            routed_in_order(g, terms@, order@.subrange(0, j as int), paths@.map_values(|p: Vec<usize>| p@)),
            greedy_prefix(g, terms@, order@, paths@.map_values(|p: Vec<usize>| p@), j as int),
            forall|c: int|
                0 <= c < k && (forall|m: int| 0 <= m < j ==> order@[m] != c as usize) ==> (#[trigger] paths@[c])@.len()
                    == 0,
        decreases order@.len() - j,
    {
        let i = order[j];
        let (s, t) = terms[i];
        proof {
            let pv = paths@.map_values(|p: Vec<usize>| p@);
            assert forall|v: int| occ@.contains(v) <==> taken(order@, pv, j as int).contains(v) by {
                if occ@.contains(v) {
                    let m = choose|m: int| 0 <= m < j && path_nodes(paths@[order@[m] as int]@).contains(v);
                    assert(pv[order@[m] as int] == paths@[order@[m] as int]@);
                }
                if taken(order@, pv, j as int).contains(v) {
                    let m = choose|m: int| 0 <= m < j && #[trigger] path_nodes(pv[order@[m] as int]).contains(v);
                    assert(pv[order@[m] as int] == paths@[order@[m] as int]@);
                }
            }
            assert(occ@ =~= taken(order@, pv, j as int));
            assert(terms@[i as int].0 < g.n() && terms@[i as int].1 < g.n());
        }
        if occ.get(t) {
            proof {
                let pv = paths@.map_values(|p: Vec<usize>| p@);
                if reaches(g, occ@, s as int, t as int) {
                    let p = choose|p: Seq<usize>| #[trigger] is_walk(g, occ@, p, s as int, t as int);
                    assert(node_open(g, occ@, p[p.len() - 1] as int));
                }
                assert(stalls_at(g, terms@, order@, pv, j as int));
            }
            return None;
        }
        let path = match bfs_path(g, s, t, &occ) {
            Ok(p) => p,
            Err(seen) => {
                proof {
                    let pv = paths@.map_values(|p: Vec<usize>| p@);
                    assert(seen@[t as int] <==> reaches(g, occ@, s as int, t as int));
                    assert(!seen@[t as int]);
                    assert(stalls_at(g, terms@, order@, pv, j as int));
                }
                return None;
            },
        };
        let ghost old_paths = paths@.map_values(|p: Vec<usize>| p@);
        let ghost old_occ = occ@;
        proof {
            // i was not routed yet: its target would be occupied.
            assert forall|m: int| 0 <= m < j implies order@[m] != i by {
                if order@[m] == i {
                    let pm = paths@[i as int]@;
                    assert(order@.subrange(0, j as int)[m] == i);
                    assert(pm[pm.len() - 1] == t);
                    assert(path_nodes(pm).contains(t as int));
                    assert(occ@.contains(t as int));
                }
            }
        }
        occupy_path(&mut occ, &path, n);
        paths.set(i, path);
        proof {
            let np = paths@.map_values(|p: Vec<usize>| p@);
            let pi = np[i as int];
            let ord = order@.subrange(0, j + 1);
            assert forall|x: int| 0 <= x < ord.len() implies {
                let c = #[trigger] ord[x] as int;
                &&& is_walk(g, Set::empty(), np[c], terms@[c].0 as int, terms@[c].1 as int)
                &&& no_repeats(np[c])
            } by {
                if x < j {
                    assert(ord[x] == order@.subrange(0, j as int)[x]);
                    assert(np[ord[x] as int] == old_paths[ord[x] as int]);
                }
            }
            assert forall|a: int, b: int| 0 <= a < b < ord.len() implies #[trigger] ord[a] != #[trigger] ord[b]
                && node_disjoint(np[ord[a] as int], np[ord[b] as int]) by {
                if b < j {
                    assert(ord[a] == order@.subrange(0, j as int)[a]);
                    assert(ord[b] == order@.subrange(0, j as int)[b]);
                } else {
                    assert(ord[a] == order@[a]);
                    let pa = np[ord[a] as int];
                    assert(pa == old_paths[order@[a] as int]);
                    assert forall|x: int, y: int| 0 <= x < pa.len() && 0 <= y < pi.len() implies pa[x] != pi[y] by {
                        assert(path_nodes(old_paths[order@[a] as int]).contains(pa[x] as int));
                        assert(old_occ.contains(pa[x] as int));
                        assert(node_open(g, old_occ, pi[y] as int));
                    }
                }
            }
            assert forall|m: int| 0 <= m < j + 1 implies {
                let c = #[trigger] order@[m] as int;
                let oc = taken(order@, np, m);
                &&& is_walk(g, oc, np[c], terms@[c].0 as int, terms@[c].1 as int)
                &&& no_repeats(np[c])
                &&& forall|q: Seq<usize>| #[trigger] is_walk(g, oc, q, terms@[c].0 as int, terms@[c].1 as int) ==> np[c].len() <= q.len()
            } by {
                assert forall|x: int| 0 <= x < m implies np[#[trigger] order@[x] as int] == old_paths[order@[x] as int] by {
                    assert(order@[x] != i);
                }
                lemma_taken_frame(order@, np, old_paths, m);
                if m == j {
                    assert(np[i as int] == path@);
                    assert(old_occ == taken(order@, old_paths, j as int));
                } else {
                    assert(order@[m] != i);
                    assert(np[order@[m] as int] == old_paths[order@[m] as int]);
                }
            }
            assert forall|c: int|
                0 <= c < k && (forall|m: int| 0 <= m < j + 1 ==> order@[m] != c as usize) implies (#[trigger] paths@[c])@.len()
                    == 0 by {
                assert(order@[j as int] != c as usize);
                assert(forall|m: int| 0 <= m < j ==> order@[m] != c as usize);
            }
            assert forall|v: int| #[trigger] occ@.contains(v) <==> exists|m: int|
                0 <= m < j + 1 && path_nodes(paths@[order@[m] as int]@).contains(v) by {
                if occ@.contains(v) {
                    if old_occ.contains(v) {
                        let m = choose|m: int| 0 <= m < j && path_nodes(old_paths[order@[m] as int]).contains(v);
                        assert(order@[m] != i);
                        assert(path_nodes(paths@[order@[m] as int]@).contains(v));
                    } else {
                        assert(path_nodes(paths@[order@[j as int] as int]@).contains(v));
                    }
                }
                if exists|m: int| 0 <= m < j + 1 && path_nodes(paths@[order@[m] as int]@).contains(v) {
                    let m = choose|m: int| 0 <= m < j + 1 && path_nodes(paths@[order@[m] as int]@).contains(v);
                    if m < j {
                        assert(order@[m] != i);
                        assert(old_occ.contains(v));
                    }
                }
            }
        }
        j = j + 1;
    }
    assert(order@.subrange(0, order@.len() as int) =~= order@);
    Some(paths)
}

/// One census line: the net's name (`<no net>` when empty) and its count.
pub open spec fn census_label(name: Seq<char>, n: nat) -> Seq<char> {
    (if name.len() == 0 {
        "<no net>"@
    } else {
        name
    }) + " ("@ + decimal(n) + ")"@
}

/// The counts of a census, as ordering keys.
pub open spec fn census_counts(census: Seq<(String, usize)>) -> Seq<u64> {
    census.map_values(|e: (String, usize)| e.1 as u64)
}

/// The census lines of the entries `order` ranks first (at most three).
pub open spec fn census_lines(census: Seq<(String, usize)>, order: Seq<usize>) -> Seq<Seq<char>> {
    let top = if order.len() < 3 { order.len() as int } else { 3 };
    order.take(top).map_values(|i: usize| census_label(census[i as int].0@, census[i as int].1 as nat))
}

/// The heaviest blockers named, or the raster's own wording when the census
/// is empty.
pub open spec fn census_text(census: Seq<(String, usize)>, order: Seq<usize>) -> Seq<char> {
    if census.len() == 0 {
        "copper the window's union-legality raster rejects for a sibling net"@
    } else {
        join(census_lines(census, order), ", "@)
    }
}

/// The heaviest few blockers of a census (net name → blocking count, names
/// ascending as in a map), named: `"GND (61), /VDD_5V (4)"`. Ranked by count,
/// highest first, ties by name.
pub fn name_census(census: &Vec<(String, usize)>) -> (r: String)
    requires
        forall|i: int, j: int| 0 <= i < j < census@.len() ==> text_lt(#[trigger] census@[i].0@, #[trigger] census@[j].0@),
    ensures
        exists|order: Seq<usize>| sorted_permutation(census_counts(census@), true, order) && r@ == census_text(census@, order),
{
    if census.len() == 0 {
        let r = String::from_str("copper the window's union-legality raster rejects for a sibling net");
        proof {
            let o = Seq::<usize>::empty();
            assert(census_counts(census@) =~= Seq::<u64>::empty());
            assert(sorted_permutation(census_counts(census@), true, o) && r@ == census_text(census@, o));
        }
        return r;
    }
    let mut keys: Vec<u64> = Vec::new();
    let mut i: usize = 0;
    while i < census.len()
        invariant
            i <= census@.len(),
            keys@ == census_counts(census@).take(i as int),
        decreases census@.len() - i,
    {
        keys.push(census[i].1 as u64);
        proof {
            assert(census_counts(census@).take(i + 1) =~= census_counts(census@).take(i as int).push(census@[i as int].1 as u64));
        }
        i = i + 1;
    }
    proof {
        assert(keys@ =~= census_counts(census@));
    }
    let order = sort_indices_by_key(&keys, true);
    let top: usize = if order.len() < 3 { order.len() } else { 3 };
    let ghost lines = census_lines(census@, order@);
    let mut r = String::new();
    let mut j: usize = 0;
    while j < top
        invariant
            top <= order@.len(),
            top == lines.len(),
            order@.len() == census@.len(),
            forall|x: int| 0 <= x < order@.len() ==> #[trigger] order@[x] < census@.len(),
            lines == census_lines(census@, order@),
            j <= top,
            r@ == join(lines.take(j as int), ", "@),
        decreases top - j,
    {
        proof {
            assert(lines.take(j + 1).drop_last() =~= lines.take(j as int));
        }
        if j > 0 {
            r.append(", ");
        }
        let e = &census[order[j]];
        if e.0.as_str().unicode_len() == 0 {
            r.append("<no net>");
        } else {
            r.append(e.0.as_str());
        }
        r.append(" (");
        r = append_decimal(r, e.1);
        r.append(")");
        proof {
            let lab = census_label(census@[order@[j as int] as int].0@, census@[order@[j as int] as int].1 as nat);
            assert(lines[j as int] == lab);
            if j == 0 {
                assert(r@ =~= lab);
                assert(lines.take(1)[0] == lab);
            } else {
                assert(r@ =~= join(lines.take(j as int), ", "@) + ", "@ + lab);
            }
        }
        j = j + 1;
    }
    proof {
        assert(lines.take(top as int) =~= lines);
        assert(sorted_permutation(census_counts(census@), true, order@) && r@ == census_text(census@, order@));
    }
    r
}

/// Node `v` lies outside `reached` next to a node of `reached` whose index
/// is below `m`.
pub open spec fn borders_below(g: &WindowGraph, reached: Seq<bool>, m: int, v: int) -> bool {
    &&& !reached[v]
    &&& exists|u: int| 0 <= u < m && reached[u] && #[trigger] g.nbrs(u).contains(v)
}

/// Node `v` is on the frontier of the region `reached`: a grid node outside
/// it with a grid neighbour inside it.
pub open spec fn on_frontier(g: &WindowGraph, reached: Seq<bool>, v: int) -> bool {
    0 <= v < g.n() && borders_below(g, reached, g.n(), v)
}

/// The ring of nodes that encloses a searched region: every grid node outside
/// `reached` that neighbours a node inside it, ascending, each once. Empty
/// exactly when no step leaves the region.
pub fn frontier_cut(g: &WindowGraph, reached: &Vec<bool>) -> (cut: Vec<usize>)
    requires
        g.wf(),
        reached@.len() == g.n(),
    ensures
        forall|i: int, j: int| 0 <= i < j < cut@.len() ==> cut@[i] < cut@[j],
        forall|k: int| 0 <= k < cut@.len() ==> on_frontier(g, reached@, #[trigger] cut@[k] as int),
        forall|v: int| on_frontier(g, reached@, v) ==> #[trigger] cut@.contains(v as usize),
        cut@.len() == 0 <==> forall|u: int, k: int|
            0 <= u < g.n() && reached@[u] && 0 <= k < g.nbrs(u).len() ==> reached@[#[trigger] g.nbrs(u)[k]],
{
    let n = reached.len();
    let mut mark: Vec<bool> = Vec::new();
    let mut i: usize = 0;
    while i < n
        invariant
            i <= n,
            mark@.len() == i,
            forall|v: int| 0 <= v < i ==> !mark@[v],
        decreases n - i,
    {
        mark.push(false);
        i = i + 1;
    }
    let mut u: usize = 0;
    while u < n
        invariant
            g.wf(),
            n == g.n(),
            reached@.len() == n,
            mark@.len() == n,
            u <= n,
            forall|v: int| 0 <= v < n ==> (mark@[v] <==> borders_below(g, reached@, u as int, v)),
        decreases n - u,
    {
        let ghost before = mark@;
        if reached[u] {
            let nb = g.neighbors(u);
            let mut j: usize = 0;
            while j < nb.len()
                invariant
                    g.wf(),
                    n == g.n(),
                    u < n,
                    reached@.len() == n,
                    reached@[u as int],
                    mark@.len() == n,
                    nb@.len() == g.nbrs(u as int).len(),
                    forall|k: int| 0 <= k < nb@.len() ==> nb@[k] as int == #[trigger] g.nbrs(u as int)[k],
                    forall|k: int| 0 <= k < nb@.len() ==> #[trigger] nb@[k] < n,
                    j <= nb@.len(),
                    forall|v: int| 0 <= v < n ==> (mark@[v] <==> (borders_below(g, reached@, u as int, v) || (
                        !reached@[v] && exists|k: int| 0 <= k < j && #[trigger] g.nbrs(u as int)[k] == v))),
                decreases nb@.len() - j,
            {
                let w = nb[j];
                let ghost m0 = mark@;
                if !reached[w] {
                    mark.set(w, true);
                }
                proof {
                    assert(g.nbrs(u as int)[j as int] == w as int);
                    assert forall|v: int| 0 <= v < n implies (mark@[v] <==> (borders_below(g, reached@, u as int, v) || (
                        !reached@[v] && exists|k: int| 0 <= k < j + 1 && #[trigger] g.nbrs(u as int)[k] == v))) by {
                        if v == w as int && !reached@[v] {
                            assert(g.nbrs(u as int)[j as int] == v);
                        } else if !reached@[v] && (exists|k: int| 0 <= k < j + 1 && #[trigger] g.nbrs(u as int)[k] == v) {
                            let k = choose|k: int| 0 <= k < j + 1 && #[trigger] g.nbrs(u as int)[k] == v;
                            assert(k < j);
                        }
                    }
                }
                j = j + 1;
            }
            proof {
                assert forall|v: int| 0 <= v < n implies (mark@[v] <==> borders_below(g, reached@, u + 1, v)) by {
                    if borders_below(g, reached@, u + 1, v) {
                        let x = choose|x: int| 0 <= x < u + 1 && reached@[x] && #[trigger] g.nbrs(x).contains(v);
                        if x == u {
                            let k = choose|k: int| 0 <= k < g.nbrs(u as int).len() && g.nbrs(u as int)[k] == v;
                            assert(g.nbrs(u as int)[k] == v);
                        } else {
                            assert(borders_below(g, reached@, u as int, v));
                        }
                    }
                    if !borders_below(g, reached@, u as int, v) && !reached@[v] && (exists|k: int|
                        0 <= k < g.nbrs(u as int).len() && #[trigger] g.nbrs(u as int)[k] == v) {
                        let k = choose|k: int| 0 <= k < g.nbrs(u as int).len() && #[trigger] g.nbrs(u as int)[k] == v;
                        assert(g.nbrs(u as int).contains(v));
                    }
                }
            }
        } else {
            proof {
                assert forall|v: int| 0 <= v < n implies (mark@[v] <==> borders_below(g, reached@, u + 1, v)) by {
                    if borders_below(g, reached@, u + 1, v) {
                        let x = choose|x: int| 0 <= x < u + 1 && reached@[x] && #[trigger] g.nbrs(x).contains(v);
                        assert(x != u);
                    }
                }
            }
        }
        u = u + 1;
    }
    let mut cut: Vec<usize> = Vec::new();
    let mut v: usize = 0;
    while v < n
        invariant
            n == g.n(),
            mark@.len() == n,
            v <= n,
            forall|x: int| 0 <= x < n ==> (mark@[x] <==> borders_below(g, reached@, n as int, x)),
            forall|i: int, j: int| 0 <= i < j < cut@.len() ==> cut@[i] < cut@[j],
            forall|k: int| 0 <= k < cut@.len() ==> #[trigger] cut@[k] < v && mark@[cut@[k] as int],
            forall|x: int| 0 <= x < v && mark@[x] ==> #[trigger] cut@.contains(x as usize),
        decreases n - v,
    {
        if mark[v] {
            let ghost c0 = cut@;
            cut.push(v);
            proof {
                assert(cut@[c0.len() as int] == v);
                assert forall|x: int| 0 <= x < v + 1 && mark@[x] implies #[trigger] cut@.contains(x as usize) by {
                    if x < v {
                        assert(c0.contains(x as usize));
                        let k = choose|k: int| 0 <= k < c0.len() && c0[k] == x as usize;
                        assert(cut@[k] == x as usize);
                    }
                }
            }
        }
        v = v + 1;
    }
    proof {
        if cut@.len() == 0 {
            assert forall|u: int, k: int|
                0 <= u < g.n() && reached@[u] && 0 <= k < g.nbrs(u).len() implies reached@[#[trigger] g.nbrs(u)[k]] by {
                let w = g.nbrs(u)[k];
                g.lemma_nbrs_in_range(u);
                if !reached@[w] {
                    assert(g.nbrs(u).contains(w));
                    assert(on_frontier(g, reached@, w));
                    assert(cut@.contains(w as usize));
                }
            }
        } else {
            let w = cut@[0] as int;
            assert(on_frontier(g, reached@, w));
            let u = choose|u: int| 0 <= u < g.n() && reached@[u] && #[trigger] g.nbrs(u).contains(w);
            let k = choose|k: int| 0 <= k < g.nbrs(u).len() && g.nbrs(u)[k] == w;
            assert(!reached@[g.nbrs(u)[k]]);
        }
    }
    cut
}

/// A routed segment: start point, end point (each identified by a point
/// key, equal keys meaning coincident points) and copper layer index.
pub type Seg = ((i64, i64), (i64, i64), usize);

/// A via barrel: centre point key, first layer, last layer.
pub type Barrel = ((i64, i64), usize, usize);

/// The barrels of the first `m` segments of `path`: each layer change where
/// consecutive segments meet opens a barrel at the meeting point, unless the
/// previous barrel sits at that point and ends on the layer being left, in
/// which case that barrel is extended to the new layer.
pub open spec fn vias_upto(path: Seq<Seg>, m: int) -> Seq<Barrel>
    decreases m,
{
    if m < 2 || m > path.len() {
        Seq::empty()
    } else {
        let prev = vias_upto(path, m - 1);
        let (_, b0, l0) = path[m - 2];
        let (a1, _, l1) = path[m - 1];
        if l0 == l1 || b0 != a1 {
            prev
        } else if prev.len() > 0 && prev.last().0 == b0 && prev.last().2 == l0 {
            prev.drop_last().push((b0, prev.last().1, l1))
        } else {
            prev.push((b0, l0, l1))
        }
    }
}

/// Segments `j - 1` and `j` of `path` meet at one point on different layers.
pub open spec fn layer_change(path: Seq<Seg>, j: int) -> bool {
    1 <= j < path.len() && path[j - 1].2 != path[j].2 && path[j - 1].1 == path[j].0
}

/// No barrel is followed by one at the same point that starts on the layer
/// the first ends on: such a pair would be one barrel.
pub open spec fn barrels_merged(vias: Seq<Barrel>) -> bool {
    forall|b: int| 0 <= b < vias.len() - 1 ==> !((#[trigger] vias[b]).0 == vias[b + 1].0 && vias[b].2 == vias[b + 1].1)
}

/// Every barrel sits at the meeting point of a layer change among the
/// first `m` segments.
pub open spec fn barrels_at_changes(path: Seq<Seg>, m: int, vias: Seq<Barrel>) -> bool {
    forall|b: int| 0 <= b < vias.len() ==> #[trigger] change_at(path, m, vias[b].0)
}

/// A layer change among the first `m` segments happens at point `c`.
pub open spec fn change_at(path: Seq<Seg>, m: int, c: (i64, i64)) -> bool {
    exists|j: int| 1 <= j < m && #[trigger] layer_change(path, j) && path[j].0 == c
}

/// Every layer change among the first `m` segments has a barrel at its point.
pub open spec fn changes_have_barrels(path: Seq<Seg>, m: int, vias: Seq<Barrel>) -> bool {
    forall|j: int| 1 <= j < m && #[trigger] layer_change(path, j) ==> barrel_at(vias, path[j].0)
}

/// Some barrel sits at point `c`.
pub open spec fn barrel_at(vias: Seq<Barrel>, c: (i64, i64)) -> bool {
    exists|b: int| 0 <= b < vias.len() && (#[trigger] vias[b]).0 == c
}

proof fn lemma_barrels_merged(path: Seq<Seg>, m: int)
    requires
        0 <= m <= path.len(),
    ensures
        barrels_merged(vias_upto(path, m)),
    decreases m,
{
    if m >= 2 {
        lemma_barrels_merged(path, m - 1);
        let prev = vias_upto(path, m - 1);
        let cur = vias_upto(path, m);
        assert forall|b: int| 0 <= b < cur.len() - 1 implies !((#[trigger] cur[b]).0 == cur[b + 1].0 && cur[b].2 == cur[b + 1].1) by {
            assert(cur[b] == prev[b]);
            if b + 1 < prev.len() - 1 {
                assert(cur[b + 1] == prev[b + 1]);
            } else if b + 1 == prev.len() - 1 {
                assert(cur[b + 1].0 == prev[b + 1].0 && cur[b + 1].1 == prev[b + 1].1);
            }
        }
    }
}

proof fn lemma_barrels_at_changes(path: Seq<Seg>, m: int)
    requires
        0 <= m <= path.len(),
    ensures
        barrels_at_changes(path, m, vias_upto(path, m)),
    decreases m,
{
    if m >= 2 {
        lemma_barrels_at_changes(path, m - 1);
        let prev = vias_upto(path, m - 1);
        let cur = vias_upto(path, m);
        assert forall|b: int| 0 <= b < cur.len() implies #[trigger] change_at(path, m, cur[b].0) by {
            if b < prev.len() && cur[b].0 == prev[b].0 {
                assert(change_at(path, m - 1, prev[b].0));
                let j = choose|j: int| 1 <= j < m - 1 && #[trigger] layer_change(path, j) && path[j].0 == prev[b].0;
                assert(layer_change(path, j));
            } else {
                assert(layer_change(path, m - 1));
            }
        }
    }
}

proof fn lemma_changes_have_barrels(path: Seq<Seg>, m: int)
    requires
        0 <= m <= path.len(),
    ensures
        changes_have_barrels(path, m, vias_upto(path, m)),
    decreases m,
{
    if m >= 2 {
        lemma_changes_have_barrels(path, m - 1);
        let prev = vias_upto(path, m - 1);
        let cur = vias_upto(path, m);
        assert forall|j: int| 1 <= j < m && #[trigger] layer_change(path, j) implies barrel_at(cur, path[j].0) by {
            if j < m - 1 {
                assert(barrel_at(prev, path[j].0));
                let b = choose|b: int| 0 <= b < prev.len() && (#[trigger] prev[b]).0 == path[j].0;
                if b < prev.len() - 1 || cur.len() == prev.len() + 1 || cur == prev {
                    assert(cur[b].0 == prev[b].0);
                } else {
                    assert(cur[b].0 == prev[b].0);
                }
            } else {
                let (_, b0, l0) = path[m - 2];
                if prev.len() > 0 && prev.last().0 == b0 && prev.last().2 == l0 {
                    assert(cur[prev.len() - 1].0 == path[j].0);
                } else {
                    assert(cur[prev.len() as int].0 == path[j].0);
                }
            }
        }
    }
}

/// The real vias of a routed path: one barrel per run of layer changes at a
/// shared point, as `(centre, top, bottom)`. A path that steps through several
/// layers at one point is one barrel across them; consecutive segments on
/// different layers whose endpoints do not meet are no via at all.
pub fn path_vias(path: &Vec<Seg>) -> (vias: Vec<Barrel>)
    ensures
        vias@ == vias_upto(path@, path@.len() as int),
        barrels_at_changes(path@, path@.len() as int, vias@),
        changes_have_barrels(path@, path@.len() as int, vias@),
        barrels_merged(vias@),
{
    proof {
        lemma_barrels_at_changes(path@, path@.len() as int);
        lemma_changes_have_barrels(path@, path@.len() as int);
        lemma_barrels_merged(path@, path@.len() as int);
    }
    let mut vias: Vec<Barrel> = Vec::new();
    if path.len() < 2 {
        return vias;
    }
    let mut i: usize = 1;
    while i < path.len()
        invariant
            1 <= i <= path@.len(),
            vias@ == vias_upto(path@, i as int),
        decreases path@.len() - i,
    {
        let (_, b0, l0) = path[i - 1];
        let (a1, _, l1) = path[i];
        if l0 != l1 && b0.0 == a1.0 && b0.1 == a1.1 {
            let n = vias.len();
            if n > 0 && vias[n - 1].0.0 == b0.0 && vias[n - 1].0.1 == b0.1 && vias[n - 1].2 == l0 {
                let top = vias[n - 1].1;
                vias.set(n - 1, (b0, top, l1));
                proof {
                    let prev = vias_upto(path@, i as int);
                    assert(vias@ =~= prev.drop_last().push((b0, prev.last().1, l1)));
                }
            } else {
                vias.push((b0, l0, l1));
            }
        }
        i = i + 1;
    }
    vias
}

} // verus!
