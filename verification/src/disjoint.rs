//! Node-disjoint path bound for a set of connections: max-flow on the window
//! graph with every free node split into an in-half and an out-half joined
//! by a unit edge. Any joint routing of the connections is a set of
//! node-disjoint paths, so it can never need more than the flow admits.
use vstd::prelude::*;
use crate::flow::{cap_out_upto, lemma_net_le_cap_out, net_upto, twin, FlowGraph};
use crate::window::WindowGraph;
use crate::complete::{is_walk, node_disjoint, path_nodes, terms_ok};
use crate::search::{joint_routing, jointly_routable};

verus! {

/// `x` is below `n` and in `r`.
pub open spec fn inside(r: Seq<bool>, x: int, n: int) -> bool {
    x < n && r[x]
}

/// Flow on forward edge `j` leaving the part of `r` below `n` (negative when
/// it enters it).
pub open spec fn cross_term(to: Seq<usize>, cap: Seq<i64>, r: Seq<bool>, j: int, n: int) -> int {
    let f = cap[2 * j + 1] as int;
    (if inside(r, to[2 * j + 1] as int, n) { f } else { 0 }) - (if inside(r, to[2 * j] as int, n) { f } else { 0 })
}

/// Net flow over forward edges `0..k` out of the part of `r` below `n`.
pub open spec fn cross_sum(to: Seq<usize>, cap: Seq<i64>, r: Seq<bool>, k: int, n: int) -> int
    decreases k,
{
    if k <= 0 {
        0
    } else {
        cross_sum(to, cap, r, k - 1, n) + cross_term(to, cap, r, k - 1, n)
    }
}

/// Sum of the net flows (over forward edges `0..k`) of the nodes of `r`
/// below `n`.
pub open spec fn node_sum(to: Seq<usize>, cap: Seq<i64>, r: Seq<bool>, k: int, n: int) -> int
    decreases n,
{
    if n <= 0 {
        0
    } else {
        node_sum(to, cap, r, k, n - 1) + (if r[n - 1] { net_upto(to, cap, n - 1, k) } else { 0 })
    }
}

proof fn lemma_cross_sum_empty(to: Seq<usize>, cap: Seq<i64>, r: Seq<bool>, k: int)
    ensures
        cross_sum(to, cap, r, k, 0) == 0,
    decreases k,
{
    if k > 0 {
        lemma_cross_sum_empty(to, cap, r, k - 1);
    }
}

proof fn lemma_cross_sum_step(to: Seq<usize>, cap: Seq<i64>, r: Seq<bool>, k: int, n: int)
    requires
        n >= 1,
    ensures
        cross_sum(to, cap, r, k, n) - cross_sum(to, cap, r, k, n - 1) == (if r[n - 1] {
            net_upto(to, cap, n - 1, k)
        } else {
            0
        }),
    decreases k,
{
    if k > 0 {
        lemma_cross_sum_step(to, cap, r, k - 1, n);
    }
}

/// Summing net flow over the nodes of a set is summing the flow across its
/// boundary.
proof fn lemma_node_sum_is_cross_sum(to: Seq<usize>, cap: Seq<i64>, r: Seq<bool>, k: int, n: int)
    requires
        n >= 0,
    ensures
        node_sum(to, cap, r, k, n) == cross_sum(to, cap, r, k, n),
    decreases n,
{
    if n == 0 {
        lemma_cross_sum_empty(to, cap, r, k);
    } else {
        lemma_node_sum_is_cross_sum(to, cap, r, k, n - 1);
        lemma_cross_sum_step(to, cap, r, k, n);
    }
}

/// Under conservation everywhere but `s` and `t`, with `t` outside the set,
/// the set's total net flow is that of `s`.
proof fn lemma_node_sum_conserved(to: Seq<usize>, cap: Seq<i64>, r: Seq<bool>, k: int, n: int, s: int, t: int)
    requires
        n >= 0,
        0 <= t < r.len(),
        !r[t],
        forall|x: int| 0 <= x < n && x != s && x != t ==> #[trigger] net_upto(to, cap, x, k) == 0,
    ensures
        node_sum(to, cap, r, k, n) == (if 0 <= s < n && r[s] { net_upto(to, cap, s, k) } else { 0 }),
    decreases n,
{
    if n > 0 {
        lemma_node_sum_conserved(to, cap, r, k, n - 1, s, t);
        if n - 1 != s && n - 1 != t {
            assert(net_upto(to, cap, n - 1, k) == 0);
        }
    }
}

/// How many entries of `ks` are below `k`.
pub open spec fn count_below(ks: Seq<int>, k: int) -> int
    decreases ks.len(),
{
    if ks.len() == 0 {
        0
    } else {
        count_below(ks.drop_last(), k) + (if ks.last() < k { 1int } else { 0int })
    }
}

/// How many entries of `ks` equal `v`.
pub open spec fn count_of(ks: Seq<int>, v: int) -> int
    decreases ks.len(),
{
    if ks.len() == 0 {
        0
    } else {
        count_of(ks.drop_last(), v) + (if ks.last() == v { 1int } else { 0int })
    }
}

proof fn lemma_count_step(ks: Seq<int>, k: int)
    ensures
        count_below(ks, k + 1) == count_below(ks, k) + count_of(ks, k),
    decreases ks.len(),
{
    if ks.len() > 0 {
        lemma_count_step(ks.drop_last(), k);
    }
}

proof fn lemma_count_of_distinct(ks: Seq<int>, v: int)
    requires
        forall|a: int, b: int| 0 <= a < b < ks.len() ==> ks[a] != ks[b],
    ensures
        0 <= count_of(ks, v) <= 1,
        count_of(ks, v) == 1 ==> exists|m: int| 0 <= m < ks.len() && ks[m] == v,
    decreases ks.len(),
{
    if ks.len() > 0 {
        let d = ks.drop_last();
        lemma_count_of_distinct(d, v);
        if ks.last() == v {
            lemma_count_of_absent(d, v);
        } else if count_of(ks, v) == 1 {
            let m = choose|m: int| 0 <= m < d.len() && d[m] == v;
            assert(ks[m] == v);
        }
    }
}

proof fn lemma_count_of_absent(ks: Seq<int>, v: int)
    requires
        forall|m: int| 0 <= m < ks.len() ==> ks[m] != v,
    ensures
        count_of(ks, v) == 0,
    decreases ks.len(),
{
    if ks.len() > 0 {
        lemma_count_of_absent(ks.drop_last(), v);
    }
}

proof fn lemma_count_below_none(ks: Seq<int>, k: int)
    requires
        forall|m: int| 0 <= m < ks.len() ==> ks[m] >= k,
    ensures
        count_below(ks, k) == 0,
    decreases ks.len(),
{
    if ks.len() > 0 {
        lemma_count_below_none(ks.drop_last(), k);
    }
}

proof fn lemma_count_below_all(ks: Seq<int>, k: int)
    requires
        forall|m: int| 0 <= m < ks.len() ==> ks[m] < k,
    ensures
        count_below(ks, k) == ks.len(),
    decreases ks.len(),
{
    if ks.len() > 0 {
        lemma_count_below_all(ks.drop_last(), k);
    }
}

/// With every boundary term non-negative, the boundary flow is at least the
/// number of distinct edges whose term is at least one.
proof fn lemma_cross_sum_counts(to: Seq<usize>, cap: Seq<i64>, r: Seq<bool>, n: int, ks: Seq<int>, k: int)
    requires
        k >= 0,
        forall|j: int| 0 <= j < k ==> #[trigger] cross_term(to, cap, r, j, n) >= 0,
        forall|a: int, b: int| 0 <= a < b < ks.len() ==> ks[a] != ks[b],
        forall|m: int| 0 <= m < ks.len() ==> 0 <= #[trigger] ks[m],
        forall|m: int| 0 <= m < ks.len() && 0 <= #[trigger] ks[m] < k ==> cross_term(to, cap, r, ks[m], n) >= 1,
    ensures
        cross_sum(to, cap, r, k, n) >= count_below(ks, k),
    decreases k,
{
    if k == 0 {
        lemma_count_below_none(ks, 0);
    } else {
        lemma_cross_sum_counts(to, cap, r, n, ks, k - 1);
        lemma_count_step(ks, k - 1);
        lemma_count_of_distinct(ks, k - 1);
        if count_of(ks, k - 1) == 1 {
            let m = choose|m: int| 0 <= m < ks.len() && ks[m] == k - 1;
            assert(cross_term(to, cap, r, ks[m], n) >= 1);
        }
        assert(cross_term(to, cap, r, k - 1, n) >= 0);
    }
}

/// Forward edge `k` of `fg` runs from `a` to `b` with unit capacity.
pub open spec fn unit_edge(fg: &FlowGraph, k: int, a: int, b: int) -> bool {
    0 <= k < fg.np() && fg.to@[2 * k + 1] as int == a && fg.to@[2 * k] as int == b && fg.orig@[k] == 1
}

/// `fg` has a unit forward edge from `a` to `b`.
pub open spec fn has_unit_edge(fg: &FlowGraph, a: int, b: int) -> bool {
    exists|k: int| #[trigger] unit_edge(fg, k, a, b)
}

/// `a → b` is one of the edges of the split graph of `g` for `terms`: a free
/// node's in-half to its out-half, a free node's out-half to the in-half of
/// a free neighbour, the source to a first terminal's in-half, or a second
/// terminal's out-half to the sink.
pub open spec fn split_edge(g: &WindowGraph, terms: Seq<(usize, usize)>, a: int, b: int) -> bool {
    let n = g.n();
    ||| (0 <= a < 2 * n && a % 2 == 0 && b == a + 1 && g.free@[a / 2])
    ||| (0 <= a < 2 * n && a % 2 == 1 && b % 2 == 0 && g.free@[a / 2] && g.free@[b / 2] && g.nbrs(a / 2).contains(b / 2))
    ||| (a == 2 * n && exists|m: int| 0 <= m < terms.len() && b == 2 * (#[trigger] terms[m]).0)
    ||| (b == 2 * n + 1 && exists|m: int| 0 <= m < terms.len() && a == 2 * (#[trigger] terms[m]).1 + 1)
}

/// `fg` is the split graph of window `g` for `terms`: each free node `v` has
/// in-half `2v` and out-half `2v + 1` joined by a unit edge, each free
/// neighbour `w` of a free node `v` is entered by a unit edge from `2v + 1`
/// to `2w`, the source `2n` feeds every connection's first terminal and
/// every second terminal drains into the sink `2n + 1`; it has no other
/// edges, and each in-half has its one edge.
pub open spec fn split_graph(g: &WindowGraph, terms: Seq<(usize, usize)>, fg: &FlowGraph) -> bool {
    let n = g.n();
    &&& fg.nn() == 2 * n + 2
    &&& forall|k: int| 0 <= k < fg.np() ==> #[trigger] fg.orig@[k] <= 1
    &&& only_split_edges(g, terms, fg.to@)
    &&& one_edge_per_in_half(n, fg.to@)
    &&& forall|v: int| 0 <= v < n && #[trigger] g.free@[v] ==> has_unit_edge(fg, 2 * v, 2 * v + 1)
    &&& forall|v: int, x: int|
        0 <= v < n && g.free@[v] && 0 <= x < g.nbrs(v).len() && g.free@[#[trigger] g.nbrs(v)[x]] ==> has_unit_edge(
            fg,
            2 * v + 1,
            2 * g.nbrs(v)[x],
        )
    &&& forall|m: int|
        0 <= m < terms.len() ==> has_unit_edge(fg, 2 * n, 2 * (#[trigger] terms[m]).0) && has_unit_edge(
            fg,
            2 * terms[m].1 + 1,
            2 * n + 1,
        )
}

/// The window node an edge of the split graph belongs to.
pub open spec fn anchor(fg: &FlowGraph, n: int, k: int) -> int {
    if (fg.to@[2 * k + 1] as int) < 2 * n {
        fg.to@[2 * k + 1] as int / 2
    } else {
        fg.to@[2 * k] as int / 2
    }
}

/// Forward edge `k` is a unit edge leaving `r`.
pub open spec fn crossing(fg: &FlowGraph, r: Seq<bool>, k: int) -> bool {
    0 <= k < fg.np() && r[fg.to@[2 * k + 1] as int] && !r[fg.to@[2 * k] as int] && fg.orig@[k] == 1
}

proof fn lemma_on_path(p: Seq<usize>, j: int)
    requires
        0 <= j < p.len(),
    ensures
        path_nodes(p).contains(p[j] as int),
{
}

/// From node `p[j]`, whose in-half lies in `r`, the rest of the path leaves
/// `r` across a unit edge anchored at one of its nodes.
proof fn lemma_crosses_from(g: &WindowGraph, terms: Seq<(usize, usize)>, fg: &FlowGraph, r: Seq<bool>, p: Seq<usize>, a: int, m: int, j: int)
    requires
        g.wf(),
        split_graph(g, terms, fg),
        0 <= a < terms.len(),
        0 <= m < terms.len(),
        is_walk(g, Set::empty(), p, terms[a].0 as int, terms[m].1 as int),
        r.len() == fg.nn(),
        !r[2 * g.n() + 1],
        0 <= j < p.len(),
        r[2 * p[j]],
    ensures
        exists|k: int| #[trigger] crossing(fg, r, k) && path_nodes(p).contains(anchor(fg, g.n(), k)),
    decreases p.len() - j,
{
    let n = g.n();
    let v = p[j] as int;
    assert(crate::complete::node_open(g, Set::empty(), v));
    lemma_on_path(p, j);
    assert(has_unit_edge(fg, 2 * v, 2 * v + 1));
    if !r[2 * v + 1] {
        let k = choose|k: int| #[trigger] unit_edge(fg, k, 2 * v, 2 * v + 1);
        assert(crossing(fg, r, k) && anchor(fg, n, k) == v);
    } else if j + 1 < p.len() {
        let w = p[j + 1] as int;
        assert(g.step_ok(v, w));
        assert(crate::complete::node_open(g, Set::empty(), w));
        let x = choose|x: int| 0 <= x < g.nbrs(v).len() && g.nbrs(v)[x] == w;
        assert(g.free@[g.nbrs(v)[x]]);
        assert(has_unit_edge(fg, 2 * v + 1, 2 * g.nbrs(v)[x]));
        if !r[2 * w] {
            let k = choose|k: int| #[trigger] unit_edge(fg, k, 2 * v + 1, 2 * w);
            assert(crossing(fg, r, k) && anchor(fg, n, k) == v);
        } else {
            lemma_crosses_from(g, terms, fg, r, p, a, m, j + 1);
        }
    } else {
        assert(v == terms[m].1);
        assert(has_unit_edge(fg, 2 * terms[m].1 + 1, 2 * n + 1));
        let k = choose|k: int| #[trigger] unit_edge(fg, k, 2 * v + 1, 2 * n + 1);
        assert(crossing(fg, r, k) && anchor(fg, n, k) == v);
    }
}

/// A path of a joint routing leaves any set holding the source but not the
/// sink across a unit edge anchored at one of its nodes.
proof fn lemma_path_crosses(g: &WindowGraph, terms: Seq<(usize, usize)>, fg: &FlowGraph, r: Seq<bool>, p: Seq<usize>, a: int, m: int)
    requires
        g.wf(),
        split_graph(g, terms, fg),
        0 <= a < terms.len(),
        0 <= m < terms.len(),
        is_walk(g, Set::empty(), p, terms[a].0 as int, terms[m].1 as int),
        r.len() == fg.nn(),
        r[2 * g.n()],
        !r[2 * g.n() + 1],
    ensures
        exists|k: int| #[trigger] crossing(fg, r, k) && path_nodes(p).contains(anchor(fg, g.n(), k)),
{
    let n = g.n();
    let src = terms[a].0 as int;
    assert(p[0] as int == src);
    assert(crate::complete::node_open(g, Set::empty(), p[0] as int));
    lemma_on_path(p, 0);
    assert(has_unit_edge(fg, 2 * n, 2 * terms[a].0));
    if !r[2 * src] {
        let k = choose|k: int| #[trigger] unit_edge(fg, k, 2 * n, 2 * src);
        assert(crossing(fg, r, k) && anchor(fg, n, k) == src);
    } else {
        lemma_crosses_from(g, terms, fg, r, p, a, m, 0);
    }
}

/// Some unit edge leaving `r` is anchored at a node of `p`.
pub open spec fn crosses_at_path(fg: &FlowGraph, r: Seq<bool>, n: int, p: Seq<usize>) -> bool {
    exists|k: int| #[trigger] crossing(fg, r, k) && path_nodes(p).contains(anchor(fg, n, k))
}

/// `ps` are pairwise node-disjoint walks through free nodes, walk `m`
/// from the first terminal of connection `ends[m].0` to the second
/// terminal of connection `ends[m].1` (any source may serve any target).
pub open spec fn disjoint_terminal_walks(
    g: &WindowGraph,
    terms: Seq<(usize, usize)>,
    ps: Seq<Seq<usize>>,
    ends: Seq<(int, int)>,
) -> bool {
    &&& ends.len() == ps.len()
    &&& forall|m: int|
        0 <= m < ps.len() ==> {
            &&& 0 <= (#[trigger] ends[m]).0 < terms.len()
            &&& 0 <= ends[m].1 < terms.len()
            &&& is_walk(g, Set::empty(), ps[m], terms[ends[m].0].0 as int, terms[ends[m].1].1 as int)
        }
    &&& forall|a: int, b: int| 0 <= a < b < ps.len() ==> node_disjoint(#[trigger] ps[a], #[trigger] ps[b])
}

/// Max-flow bound on node-disjoint paths: in the split graph of a window,
/// once a flow conserved everywhere but the source and sink leaves some
/// residual-closed set holding the source but not the sink, no family of
/// pairwise node-disjoint walks from first to second terminals has more
/// walks than the flow's value.
pub proof fn lemma_flow_bounds_walks(
    g: &WindowGraph,
    terms: Seq<(usize, usize)>,
    fg: &FlowGraph,
    r: Seq<bool>,
    ps: Seq<Seq<usize>>,
    ends: Seq<(int, int)>,
)
    requires
        g.wf(),
        fg.wf(),
        split_graph(g, terms, fg),
        forall|x: int| 0 <= x < fg.nn() && x != 2 * g.n() && x != 2 * g.n() + 1 ==> #[trigger] fg.net(x) == 0,
        r.len() == fg.nn(),
        r[2 * g.n()],
        !r[2 * g.n() + 1],
        fg.residual_closed(r),
        disjoint_terminal_walks(g, terms, ps, ends),
    ensures
        fg.net(2 * g.n()) >= ps.len(),
{
    let n = g.n();
    let nn = fg.nn();
    let np = fg.np();
    let to = fg.to@;
    let cap = fg.cap@;
    let mm = ps.len();
    assert forall|m: int| 0 <= m < mm implies #[trigger] crosses_at_path(fg, r, n, ps[m]) by {
        assert(0 <= ends[m].0 < terms.len());
        lemma_path_crosses(g, terms, fg, r, ps[m], ends[m].0, ends[m].1);
    }
    let ks = Seq::new(
        mm as nat,
        |m: int| choose|k: int| #[trigger] crossing(fg, r, k) && path_nodes(ps[m]).contains(anchor(fg, n, k)),
    );
    assert forall|m: int| 0 <= m < mm implies #[trigger] crossing(fg, r, ks[m]) && path_nodes(ps[m]).contains(
        anchor(fg, n, ks[m]),
    ) by {
        assert(crosses_at_path(fg, r, n, ps[m]));
    }
    assert forall|a: int, b: int| 0 <= a < b < ks.len() implies ks[a] != ks[b] by {
        if ks[a] == ks[b] {
            let z = anchor(fg, n, ks[a]);
            assert(crossing(fg, r, ks[a]));
            assert(crossing(fg, r, ks[b]));
            assert(path_nodes(ps[a]).contains(z));
            assert(path_nodes(ps[b]).contains(z));
            let ia = choose|i: int| 0 <= i < ps[a].len() && ps[a][i] as int == z;
            let ib = choose|i: int| 0 <= i < ps[b].len() && ps[b][i] as int == z;
            assert(node_disjoint(ps[a], ps[b]));
        }
    }
    assert forall|j: int| 0 <= j < np implies #[trigger] cross_term(to, cap, r, j, nn) >= 0 by {
        assert(to[2 * j] < nn && to[2 * j + 1] < nn);
        assert(twin(2 * j + 1) == 2 * j);
        assert(cap[2 * j + 1] >= 0);
        if !r[to[2 * j + 1] as int] && r[to[2 * j] as int] {
            assert(fg.tail(2 * j + 1) == to[2 * j]);
        }
    }
    assert forall|m: int| 0 <= m < ks.len() && 0 <= #[trigger] ks[m] < np implies cross_term(to, cap, r, ks[m], nn)
        >= 1 by {
        let k = ks[m];
        assert(crossing(fg, r, k));
        assert(twin(2 * k) == 2 * k + 1);
        assert(fg.tail(2 * k) == to[2 * k + 1]);
        assert(fg.orig@[k] == cap[2 * k] + cap[2 * k + 1]);
        assert(to[2 * k] < nn && to[2 * k + 1] < nn);
    }
    assert forall|m: int| 0 <= m < ks.len() implies 0 <= #[trigger] ks[m] by {
        assert(crossing(fg, r, ks[m]));
    }
    lemma_cross_sum_counts(to, cap, r, nn, ks, np);
    assert forall|m: int| 0 <= m < ks.len() implies ks[m] < np by {
        assert(crossing(fg, r, ks[m]));
    }
    lemma_count_below_all(ks, np);
    lemma_node_sum_is_cross_sum(to, cap, r, np, nn);
    assert forall|x: int| 0 <= x < nn && x != 2 * n && x != 2 * n + 1 implies #[trigger] net_upto(to, cap, x, np)
        == 0 by {
        assert(fg.net(x) == 0);
    }
    lemma_node_sum_conserved(to, cap, r, np, nn, 2 * n, 2 * n + 1);
}

/// A joint routing is a family of node-disjoint terminal walks, walk `m`
/// serving connection `m`.
pub proof fn lemma_routing_is_terminal_walks(g: &WindowGraph, terms: Seq<(usize, usize)>, ps: Seq<Seq<usize>>)
    requires
        joint_routing(g, terms, 0, Set::empty(), ps),
    ensures
        disjoint_terminal_walks(g, terms, ps, Seq::new(ps.len(), |m: int| (m, m))),
{
    let ends = Seq::new(ps.len(), |m: int| (m, m));
    assert forall|m: int| 0 <= m < ps.len() implies {
        &&& 0 <= (#[trigger] ends[m]).0 < terms.len()
        &&& 0 <= ends[m].1 < terms.len()
        &&& is_walk(g, Set::empty(), ps[m], terms[ends[m].0].0 as int, terms[ends[m].1].1 as int)
    } by {
        assert(is_walk(g, Set::empty(), ps[m], terms[m].0 as int, terms[m].1 as int));
    }
}

/// Max-flow bound on joint routing: in the split graph of a window, once a
/// flow conserved everywhere but the source and sink leaves some
/// residual-closed set holding the source but not the sink, any joint
/// routing of the connections needs no more paths than the flow's value.
pub proof fn lemma_flow_bounds_routing(
    g: &WindowGraph,
    terms: Seq<(usize, usize)>,
    fg: &FlowGraph,
    r: Seq<bool>,
    ps: Seq<Seq<usize>>,
)
    requires
        g.wf(),
        fg.wf(),
        split_graph(g, terms, fg),
        forall|x: int| 0 <= x < fg.nn() && x != 2 * g.n() && x != 2 * g.n() + 1 ==> #[trigger] fg.net(x) == 0,
        r.len() == fg.nn(),
        r[2 * g.n()],
        !r[2 * g.n() + 1],
        fg.residual_closed(r),
        joint_routing(g, terms, 0, Set::empty(), ps),
    ensures
        fg.net(2 * g.n()) >= terms.len(),
{
    lemma_routing_is_terminal_walks(g, terms, ps);
    lemma_flow_bounds_walks(g, terms, fg, r, ps, Seq::new(ps.len(), |m: int| (m, m)));
}

/// Every forward edge has capacity at most one and carries no flow.
pub open spec fn fresh_unit(fg: &FlowGraph) -> bool {
    forall|k: int| 0 <= k < fg.np() ==> #[trigger] fg.orig@[k] <= 1 && fg.cap@[2 * k + 1] == 0
}

proof fn lemma_fresh_net(to: Seq<usize>, cap: Seq<i64>, x: int, k: int)
    requires
        0 <= k,
        2 * k <= cap.len(),
        forall|j: int| 0 <= j < k ==> #[trigger] cap[2 * j + 1] == 0,
    ensures
        net_upto(to, cap, x, k) == 0,
    decreases k,
{
    if k > 0 {
        lemma_fresh_net(to, cap, x, k - 1);
        assert(cap[2 * (k - 1) + 1] == 0);
    }
}

proof fn lemma_cap_out_prefix(to1: Seq<usize>, o1: Seq<i64>, to2: Seq<usize>, o2: Seq<i64>, x: int, k: int)
    requires
        0 <= k,
        2 * k <= to1.len(),
        2 * k <= to2.len(),
        k <= o1.len(),
        k <= o2.len(),
        forall|i: int| 0 <= i < 2 * k ==> to1[i] == to2[i],
        forall|i: int| 0 <= i < k ==> o1[i] == o2[i],
    ensures
        cap_out_upto(to1, o1, x, k) == cap_out_upto(to2, o2, x, k),
    decreases k,
{
    if k > 0 {
        lemma_cap_out_prefix(to1, o1, to2, o2, x, k - 1);
        assert(to1[2 * (k - 1) + 1] == to2[2 * (k - 1) + 1]);
    }
}

/// Add a unit edge `a → b`, keeping every edge already present.
fn add_unit(fg: &mut FlowGraph, a: usize, b: usize)
    requires
        old(fg).wf(),
        fresh_unit(old(fg)),
        a < old(fg).nn(),
        b < old(fg).nn(),
        old(fg).ne() + 2 <= usize::MAX,
    ensures
        final(fg).wf(),
        fresh_unit(final(fg)),
        final(fg).nn() == old(fg).nn(),
        final(fg).ne() == old(fg).ne() + 2,
        forall|x: int, y: int| #[trigger] has_unit_edge(old(fg), x, y) ==> has_unit_edge(final(fg), x, y),
        has_unit_edge(final(fg), a as int, b as int),
        final(fg).to@ == old(fg).to@.push(b).push(a),
        forall|x: int|
            #[trigger] cap_out_upto(final(fg).to@, final(fg).orig@, x, final(fg).np()) == cap_out_upto(
                old(fg).to@,
                old(fg).orig@,
                x,
                old(fg).np(),
            ) + (if x == a as int { 1int } else { 0int }),
{
    let ghost before: FlowGraph = *fg;
    fg.add_edge(a, b, 1);
    proof {
        let k0 = before.np();
        assert(fg.np() == k0 + 1);
        assert(unit_edge(fg, k0, a as int, b as int));
        assert forall|x: int, y: int| #[trigger] has_unit_edge(&before, x, y) implies has_unit_edge(fg, x, y) by {
            let k = choose|k: int| #[trigger] unit_edge(&before, k, x, y);
            assert(unit_edge(fg, k, x, y));
        }
        assert forall|k: int| 0 <= k < fg.np() implies #[trigger] fg.orig@[k] <= 1 && fg.cap@[2 * k + 1] == 0 by {
            if k < k0 {
                assert(before.orig@[k] <= 1 && before.cap@[2 * k + 1] == 0);
            }
        }
        assert forall|x: int|
            #[trigger] cap_out_upto(fg.to@, fg.orig@, x, fg.np()) == cap_out_upto(before.to@, before.orig@, x, k0) + (
            if x == a as int { 1int } else { 0int }) by {
            lemma_cap_out_prefix(fg.to@, fg.orig@, before.to@, before.orig@, x, k0);
        }
    }
}

/// Every forward edge of the edge list `to` is a split-graph edge.
pub open spec fn only_split_edges(g: &WindowGraph, terms: Seq<(usize, usize)>, to: Seq<usize>) -> bool {
    forall|k: int| 0 <= k < to.len() / 2 ==> #[trigger] split_edge(g, terms, to[2 * k + 1] as int, to[2 * k] as int)
}

/// No two forward edges of `to` leave the same in-half (a node below `2n`
/// with even index): each node's unit capacity is carried by one edge.
pub open spec fn one_edge_per_in_half(n: int, to: Seq<usize>) -> bool {
    forall|k1: int, k2: int|
        0 <= k1 < k2 < to.len() / 2 && (#[trigger] to[2 * k1 + 1]) < 2 * n && to[2 * k1 + 1] % 2 == 0 ==> #[trigger] to[2
            * k2 + 1] != to[2 * k1 + 1]
}

/// Appending an edge whose tail is no in-half already used keeps one edge
/// per in-half.
proof fn lemma_in_half_push(n: int, to: Seq<usize>, a: usize, b: usize)
    requires
        to.len() % 2 == 0,
        one_edge_per_in_half(n, to),
        (a as int) < 2 * n && a % 2 == 0 ==> forall|k: int| 0 <= k < to.len() / 2 ==> #[trigger] to[2 * k + 1] != a,
    ensures
        one_edge_per_in_half(n, to.push(b).push(a)),
{
    let t2 = to.push(b).push(a);
    assert forall|k1: int, k2: int|
        0 <= k1 < k2 < t2.len() / 2 && (#[trigger] t2[2 * k1 + 1]) < 2 * n && t2[2 * k1 + 1] % 2 == 0 implies #[trigger] t2[2
            * k2 + 1] != t2[2 * k1 + 1] by {
        assert(t2[2 * k1 + 1] == to[2 * k1 + 1]);
        if k2 < to.len() / 2 {
            assert(t2[2 * k2 + 1] == to[2 * k2 + 1]);
        } else {
            assert(t2[2 * k2 + 1] == a);
        }
    }
}

/// Appending a split-graph edge keeps the edge list within the split graph.
proof fn lemma_split_edges_push(g: &WindowGraph, terms: Seq<(usize, usize)>, to: Seq<usize>, a: usize, b: usize)
    requires
        to.len() % 2 == 0,
        only_split_edges(g, terms, to),
        split_edge(g, terms, a as int, b as int),
    ensures
        only_split_edges(g, terms, to.push(b).push(a)),
{
    let t2 = to.push(b).push(a);
    assert forall|k: int| 0 <= k < t2.len() / 2 implies #[trigger] split_edge(g, terms, t2[2 * k + 1] as int, t2[2 * k] as int) by {
        if k < to.len() / 2 {
            assert(t2[2 * k + 1] == to[2 * k + 1] && t2[2 * k] == to[2 * k]);
        } else {
            assert(k == to.len() / 2);
            assert(t2[2 * k + 1] == a && t2[2 * k] == b);
        }
    }
}

/// Free cells `v` whose in-half is in `reach` but whose out-half is not,
/// ascending.
pub open spec fn cut_cells(g: &WindowGraph, reach: Seq<bool>) -> Seq<int> {
    Seq::new(g.n() as nat, |v: int| v).filter(|v: int| g.free@[v] && reach[2 * v] && !reach[2 * v + 1])
}

/// `fg` is the split graph of `g` for `terms` carrying a flow of value
/// `flow` from the source, conserved at every node but the source and sink.
pub open spec fn split_flow(g: &WindowGraph, terms: Seq<(usize, usize)>, fg: &FlowGraph, flow: int) -> bool {
    let n = g.n();
    &&& fg.wf()
    &&& split_graph(g, terms, fg)
    &&& fg.net(2 * n) == flow
    &&& forall|x: int| 0 <= x < fg.nn() && x != 2 * n && x != 2 * n + 1 ==> #[trigger] fg.net(x) == 0
}

/// `fg` carries a flow of value `flow` in the split graph of `g` for
/// `terms`, conserved at every node but the source and sink, and `reach` is
/// the least residual-closed set holding the source; it misses the sink.
pub open spec fn min_cut_witness(g: &WindowGraph, terms: Seq<(usize, usize)>, fg: &FlowGraph, reach: Seq<bool>, flow: int) -> bool {
    let n = g.n();
    &&& fg.wf()
    &&& split_graph(g, terms, fg)
    &&& fg.net(2 * n) == flow
    &&& forall|x: int| 0 <= x < fg.nn() && x != 2 * n && x != 2 * n + 1 ==> #[trigger] fg.net(x) == 0
    &&& reach.len() == fg.nn()
    &&& reach[2 * n]
    &&& !reach[2 * n + 1]
    &&& fg.residual_closed(reach)
    &&& forall|c: Seq<bool>, v: int|
        c.len() == fg.nn() && c[2 * n] && fg.residual_closed(c) && 0 <= v < fg.nn() && #[trigger] reach[v] ==> #[trigger] c[v]
}

/// The grid has at most six neighbours per node.
proof fn lemma_nbrs_len(g: &WindowGraph, v: int)
    ensures
        g.nbrs(v).len() <= 6,
{
    reveal(WindowGraph::nbrs);
}

/// Maximum flow through the node-split graph of the free nodes from the
/// connections' first terminals to their second terminals (any source may
/// serve any target), capped at the number of connections. When it falls
/// short, no family of pairwise node-disjoint walks from first to second
/// terminals has more walks than its value, and the cells of the minimum
/// vertex cut come with it. The value bounds any joint routing of the
/// connections from above.
pub fn max_node_disjoint_flow(g: &WindowGraph, terms: &Vec<(usize, usize)>) -> (r: (usize, Vec<usize>))
    requires
        g.wf(),
        terms_ok(g, terms@),
        16 * g.n() + 4 * terms@.len() + 8 <= usize::MAX,
    ensures
        r.0 <= terms@.len(),
        jointly_routable(g, terms@, 0, Set::empty()) ==> r.0 >= terms@.len(),
        r.0 >= terms@.len() ==> r.1@.len() == 0,
        r.0 >= terms@.len() ==> exists|fg: FlowGraph| #[trigger] split_flow(g, terms@, &fg, r.0 as int),
        r.0 < terms@.len() ==> exists|fg: FlowGraph, reach: Seq<bool>|
            #[trigger] min_cut_witness(g, terms@, &fg, reach, r.0 as int) && r.1@.map_values(|v: usize| v as int)
                == cut_cells(g, reach),
        r.0 < terms@.len() ==> forall|ps: Seq<Seq<usize>>, ends: Seq<(int, int)>|
            #[trigger] disjoint_terminal_walks(g, terms@, ps, ends) ==> ps.len() <= r.0,
{
    let n = g.free.len();
    let src = 2 * n;
    let snk = 2 * n + 1;
    let k = terms.len();
    let mut fg = FlowGraph::new(2 * n + 2);
    let mut v: usize = 0;
    while v < n
        invariant
            g.wf(),
            n == g.n(),
            16 * n + 4 * k + 8 <= usize::MAX,
            v <= n,
            fg.wf(),
            fresh_unit(&fg),
            only_split_edges(g, terms@, fg.to@),
            one_edge_per_in_half(n as int, fg.to@),
            fg.nn() == 2 * n + 2,
            fg.ne() <= 2 * v,
            cap_out_upto(fg.to@, fg.orig@, 2 * n, fg.np()) == 0,
            forall|u: int| 0 <= u < v && #[trigger] g.free@[u] ==> has_unit_edge(&fg, 2 * u, 2 * u + 1),
            forall|kk: int| 0 <= kk < fg.np() ==> #[trigger] fg.to@[2 * kk + 1] < 2 * v && fg.to@[2 * kk + 1] % 2 == 0,
        decreases n - v,
    {
        if g.free[v] {
            proof {
                assert(split_edge(g, terms@, 2 * v as int, 2 * v + 1));
                lemma_split_edges_push(g, terms@, fg.to@, (2 * v) as usize, (2 * v + 1) as usize);
                lemma_in_half_push(n as int, fg.to@, (2 * v) as usize, (2 * v + 1) as usize);
            }
            let ghost to0 = fg.to@;
            add_unit(&mut fg, 2 * v, 2 * v + 1);
            proof {
                assert forall|kk: int| 0 <= kk < fg.np() implies #[trigger] fg.to@[2 * kk + 1] < 2 * (v + 1) && fg.to@[2 * kk + 1]
                    % 2 == 0 by {
                    if kk < to0.len() / 2 {
                        assert(fg.to@[2 * kk + 1] == to0[2 * kk + 1]);
                    }
                }
            }
        }
        v = v + 1;
    }
    let mut v: usize = 0;
    while v < n
        invariant
            g.wf(),
            n == g.n(),
            16 * n + 4 * k + 8 <= usize::MAX,
            v <= n,
            fg.wf(),
            fresh_unit(&fg),
            only_split_edges(g, terms@, fg.to@),
            one_edge_per_in_half(n as int, fg.to@),
            fg.nn() == 2 * n + 2,
            fg.ne() <= 2 * n + 12 * v,
            cap_out_upto(fg.to@, fg.orig@, 2 * n, fg.np()) == 0,
            forall|u: int| 0 <= u < n && #[trigger] g.free@[u] ==> has_unit_edge(&fg, 2 * u, 2 * u + 1),
            forall|u: int, x: int|
                0 <= u < v && g.free@[u] && 0 <= x < g.nbrs(u).len() && g.free@[#[trigger] g.nbrs(u)[x]]
                    ==> has_unit_edge(&fg, 2 * u + 1, 2 * g.nbrs(u)[x]),
        decreases n - v,
    {
        if g.free[v] {
            let nbs = g.neighbors(v);
            proof {
                lemma_nbrs_len(g, v as int);
            }
            let mut x: usize = 0;
            while x < nbs.len()
                invariant
                    g.wf(),
                    n == g.n(),
                    16 * n + 4 * k + 8 <= usize::MAX,
                    v < n,
                    g.free@[v as int],
                    nbs@.len() == g.nbrs(v as int).len(),
                    nbs@.len() <= 6,
                    forall|y: int| 0 <= y < nbs@.len() ==> nbs@[y] as int == #[trigger] g.nbrs(v as int)[y],
                    forall|y: int| 0 <= y < nbs@.len() ==> #[trigger] nbs@[y] < g.n(),
                    x <= nbs@.len(),
                    fg.wf(),
                    fresh_unit(&fg),
            only_split_edges(g, terms@, fg.to@),
            one_edge_per_in_half(n as int, fg.to@),
                    fg.nn() == 2 * n + 2,
                    fg.ne() <= 2 * n + 12 * v + 2 * x,
                    cap_out_upto(fg.to@, fg.orig@, 2 * n, fg.np()) == 0,
                    forall|u: int| 0 <= u < n && #[trigger] g.free@[u] ==> has_unit_edge(&fg, 2 * u, 2 * u + 1),
                    forall|u: int, y: int|
                        0 <= u < v && g.free@[u] && 0 <= y < g.nbrs(u).len() && g.free@[#[trigger] g.nbrs(u)[y]]
                            ==> has_unit_edge(&fg, 2 * u + 1, 2 * g.nbrs(u)[y]),
                    forall|y: int|
                        0 <= y < x && g.free@[#[trigger] g.nbrs(v as int)[y]] ==> has_unit_edge(
                            &fg,
                            2 * v + 1,
                            2 * g.nbrs(v as int)[y],
                        ),
                decreases nbs@.len() - x,
            {
                let nb = nbs[x];
                if g.free[nb] {
                    proof {
                        assert(g.nbrs(v as int).contains(nb as int)) by {
                            assert(g.nbrs(v as int)[x as int] == nb as int);
                        }
                        assert((2 * v + 1) as int / 2 == v as int);
                        assert((2 * nb) as int / 2 == nb as int);
                        assert(split_edge(g, terms@, (2 * v + 1) as int, 2 * nb as int));
                        lemma_split_edges_push(g, terms@, fg.to@, (2 * v + 1) as usize, (2 * nb) as usize);
                        lemma_in_half_push(n as int, fg.to@, (2 * v + 1) as usize, (2 * nb) as usize);
                    }
                    add_unit(&mut fg, 2 * v + 1, 2 * nb);
                }
                x = x + 1;
            }
        }
        v = v + 1;
    }
    let mut m: usize = 0;
    while m < k
        invariant
            g.wf(),
            n == g.n(),
            k == terms@.len(),
            terms_ok(g, terms@),
            16 * n + 4 * k + 8 <= usize::MAX,
            src == 2 * n,
            snk == 2 * n + 1,
            m <= k,
            fg.wf(),
            fresh_unit(&fg),
            only_split_edges(g, terms@, fg.to@),
            one_edge_per_in_half(n as int, fg.to@),
            fg.nn() == 2 * n + 2,
            fg.ne() <= 14 * n + 4 * m,
            cap_out_upto(fg.to@, fg.orig@, 2 * n, fg.np()) == m,
            forall|u: int| 0 <= u < n && #[trigger] g.free@[u] ==> has_unit_edge(&fg, 2 * u, 2 * u + 1),
            forall|u: int, x: int|
                0 <= u < n && g.free@[u] && 0 <= x < g.nbrs(u).len() && g.free@[#[trigger] g.nbrs(u)[x]]
                    ==> has_unit_edge(&fg, 2 * u + 1, 2 * g.nbrs(u)[x]),
            forall|j: int|
                0 <= j < m ==> has_unit_edge(&fg, 2 * n, 2 * (#[trigger] terms@[j]).0) && has_unit_edge(
                    &fg,
                    2 * terms@[j].1 + 1,
                    2 * n + 1,
                ),
        decreases k - m,
    {
        let (a, b) = terms[m];
        proof {
            assert(terms@[m as int].0 < g.n() && terms@[m as int].1 < g.n());
        }
        proof {
            assert(split_edge(g, terms@, src as int, 2 * a as int)) by {
                assert(2 * a as int == 2 * terms@[m as int].0);
            }
            lemma_split_edges_push(g, terms@, fg.to@, src, (2 * a) as usize);
            lemma_in_half_push(n as int, fg.to@, src, (2 * a) as usize);
        }
        add_unit(&mut fg, src, 2 * a);
        proof {
            assert(split_edge(g, terms@, (2 * b + 1) as int, snk as int)) by {
                assert((2 * b + 1) as int == 2 * terms@[m as int].1 + 1);
            }
            lemma_split_edges_push(g, terms@, fg.to@, (2 * b + 1) as usize, snk);
            lemma_in_half_push(n as int, fg.to@, (2 * b + 1) as usize, snk);
        }
        add_unit(&mut fg, 2 * b + 1, snk);
        m = m + 1;
    }
    let ghost built: FlowGraph = fg;
    proof {
        assert forall|j: int| 0 <= j < built.np() implies #[trigger] built.cap@[2 * j + 1] == 0 by {
            assert(built.orig@[j] <= 1);
        }
        assert forall|x: int| #[trigger] built.net(x) == 0 by {
            lemma_fresh_net(built.to@, built.cap@, x, built.np());
        }
        assert(split_graph(g, terms@, &built));
    }
    let flow = fg.max_flow(src, snk);
    proof {
        assert forall|a: int, b: int| #[trigger] has_unit_edge(&built, a, b) implies has_unit_edge(&fg, a, b) by {
            let j = choose|j: int| #[trigger] unit_edge(&built, j, a, b);
            assert(unit_edge(&fg, j, a, b));
        }
        assert(split_graph(g, terms@, &fg));
        lemma_net_le_cap_out(fg.to@, fg.cap@, fg.orig@, 2 * n, fg.np());
        assert forall|x: int| 0 <= x < fg.nn() && x != 2 * n && x != 2 * n + 1 implies #[trigger] fg.net(x) == 0 by {
            assert(built.net(x) == 0);
        }
        if jointly_routable(g, terms@, 0, Set::empty()) {
            let ps = choose|ps: Seq<Seq<usize>>| joint_routing(g, terms@, 0, Set::empty(), ps);
            let rr = choose|rr: Seq<bool>| rr.len() == fg.nn() && rr[src as int] && !rr[snk as int] && #[trigger] fg.residual_closed(rr);
            lemma_flow_bounds_routing(g, terms@, &fg, rr, ps);
        }
    }
    if flow >= k {
        proof {
            assert(split_flow(g, terms@, &fg, flow as int));
        }
        return (flow, Vec::new());
    }
    let reach = fg.residual_reachable(src);
    proof {
        let rr = choose|rr: Seq<bool>| rr.len() == fg.nn() && rr[src as int] && !rr[snk as int] && #[trigger] fg.residual_closed(rr);
        if reach@[snk as int] {
            assert(rr[snk as int]);
        }
    }
    let mut cut: Vec<usize> = Vec::new();
    let ghost pred = |u: int| g.free@[u] && reach@[2 * u] && !reach@[2 * u + 1];
    let mut v: usize = 0;
    proof {
        assert(Seq::new(0, |u: int| u).filter(pred) =~= Seq::<int>::empty());
        assert(cut@.map_values(|u: usize| u as int) =~= Seq::<int>::empty());
    }
    while v < n
        invariant
            g.wf(),
            n == g.n(),
            16 * n + 8 <= usize::MAX,
            v <= n,
            reach@.len() == 2 * n + 2,
            pred == (|u: int| g.free@[u] && reach@[2 * u] && !reach@[2 * u + 1]),
            cut@.map_values(|u: usize| u as int) == Seq::new(v as nat, |u: int| u).filter(pred),
        decreases n - v,
    {
        let ghost before = cut@;
        proof {
            assert(Seq::new((v + 1) as nat, |u: int| u) =~= Seq::new(v as nat, |u: int| u).push(v as int));
            Seq::new(v as nat, |u: int| u).lemma_filter_push(v as int, pred);
        }
        if g.free[v] && reach[2 * v] && !reach[2 * v + 1] {
            cut.push(v);
            proof {
                assert(cut@.map_values(|u: usize| u as int) =~= before.map_values(|u: usize| u as int).push(v as int));
            }
        }
        v = v + 1;
    }
    proof {
        assert(min_cut_witness(g, terms@, &fg, reach@, flow as int));
        assert forall|ps: Seq<Seq<usize>>, ends: Seq<(int, int)>| #[trigger] disjoint_terminal_walks(
            g,
            terms@,
            ps,
            ends,
        ) implies ps.len() <= flow by {
            lemma_flow_bounds_walks(g, terms@, &fg, reach@, ps, ends);
        }
    }
    (flow, cut)
}

} // verus!
