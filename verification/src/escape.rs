//! Min-cost flow by successive cheapest augmenting paths for pin-field
//! escape planning (SPFA for the cheapest paths; breadth-first search to
//! settle reachability should a search not run to the end, which node
//! prices rule out for bounded costs). Networks are small, so simplicity
//! beats asymptotics here.
//!
//! Edges come in pairs: edge `2k` is the `k`-th forward edge and `2k + 1` its
//! reverse, whose capacity is zero and whose flow is the negated forward
//! flow.
use vstd::prelude::*;
use crate::flow::{lemma_xor_one, twin};
use crate::complete::{count_true, lemma_count_true_le, lemma_count_true_none, lemma_count_true_update};
use crate::prices::{
    costs_within, fuel_enough, lemma_queue_empty, lemma_queue_lower, lemma_queue_pop, lemma_queue_start,
    lemma_relaxed_all, lemma_relaxed_init, lemma_relaxed_lower, lemma_relaxed_next, lemma_relaxed_start,
    lemma_search_state_bounds, lemma_search_state_relax, lemma_search_state_start, prices_from, queue_ok, reached,
    relaxed, relaxed_but, search_core, search_state, settled_from, edge_relaxed, key_below, prev_tight,
    lemma_search_bounds, lemma_reprice, reprice,
};

verus! {

/// One directed edge of the residual network.
#[derive(Clone, Copy)]
pub struct FlowEdge {
    /// Head node.
    pub to: usize,
    /// Capacity.
    pub cap: i64,
    /// Cost per unit of flow.
    pub cost: i64,
    /// Flow carried.
    pub flow: i64,
}

/// Net flow out of `v` over forward edges `0..k` of `es`.
pub open spec fn net_of(es: Seq<FlowEdge>, v: int, k: int) -> int
    decreases k,
{
    if k <= 0 {
        0
    } else {
        let j = k - 1;
        let f = es[2 * j].flow as int;
        net_of(es, v, j) + (if es[2 * j + 1].to as int == v { f } else { 0 }) - (if es[2 * j].to as int == v {
            f
        } else {
            0
        })
    }
}

/// `b` is `a` with only the flows changed.
pub open spec fn same_shape(a: Seq<FlowEdge>, b: Seq<FlowEdge>) -> bool {
    &&& a.len() == b.len()
    &&& forall|e: int| 0 <= e < a.len() ==> same_edge_shape(a[e], #[trigger] b[e])
}

/// `y` is `x` with only the flow changed.
pub open spec fn same_edge_shape(x: FlowEdge, y: FlowEdge) -> bool {
    y.to == x.to && y.cap == x.cap && y.cost == x.cost
}

proof fn lemma_net_of_prefix(a: Seq<FlowEdge>, b: Seq<FlowEdge>, v: int, k: int)
    requires
        0 <= k,
        2 * k <= a.len(),
        2 * k <= b.len(),
        forall|e: int| 0 <= e < 2 * k ==> a[e] == b[e],
    ensures
        net_of(a, v, k) == net_of(b, v, k),
    decreases k,
{
    if k > 0 {
        lemma_net_of_prefix(a, b, v, k - 1);
        assert(a[2 * (k - 1)] == b[2 * (k - 1)]);
        assert(a[2 * (k - 1) + 1] == b[2 * (k - 1) + 1]);
    }
}

/// Moving `p` units along edge `e` (flow up on `e`, down on its twin) moves
/// `p` units of net flow from `e`'s tail to its head.
proof fn lemma_net_of_shift(es: Seq<FlowEdge>, es2: Seq<FlowEdge>, e: int, p: int, v: int, k: int)
    requires
        0 <= e < 2 * k,
        2 * k <= es.len(),
        es2.len() == es.len(),
        forall|x: int| 0 <= x < es.len() && x != e && x != twin(e) ==> es2[x] == es[x],
        es2[e].to == es[e].to,
        es2[twin(e)].to == es[twin(e)].to,
        es2[e].flow == es[e].flow + p,
        es2[twin(e)].flow == es[twin(e)].flow - p,
    ensures
        net_of(es2, v, k) == net_of(es, v, k) + (if es[twin(e)].to as int == v { p } else { 0 }) - (if es[e].to as int
            == v { p } else { 0 }),
    decreases k,
{
    let j = k - 1;
    if e / 2 == j {
        lemma_net_of_prefix(es, es2, v, j);
        if e % 2 == 0 {
            assert(twin(e) == 2 * j + 1);
        } else {
            assert(e == 2 * j + 1);
            assert(twin(e) == 2 * j);
        }
    } else {
        lemma_net_of_shift(es, es2, e, p, v, j);
        assert(es2[2 * j] == es[2 * j]);
        assert(es2[2 * j + 1] == es[2 * j + 1]);
    }
}

/// The reverse edge `r` mirrors forward edge `f`, whose flow lies between
/// zero and the non-negative part of its capacity.
pub open spec fn pair_ok(f: FlowEdge, r: FlowEdge) -> bool {
    &&& r.cap == 0
    &&& r.flow == -f.flow
    &&& r.cost == -f.cost
    &&& 0 <= f.flow
    &&& (f.flow <= f.cap || f.flow == 0)
}

/// Residual search tree over `net`: every reached node other than `s`
/// hangs off a reached node one step closer to `s`, across an edge with
/// capacity left.
#[verifier::opaque]
pub open spec fn net_tree(net: &FlowNet, s: int, seen: Seq<bool>, prev: Seq<usize>, dist: Seq<int>) -> bool {
    &&& seen.len() == net.nn()
    &&& prev.len() == net.nn()
    &&& dist.len() == net.nn()
    &&& 0 <= s < net.nn()
    &&& seen[s]
    &&& dist[s] == 0
    &&& forall|v: int| 0 <= v < net.nn() && #[trigger] seen[v] ==> dist[v] >= 0
    &&& forall|v: int|
        0 <= v < net.nn() && #[trigger] seen[v] && v != s ==> {
            &&& prev[v] < net.ne()
            &&& net.edges@[prev[v] as int].to == v
            &&& net.residual(prev[v] as int) > 0
            &&& 0 <= net.tail(prev[v] as int) < net.nn()
            &&& seen[net.tail(prev[v] as int)]
            &&& dist[net.tail(prev[v] as int)] + 1 == dist[v]
        }
}

#[verifier::opaque]
spec fn net_queue(n: int, q: Seq<usize>, seen: Seq<bool>, head: int) -> bool {
    &&& seen.len() == n
    &&& 0 <= head <= q.len()
    &&& q.len() == count_true(seen)
    &&& forall|i: int| 0 <= i < q.len() ==> #[trigger] q[i] < n && seen[q[i] as int]
    &&& forall|v: int| 0 <= v < n && #[trigger] seen[v] ==> exists|i: int| 0 <= i < q.len() && q[i] == v
}

#[verifier::opaque]
spec fn net_expanded(net: &FlowNet, q: Seq<usize>, seen: Seq<bool>, head: int) -> bool {
    forall|i: int, j: int|
        #![trigger q[i], net.adj@[q[i] as int]@[j]]
        0 <= i < head && 0 <= j < net.adj@[q[i] as int]@.len() && net.residual(net.adj@[q[i] as int]@[j] as int) > 0
            ==> seen[net.edges@[net.adj@[q[i] as int]@[j] as int].to as int]
}

proof fn lemma_net_reach(
    net: &FlowNet,
    s: int,
    seen: Seq<bool>,
    prev: Seq<usize>,
    dist: Seq<int>,
    q: Seq<usize>,
    head: int,
    u: int,
    j: int,
)
    requires
        net.wf(),
        net_tree(net, s, seen, prev, dist),
        net_queue(net.nn(), q, seen, head),
        net_expanded(net, q, seen, head),
        0 <= head < q.len(),
        u == q[head],
        0 <= j < net.adj@[u]@.len(),
        net.residual(net.adj@[u]@[j] as int) > 0,
        !seen[net.edges@[net.adj@[u]@[j] as int].to as int],
    ensures
        ({
            let e = net.adj@[u]@[j];
            let v = net.edges@[e as int].to as int;
            let seen2 = seen.update(v, true);
            let prev2 = prev.update(v, e);
            let dist2 = dist.update(v, dist[u] + 1);
            &&& net_tree(net, s, seen2, prev2, dist2)
            &&& net_queue(net.nn(), q.push(v as usize), seen2, head)
            &&& net_expanded(net, q.push(v as usize), seen2, head)
        }),
{
    reveal(net_tree);
    reveal(net_queue);
    reveal(net_expanded);
    let e = net.adj@[u]@[j];
    let v = net.edges@[e as int].to as int;
    let seen2 = seen.update(v, true);
    let prev2 = prev.update(v, e);
    let dist2 = dist.update(v, dist[u] + 1);
    let q2 = q.push(v as usize);
    assert(q[head] < net.nn() && seen[q[head] as int]);
    assert(e < net.ne() && net.tail(e as int) == u);
    assert(net.edges@[e as int].to < net.nn());
    lemma_count_true_update(seen, v);
    assert forall|w: int| 0 <= w < net.nn() && #[trigger] seen2[w] && w != s implies {
        &&& prev2[w] < net.ne()
        &&& net.edges@[prev2[w] as int].to == w
        &&& net.residual(prev2[w] as int) > 0
        &&& 0 <= net.tail(prev2[w] as int) < net.nn()
        &&& seen2[net.tail(prev2[w] as int)]
        &&& dist2[net.tail(prev2[w] as int)] + 1 == dist2[w]
    } by {
        if w != v {
            assert(seen[w]);
        }
    }
    assert forall|w: int| 0 <= w < net.nn() && #[trigger] seen2[w] implies exists|i: int| 0 <= i < q2.len() && q2[i] == w by {
        if w == v {
            assert(q2[q2.len() - 1] == w);
        } else {
            assert(seen[w]);
            let i = choose|i: int| 0 <= i < q.len() && q[i] == w;
            assert(q2[i] == w);
        }
    }
    assert forall|i: int| 0 <= i < q2.len() implies #[trigger] q2[i] < net.nn() && seen2[q2[i] as int] by {
        if i < q.len() {
            assert(q2[i] == q[i]);
        }
    }
    assert forall|i: int, x: int|
        #![trigger q2[i], net.adj@[q2[i] as int]@[x]]
        0 <= i < head && 0 <= x < net.adj@[q2[i] as int]@.len() && net.residual(net.adj@[q2[i] as int]@[x] as int) > 0
            implies seen2[net.edges@[net.adj@[q2[i] as int]@[x] as int].to as int] by {
        assert(q2[i] == q[i]);
        assert(seen[net.edges@[net.adj@[q[i] as int]@[x] as int].to as int]);
    }
}

/// Residual network with per-edge costs.
pub struct FlowNet {
    /// Edge storage; adjacency holds indices.
    pub edges: Vec<FlowEdge>,
    /// Per-node list of the edges leaving it.
    pub adj: Vec<Vec<usize>>,
}

impl FlowNet {
    /// Node count.
    pub open spec fn nn(&self) -> int {
        self.adj@.len() as int
    }

    /// Edge count.
    pub open spec fn ne(&self) -> int {
        self.edges@.len() as int
    }

    /// Tail node of edge `e`.
    pub open spec fn tail(&self, e: int) -> int {
        self.edges@[twin(e)].to as int
    }

    /// Capacity left on edge `e`.
    pub open spec fn residual(&self, e: int) -> int {
        self.edges@[e].cap - self.edges@[e].flow
    }

    /// Net flow out of node `v`.
    pub open spec fn net(&self, v: int) -> int {
        net_of(self.edges@, v, self.ne() / 2)
    }

    /// Well-formed: paired edges with consistent adjacency, every reverse
    /// edge the mirror of its forward edge, and every forward flow between
    /// zero and the (non-negative part of the) capacity.
    pub open spec fn wf(&self) -> bool {
        &&& self.ne() % 2 == 0
        &&& forall|e: int| 0 <= e < self.ne() ==> #[trigger] self.edges@[e].to < self.nn()
        &&& forall|u: int, j: int|
            0 <= u < self.nn() && 0 <= j < self.adj@[u]@.len() ==> #[trigger] self.adj@[u]@[j] < self.ne()
                && self.tail(self.adj@[u]@[j] as int) == u
        &&& forall|k: int| 0 <= k < self.ne() / 2 ==> pair_ok(#[trigger] self.edges@[2 * k], self.edges@[2 * k + 1])
    }


    /// `seen` is closed under residual edges: every edge listed at a node of
    /// `seen` that has capacity left leads into `seen`.
    pub open spec fn residual_closed(&self, seen: Seq<bool>) -> bool {
        forall|u: int, j: int|
            #![trigger seen[u], self.adj@[u]@[j]]
            0 <= u < self.nn() && seen[u] && 0 <= j < self.adj@[u]@.len() && self.residual(self.adj@[u]@[j] as int) > 0
                ==> seen[self.edges@[self.adj@[u]@[j] as int].to as int]
    }

    /// Breadth-first search from `s` over edges with capacity left: the
    /// reached set, closed under residual edges, and its search tree.
    fn residual_search(&self, s: usize) -> (r: (Vec<bool>, Vec<usize>, Ghost<Seq<int>>))
        requires
            self.wf(),
            s < self.nn(),
        ensures
            net_tree(self, s as int, r.0@, r.1@, r.2@),
            r.0@.len() == self.nn(),
            self.residual_closed(r.0@),
    {
        let n = self.adj.len();
        let mut prev: Vec<usize> = Vec::new();
        let mut seen: Vec<bool> = Vec::new();
        let mut i: usize = 0;
        while i < n
            invariant
                i <= n,
                prev@.len() == i,
                seen@.len() == i,
                forall|v: int| 0 <= v < i ==> !#[trigger] seen@[v],
            decreases n - i,
        {
            prev.push(usize::MAX);
            seen.push(false);
            i = i + 1;
        }
        let ghost mut dist: Seq<int> = Seq::new(n as nat, |i: int| 0);
        proof {
            assert(seen@ =~= Seq::new(n as nat, |i: int| false));
            lemma_count_true_none(n as nat);
            lemma_count_true_update(seen@, s as int);
        }
        seen.set(s, true);
        let mut q: Vec<usize> = Vec::new();
        q.push(s);
        let mut head: usize = 0;
        proof {
            reveal(net_tree);
            reveal(net_queue);
            reveal(net_expanded);
            assert forall|v: int| 0 <= v < n && #[trigger] seen@[v] implies exists|i: int| 0 <= i < q@.len() && q@[i] == v by {
                assert(q@[0] == v);
            }
        }
        while head < q.len()
            invariant
                self.wf(),
                n == self.nn(),
                s < n,
                seen@.len() == n,
                prev@.len() == n,
                dist.len() == n,
                net_tree(self, s as int, seen@, prev@, dist),
                net_queue(n as int, q@, seen@, head as int),
                net_expanded(self, q@, seen@, head as int),
            decreases n - head,
        {
            proof {
                reveal(net_queue);
                lemma_count_true_le(seen@);
            }
            let u = q[head];
            let deg = self.adj[u].len();
            let mut j: usize = 0;
            while j < deg
                invariant
                    self.wf(),
                    n == self.nn(),
                    s < n,
                    u < n,
                    head < q@.len(),
                    u == q@[head as int],
                    deg == self.adj@[u as int]@.len(),
                    j <= deg,
                    seen@.len() == n,
                    prev@.len() == n,
                    dist.len() == n,
                    net_tree(self, s as int, seen@, prev@, dist),
                    net_queue(n as int, q@, seen@, head as int),
                    net_expanded(self, q@, seen@, head as int),
                    forall|x: int|
                        0 <= x < j && self.residual(#[trigger] self.adj@[u as int]@[x] as int) > 0
                            ==> seen@[self.edges@[self.adj@[u as int]@[x] as int].to as int],
                decreases deg - j,
            {
                let e = self.adj[u][j];
                let res = self.residual_of(e);
                let v = self.edges[e].to;
                if res > 0 && !seen[v] {
                    proof {
                        lemma_net_reach(self, s as int, seen@, prev@, dist, q@, head as int, u as int, j as int);
                        dist = dist.update(v as int, dist[u as int] + 1);
                    }
                    let ghost seen0 = seen@;
                    seen.set(v, true);
                    prev.set(v, e);
                    q.push(v);
                    proof {
                        assert forall|x: int|
                            0 <= x < j + 1 && self.residual(#[trigger] self.adj@[u as int]@[x] as int) > 0
                                implies seen@[self.edges@[self.adj@[u as int]@[x] as int].to as int] by {
                            if x < j {
                                assert(seen0[self.edges@[self.adj@[u as int]@[x] as int].to as int]);
                            }
                        }
                    }
                }
                j = j + 1;
            }
            proof {
                reveal(net_expanded);
                reveal(net_queue);
            }
            head = head + 1;
        }
        proof {
            reveal(net_queue);
            reveal(net_expanded);
            assert forall|u: int, j: int|
                #![trigger seen@[u], self.adj@[u]@[j]]
                0 <= u < n && seen@[u] && 0 <= j < self.adj@[u]@.len() && self.residual(self.adj@[u]@[j] as int) > 0
                    implies seen@[self.edges@[self.adj@[u]@[j] as int].to as int] by {
                let i = choose|i: int| 0 <= i < q@.len() && q@[i] == u;
                assert(q@[i] == u);
                assert(self.adj@[q@[i] as int]@[j] == self.adj@[u]@[j]);
            }
        }
        (seen, prev, Ghost(dist))
    }

    /// A path with capacity left from `s` to `t`, as the edges walked back
    /// from `t` and the least capacity left on them (capped at `cap`), with
    /// its nodes from `t` back to `s`; `None` when `t` cannot be reached, as
    /// a residual-closed set holding `s` but not `t` shows.
    fn residual_path(&self, s: usize, t: usize, cap: i64) -> (r: Option<(Vec<usize>, i64, Ghost<Seq<int>>)>)
        requires
            self.wf(),
            s < self.nn(),
            t < self.nn(),
            s != t,
            cap >= 1,
        ensures
            r is None ==> exists|c: Seq<bool>| c.len() == self.nn() && c[s as int] && !c[t as int] && #[trigger] self.residual_closed(c),
            r matches Some((pe, push, nodes)) ==> {
                &&& nodes@.len() == pe@.len() + 1
                &&& nodes@[0] == t
                &&& nodes@.last() == s
                &&& 1 <= push <= cap
                &&& forall|a: int|
                    0 <= a < pe@.len() ==> {
                        &&& #[trigger] pe@[a] < self.ne()
                        &&& self.edges@[pe@[a] as int].to == nodes@[a]
                        &&& self.tail(pe@[a] as int) == nodes@[a + 1]
                        &&& self.residual(pe@[a] as int) >= push
                    }
                &&& forall|a: int| 0 <= a < nodes@.len() ==> 0 <= #[trigger] nodes@[a] < self.nn()
                &&& forall|a: int, b: int| 0 <= a < b < nodes@.len() ==> #[trigger] nodes@[a] != #[trigger] nodes@[b]
                &&& forall|a: int| 0 <= a < nodes@.len() - 1 ==> #[trigger] nodes@[a] != s
            },
    {
        let (seen, prev, Ghost(dist)) = self.residual_search(s);
        proof {
            reveal(net_tree);
        }
        if !seen[t] {
            proof {
                assert(seen@.len() == self.nn() && seen@[s as int] && !seen@[t as int] && self.residual_closed(seen@));
            }
            return None;
        }
        let mut push = cap;
        let mut pe: Vec<usize> = Vec::new();
        let ghost mut nodes: Seq<int> = seq![t as int];
        let mut v = t;
        while v != s
            invariant
                self.wf(),
                net_tree(self, s as int, seen@, prev@, dist),
                seen@.len() == self.nn(),
                dist.len() == self.nn(),
                v < self.nn(),
                seen@[v as int],
                nodes.len() == pe@.len() + 1,
                nodes[0] == t,
                nodes.last() == v,
                1 <= push <= cap,
                forall|a: int|
                    0 <= a < pe@.len() ==> {
                        &&& #[trigger] pe@[a] < self.ne()
                        &&& self.edges@[pe@[a] as int].to == nodes[a]
                        &&& self.tail(pe@[a] as int) == nodes[a + 1]
                        &&& self.residual(pe@[a] as int) >= push
                    },
                forall|a: int| 0 <= a < nodes.len() ==> 0 <= #[trigger] nodes[a] < self.nn() && seen@[nodes[a]],
                forall|a: int, b: int| 0 <= a < b < nodes.len() ==> dist[#[trigger] nodes[a]] > dist[#[trigger] nodes[b]],
                forall|a: int| 0 <= a < nodes.len() - 1 ==> #[trigger] nodes[a] != s,
            decreases dist[v as int],
        {
            proof {
                reveal(net_tree);
            }
            let e = prev[v];
            let r = self.residual_of(e);
            if r < push {
                push = r;
            }
            proof {
                lemma_xor_one(e);
            }
            let u = self.edges[e ^ 1].to;
            proof {
                assert(twin(e as int) == (e ^ 1) as int);
                let old_nodes = nodes;
                nodes = nodes.push(u as int);
                assert forall|a: int, b: int| 0 <= a < b < nodes.len() implies dist[#[trigger] nodes[a]] > dist[#[trigger] nodes[b]] by {
                    if b == nodes.len() - 1 {
                        if a < old_nodes.len() - 1 {
                            assert(dist[old_nodes[a]] > dist[old_nodes[old_nodes.len() - 1]]);
                        }
                    } else {
                        assert(nodes[a] == old_nodes[a] && nodes[b] == old_nodes[b]);
                    }
                }
            }
            pe.push(e);
            v = u;
        }
        proof {
            assert forall|a: int, b: int| 0 <= a < b < nodes.len() implies #[trigger] nodes[a] != #[trigger] nodes[b] by {
                assert(dist[nodes[a]] > dist[nodes[b]]);
            }
        }
        Some((pe, push, Ghost(nodes)))
    }

    /// `prev[v]` is a usable edge into `v` from a node the search reached.
    pub open spec fn prev_ok(&self, dist: Seq<i64>, prev: Seq<usize>, v: int) -> bool {
        &&& prev[v] < self.ne()
        &&& self.edges@[prev[v] as int].to == v
        &&& self.residual(prev[v] as int) > 0
        &&& 0 <= self.tail(prev[v] as int) < dist.len()
        &&& dist[self.tail(prev[v] as int)] != i64::MAX
    }

    /// Capacity left on edge `e`.
    fn residual_of(&self, e: usize) -> (r: i64)
        requires
            self.wf(),
            e < self.ne(),
        ensures
            r == self.residual(e as int),
    {
        proof {
            let k = (e / 2) as int;
            assert(pair_ok(self.edges@[2 * k], self.edges@[2 * k + 1]));
        }
        self.edges[e].cap - self.edges[e].flow
    }

    /// The largest cost magnitude over all edges (zero when some cost is
    /// `i64::MIN`, which no cost bound admits).
    fn max_cost(&self) -> (c: i64)
        ensures
            c >= 0,
            forall|b: int| #[trigger] costs_within(self, b) ==> costs_within(self, c as int),
    {
        let mut c: i64 = 0;
        let mut i: usize = 0;
        while i < self.edges.len()
            invariant
                i <= self.ne(),
                c >= 0,
                forall|e: int| 0 <= e < i ==> -c <= #[trigger] self.edges@[e].cost <= c,
                forall|b: int| #[trigger] costs_within(self, b) ==> c <= b,
            decreases self.ne() - i,
        {
            let x = self.edges[i].cost;
            if x == i64::MIN {
                proof {
                    assert forall|b: int| #[trigger] costs_within(self, b) implies false by {
                        assert(b <= i64::MAX) by (nonlinear_arith)
                            requires
                                0 <= b,
                                (self.nn() + 1) * b <= i64::MAX,
                                self.nn() >= 0,
                        ;
                        assert(-b <= self.edges@[i as int].cost);
                    }
                }
                return 0;
            }
            let m = if x < 0 { -x } else { x };
            if m > c {
                c = m;
            }
            proof {
                assert forall|b: int| #[trigger] costs_within(self, b) implies c <= b by {
                    assert(-b <= self.edges@[i as int].cost <= b);
                }
            }
            i = i + 1;
        }
        proof {
            assert forall|b: int| #[trigger] costs_within(self, b) implies costs_within(self, c as int) by {
                assert((self.nn() + 1) * c <= (self.nn() + 1) * b) by (nonlinear_arith)
                    requires
                        0 <= c <= b,
                        self.nn() >= 0,
                ;
            }
        }
        c
    }

    /// Dequeue budget for one search: `1 + n * (c * n + 1)`, or `usize::MAX`
    /// where that does not fit.
    fn search_fuel(n: usize, c: i64) -> (f: usize)
        requires
            c >= 0,
            n >= 1,
        ensures
            fuel_enough(n as int, c as int, f as int),
    {
        if c as u64 > usize::MAX as u64 {
            return usize::MAX;
        }
        let cu = c as usize;
        let r = match cu.checked_mul(n) {
            Some(a) => match a.checked_add(1) {
                Some(b) => match b.checked_mul(n) {
                    Some(d) => d.checked_add(1),
                    None => None,
                },
                None => None,
            },
            None => None,
        };
        match r {
            Some(f) => {
                proof {
                    let ni = n as int;
                    let ci = c as int;
                    assert(1 + (ni - 1) * (ci * (ni - 1) + 1) <= 1 + ni * (ci * ni + 1)) by (nonlinear_arith)
                        requires
                            ni >= 1,
                            ci >= 0,
                    ;
                    assert(f == 1 + ni * (ci * ni + 1)) by (nonlinear_arith)
                        requires
                            f == (ci * ni + 1) * ni + 1,
                    ;
                }
                f
            },
            None => usize::MAX,
        }
    }

    /// Shortest distances by cost from `s` over edges with capacity left
    /// (SPFA: Bellman–Ford with a FIFO queue of nodes whose distance
    /// dropped), each reached node's last relaxing edge, and whether the
    /// search ran to the end: the queue emptied within `fuel` dequeues and
    /// no relaxation overflowed, so every listed edge with capacity left out
    /// of a reached node is relaxed. Under prices `p` that settle the flow
    /// from `s`, with every cost within `c` and enough fuel, the search runs
    /// to the end, and its tree edges are tight and ordered.
    fn spfa(&self, s: usize, c: i64, fuel: usize, Ghost(p): Ghost<Seq<int>>) -> (r: (
        Vec<i64>,
        Vec<usize>,
        bool,
        Ghost<Seq<int>>,
    ))
        requires
            self.wf(),
            s < self.nn(),
        ensures
            r.0@.len() == self.nn(),
            r.1@.len() == self.nn(),
            r.0@[s as int] != i64::MAX,
            forall|v: int| 0 <= v < self.nn() && #[trigger] r.0@[v] != i64::MAX && v != s ==> self.prev_ok(r.0@, r.1@, v),
            r.2 ==> relaxed(self, r.0@),
            costs_within(self, c as int) && prices_from(self, s as int, p) && fuel_enough(self.nn(), c as int, fuel as int)
                ==> r.2 && search_core(self, s as int, c as int, p, r.0@, r.1@, r.3@),
    {
        let ghost good = costs_within(self, c as int) && prices_from(self, s as int, p) && fuel_enough(
            self.nn(),
            c as int,
            fuel as int,
        );
        let n = self.adj.len();
        let mut dist: Vec<i64> = Vec::new();
        let mut in_q: Vec<bool> = Vec::new();
        let mut prev: Vec<usize> = Vec::new();
        let mut i: usize = 0;
        while i < n
            invariant
                i <= n,
                dist@.len() == i,
                in_q@.len() == i,
                prev@.len() == i,
                forall|v: int| 0 <= v < i ==> #[trigger] dist@[v] == i64::MAX,
                forall|v: int| 0 <= v < i ==> !#[trigger] in_q@[v],
            decreases n - i,
        {
            dist.push(i64::MAX);
            in_q.push(false);
            prev.push(usize::MAX);
            i = i + 1;
        }
        dist.set(s, 0);
        let mut q: Vec<usize> = Vec::new();
        q.push(s);
        in_q.set(s, true);
        let mut head: usize = 0;
        let mut skipped = false;
        let ghost mut st: Seq<int> = Seq::new(n as nat, |v: int| 0int);
        let ghost mut clock: int = 1;
        let ghost mut lastu: int = s as int;
        proof {
            lemma_queue_start(n as int, s as int, in_q@, dist@);
            assert(q@ =~= seq![s]);
            lemma_relaxed_init(self, dist@, in_q@, s as int);
            if good {
                lemma_search_state_start(self, s as int, c as int, p, dist@, prev@);
            }
        }
        while head < q.len() && head < fuel
            invariant
                self.wf(),
                n == self.nn(),
                s < n,
                dist@.len() == n,
                in_q@.len() == n,
                prev@.len() == n,
                0 <= lastu < n,
                queue_ok(n as int, q@, head as int, in_q@, dist@),
                dist@[s as int] != i64::MAX,
                forall|v: int| 0 <= v < n && #[trigger] dist@[v] != i64::MAX && v != s ==> self.prev_ok(dist@, prev@, v),
                !skipped ==> relaxed_but(self, dist@, in_q@, lastu, self.adj@[lastu]@.len() as int),
                good == (costs_within(self, c as int) && prices_from(self, s as int, p) && fuel_enough(
                    n as int,
                    c as int,
                    fuel as int,
                )),
                good ==> !skipped,
                good ==> search_state(self, s as int, c as int, p, dist@, prev@, st, clock, q@.len() as int),
            decreases fuel - head,
        {
            proof {
                lemma_queue_pop(n as int, q@, head as int, in_q@, dist@);
                if !skipped {
                    lemma_relaxed_start(self, dist@, in_q@, q@[head as int] as int, lastu);
                }
            }
            let u = q[head];
            head = head + 1;
            in_q.set(u, false);
            proof {
                lastu = u as int;
            }
            let deg = self.adj[u].len();
            let mut j: usize = 0;
            while j < deg
                invariant
                    self.wf(),
                    n == self.nn(),
                    s < n,
                    u < n,
                    lastu == u,
                    head <= q@.len(),
                    head <= fuel,
                    deg == self.adj@[u as int]@.len(),
                    j <= deg,
                    dist@.len() == n,
                    in_q@.len() == n,
                    prev@.len() == n,
                    queue_ok(n as int, q@, head as int, in_q@, dist@),
                    dist@[s as int] != i64::MAX,
                    dist@[u as int] != i64::MAX,
                    forall|v: int| 0 <= v < n && #[trigger] dist@[v] != i64::MAX && v != s ==> self.prev_ok(dist@, prev@, v),
                    !skipped ==> relaxed_but(self, dist@, in_q@, u as int, j as int),
                    good == (costs_within(self, c as int) && prices_from(self, s as int, p) && fuel_enough(
                        n as int,
                        c as int,
                        fuel as int,
                    )),
                    good ==> !skipped,
                    good ==> !in_q@[u as int],
                    good ==> search_state(self, s as int, c as int, p, dist@, prev@, st, clock, q@.len() as int),
                decreases deg - j,
            {
                let eid = self.adj[u][j];
                let res = self.residual_of(eid);
                let du = dist[u];
                let ghost d0 = dist@;
                let ghost inq0 = in_q@;
                if res > 0 && du != i64::MAX {
                    let to = self.edges[eid].to;
                    let qlen_now = q.len();
                    proof {
                        if good {
                            assert(qlen_now == q@.len());
                            lemma_search_state_bounds(self, s as int, c as int, p, dist@, prev@, st, clock, q@.len() as int, fuel as int);
                            assert(-c <= self.edges@[eid as int].cost <= c);
                        }
                    }
                    match du.checked_add(self.edges[eid].cost) {
                        Some(nd) => {
                            if nd < dist[to] {
                                let ghost p0 = prev@;
                                let ghost q0 = q@;
                                proof {
                                    lemma_queue_lower(n as int, q@, head as int, in_q@, dist@, to as int, nd);
                                    if !skipped {
                                        lemma_relaxed_lower(self, dist@, in_q@, u as int, j as int, nd);
                                    }
                                    if good {
                                        let ql2: int = if in_q@[to as int] { q@.len() as int } else { q@.len() as int + 1 };
                                        lemma_search_state_relax(self, s as int, c as int, p, dist@, prev@, st, clock, q@.len() as int, ql2, u as int, j as int, nd as int);
                                    }
                                }
                                dist.set(to, nd);
                                prev.set(to, eid);
                                proof {
                                    if good {
                                        st = st.update(to as int, clock);
                                        clock = clock + 1;
                                    }
                                    assert(self.tail(eid as int) == u);
                                    assert forall|v: int|
                                        0 <= v < n && #[trigger] dist@[v] != i64::MAX && v != s implies self.prev_ok(
                                        dist@,
                                        prev@,
                                        v,
                                    ) by {
                                        if v != to as int {
                                            assert(d0[v] != i64::MAX);
                                            assert(self.prev_ok(d0, p0, v));
                                            assert(prev@[v] == p0[v]);
                                        }
                                    }
                                }
                                if !in_q[to] {
                                    q.push(to);
                                    in_q.set(to, true);
                                } else {
                                    proof {
                                        assert(in_q@.update(to as int, true) =~= in_q@);
                                    }
                                }
                            } else if dist[to] == i64::MAX {
                                skipped = true;
                            } else {
                                proof {
                                    if !skipped {
                                        lemma_relaxed_next(self, dist@, in_q@, u as int, j as int);
                                    }
                                }
                            }
                        },
                        None => {
                            skipped = true;
                        },
                    }
                } else {
                    proof {
                        if !skipped {
                            lemma_relaxed_next(self, dist@, in_q@, u as int, j as int);
                        }
                    }
                }
                j = j + 1;
            }
        }
        let qlen_end = q.len();
        let complete = head >= qlen_end && !skipped;
        proof {
            if good {
                assert(qlen_end == q@.len());
                lemma_search_state_bounds(self, s as int, c as int, p, dist@, prev@, st, clock, q@.len() as int, fuel as int);
            }
            if complete {
                lemma_queue_empty(n as int, q@, head as int, in_q@, dist@);
                lemma_relaxed_all(self, dist@, in_q@, lastu);
            }
        }
        (dist, prev, complete, Ghost(st))
    }

    /// Push up to `want` units from `s` to `t` along successive cheapest
    /// augmenting paths; returns the units placed. Fewer than `want` units
    /// are placed only when no path with capacity left leads from `s` to `t`.
    /// Where every edge cost lies within a bound `c` with `(n + 1) * c`
    /// fitting an `i64`, and prices settle the flow from `s` on entry (as
    /// they do an empty flow over non-negative costs), the flow placed is
    /// settled too: no residual cycle has a negative cost, the optimality
    /// condition of a cheapest flow of its value.
    pub fn mcmf(&mut self, s: usize, t: usize, want: i64) -> (total: i64)
        requires
            old(self).wf(),
            s < old(self).nn(),
            t < old(self).nn(),
        ensures
            final(self).wf(),
            same_shape(old(self).edges@, final(self).edges@),
            final(self).adj@ == old(self).adj@,
            0 <= total,
            want <= 0 ==> total == 0,
            want > 0 ==> total <= want,
            s != t ==> final(self).net(s as int) == old(self).net(s as int) + total,
            s != t ==> final(self).net(t as int) == old(self).net(t as int) - total,
            forall|x: int| x != s && x != t ==> #[trigger] final(self).net(x) == old(self).net(x),
            s == t ==> total == (if want > 0 { want } else { 0 }),
            s != t && total < want ==> exists|c: Seq<bool>|
                c.len() == final(self).nn() && c[s as int] && !c[t as int] && #[trigger] final(self).residual_closed(c),
            forall|c: int|
                #[trigger] costs_within(old(self), c) && settled_from(old(self), s as int) ==> settled_from(
                    final(self),
                    s as int,
                ),
    {
        let n = self.adj.len();
        let cmax = self.max_cost();
        let fuel = Self::search_fuel(n, cmax);
        let ghost good: bool = costs_within(self, cmax as int) && settled_from(self, s as int);
        let ghost mut p: Seq<int> = if good {
            choose|p: Seq<int>| #[trigger] prices_from(self, s as int, p)
        } else {
            Seq::empty()
        };
        let mut total: i64 = 0;
        while total < want
            invariant
                self.wf(),
                n == self.nn(),
                fuel_enough(n as int, cmax as int, fuel as int),
                good ==> costs_within(self, cmax as int) && prices_from(self, s as int, p),
                s < n,
                t < n,
                same_shape(old(self).edges@, self.edges@),
                self.adj@ == old(self).adj@,
                0 <= total,
                want > 0 ==> total <= want,
                want <= 0 ==> total == 0,
                s != t ==> self.net(s as int) == old(self).net(s as int) + total,
                s != t ==> self.net(t as int) == old(self).net(t as int) - total,
                forall|x: int| x != s && x != t ==> #[trigger] self.net(x) == old(self).net(x),
                s == t ==> (total == 0 || (want > 0 && total == want)),
            ensures
                s == t ==> total == (if want > 0 { want } else { 0 }),
                s != t && total < want ==> exists|c: Seq<bool>|
                    c.len() == self.nn() && c[s as int] && !c[t as int] && #[trigger] self.residual_closed(c),
                good ==> prices_from(self, s as int, p),
            decreases want - total,
        {
            let (dist, prev, complete, Ghost(st)) = self.spfa(s, cmax, fuel, Ghost(p));
            if dist[t] == i64::MAX && complete {
                proof {
                    let c = reached(dist@);
                    assert forall|u: int, j: int|
                        #![trigger c[u], self.adj@[u]@[j]]
                        0 <= u < self.nn() && c[u] && 0 <= j < self.adj@[u]@.len() && self.residual(self.adj@[u]@[j] as int)
                            > 0 implies c[self.edges@[self.adj@[u]@[j] as int].to as int] by {
                        assert(edge_relaxed(self, dist@, u, j));
                    }
                    assert(c.len() == self.nn() && c[s as int] && !c[t as int] && self.residual_closed(c));
                }
                break;
            }
            let mut push: i64 = want - total;
            let mut pe: Vec<usize> = Vec::new();
            let ghost mut nodes: Seq<int> = seq![t as int];
            let mut cyclic = dist[t] == i64::MAX;
            if !cyclic {
                let mut on_path: Vec<bool> = Vec::new();
                let mut i: usize = 0;
                while i < n
                    invariant
                        i <= n,
                        on_path@.len() == i,
                        forall|w: int| 0 <= w < i ==> !#[trigger] on_path@[w],
                    decreases n - i,
                {
                    on_path.push(false);
                    i = i + 1;
                }
                proof {
                    assert(on_path@ =~= Seq::new(n as nat, |w: int| false));
                    lemma_count_true_none(n as nat);
                    lemma_count_true_update(on_path@, t as int);
                }
                on_path.set(t, true);
                proof {
                    assert forall|w: int| 0 <= w < n && #[trigger] on_path@[w] implies exists|a: int|
                        0 <= a < seq![t as int].len() && seq![t as int][a] == w by {
                        assert(w == t as int);
                        assert(seq![t as int][0] == w);
                    }
                }
                let mut v = t;
                while v != s && !cyclic
                    invariant
                        self.wf(),
                        n == self.nn(),
                        s < n,
                        t < n,
                        v < n,
                        dist@.len() == n,
                        prev@.len() == n,
                        on_path@.len() == n,
                        forall|w: int| 0 <= w < n && #[trigger] dist@[w] != i64::MAX && w != s ==> self.prev_ok(dist@, prev@, w),
                        dist@[v as int] != i64::MAX,
                        nodes.len() == pe@.len() + 1,
                        nodes[0] == t,
                        nodes.last() == v,
                        count_true(on_path@) == nodes.len(),
                        forall|a: int|
                            0 <= a < pe@.len() ==> {
                                &&& #[trigger] pe@[a] < self.ne()
                                &&& self.edges@[pe@[a] as int].to == nodes[a]
                                &&& self.tail(pe@[a] as int) == nodes[a + 1]
                                &&& self.residual(pe@[a] as int) >= push
                            },
                        forall|a: int| 0 <= a < nodes.len() ==> 0 <= #[trigger] nodes[a] < n && on_path@[nodes[a]],
                        forall|w: int| 0 <= w < n && #[trigger] on_path@[w] ==> exists|a: int| 0 <= a < nodes.len() && nodes[a] == w,
                        forall|a: int, b: int| 0 <= a < b < nodes.len() ==> #[trigger] nodes[a] != #[trigger] nodes[b],
                        forall|a: int| 0 <= a < nodes.len() - 1 ==> #[trigger] nodes[a] != s,
                        1 <= push,
                        push <= want - total,
                        s == t ==> v == s && !cyclic && push == want - total,
                        good ==> !cyclic,
                        good ==> search_core(self, s as int, cmax as int, p, dist@, prev@, st),
                        good ==> relaxed(self, dist@),
                        good ==> forall|a: int|
                            0 <= a < pe@.len() ==> {
                                &&& dist@[#[trigger] nodes[a]] != i64::MAX
                                &&& dist@[nodes[a + 1]] != i64::MAX
                                &&& dist@[nodes[a]] == dist@[nodes[a + 1]] + self.edges@[pe@[a] as int].cost
                            },
                        good ==> forall|a: int| 0 <= a < nodes.len() - 1 ==> key_below(dist@, p, st, v as int, #[trigger] nodes[a]),
                    decreases n - pe@.len(), if cyclic { 0int } else { 1int },
                {
                    proof {
                        lemma_count_true_le(on_path@);
                    }
                    let eid = prev[v];
                    let r = self.residual_of(eid);
                    if r < push {
                        push = r;
                    }
                    proof {
                        lemma_xor_one(eid);
                    }
                    let u = self.edges[eid ^ 1].to;
                    proof {
                        if good {
                            assert(prev_tight(self, dist@, prev@, p, st, v as int));
                            assert(self.tail(eid as int) == u as int);
                            let j = choose|j: int| 0 <= j < self.adj@[u as int]@.len() && #[trigger] self.adj@[u as int]@[j] == prev@[v as int];
                            assert(edge_relaxed(self, dist@, u as int, j));
                            assert(key_below(dist@, p, st, u as int, v as int));
                            if on_path@[u as int] {
                                let a = choose|a: int| 0 <= a < nodes.len() && nodes[a] == u as int;
                                if a < nodes.len() - 1 {
                                    assert(key_below(dist@, p, st, v as int, nodes[a]));
                                }
                            }
                        }
                    }
                    if on_path[u] {
                        cyclic = true;
                    } else {
                        proof {
                            lemma_count_true_update(on_path@, u as int);
                        }
                        on_path.set(u, true);
                        pe.push(eid);
                        proof {
                            let old_nodes = nodes;
                            nodes = nodes.push(u as int);
                            assert forall|w: int| 0 <= w < n && #[trigger] on_path@[w] implies exists|a: int|
                                0 <= a < nodes.len() && nodes[a] == w by {
                                if w != u as int {
                                    let a = choose|a: int| 0 <= a < old_nodes.len() && old_nodes[a] == w;
                                    assert(nodes[a] == w);
                                } else {
                                    assert(nodes[nodes.len() - 1] == w);
                                }
                            }
                            assert forall|a: int, b: int| 0 <= a < b < nodes.len() implies #[trigger] nodes[a] != #[trigger] nodes[b] by {
                                if b == nodes.len() - 1 && nodes[a] == nodes[b] {
                                    assert(on_path@[old_nodes[a]]);
                                }
                            }
                            if good {
                                assert forall|a: int| 0 <= a < pe@.len() implies {
                                    &&& dist@[#[trigger] nodes[a]] != i64::MAX
                                    &&& dist@[nodes[a + 1]] != i64::MAX
                                    &&& dist@[nodes[a]] == dist@[nodes[a + 1]] + self.edges@[pe@[a] as int].cost
                                } by {
                                    if a < pe@.len() - 1 {
                                        assert(nodes[a] == old_nodes[a] && nodes[a + 1] == old_nodes[a + 1]);
                                    }
                                }
                                assert forall|a: int| 0 <= a < nodes.len() - 1 implies key_below(dist@, p, st, u as int, #[trigger] nodes[a]) by {
                                    if a < old_nodes.len() - 1 {
                                        assert(key_below(dist@, p, st, v as int, old_nodes[a]));
                                    }
                                }
                            }
                        }
                        v = u;
                    }
                }
                proof {
                    if !cyclic {
                        assert(nodes.last() == s as int);
                    }
                }
            }
            if cyclic {
                proof {
                    assert(s != t);
                    assert(!good);
                }
                // The cheapest-path search came back without a usable path to
                // `t`; settle reachability exactly and push along any path
                // with capacity left, so the flow stops only at a cut.
                match self.residual_path(s, t, want - total) {
                    None => {
                        break;
                    },
                    Some((p2, k2, n2)) => {
                        pe = p2;
                        push = k2;
                        proof {
                            nodes = n2@;
                        }
                    },
                }
            }
            let ghost es0 = self.edges@;
            let ghost before: FlowNet = *self;
            proof {
                assert forall|a: int, b: int| 0 <= a < b < pe@.len() implies #[trigger] pe@[a] != #[trigger] pe@[b]
                    && pe@[a] as int != twin(pe@[b] as int) && twin(pe@[a] as int) != pe@[b] as int by {
                    assert(nodes[a] != nodes[b]);
                    assert(nodes[a] != nodes[b + 1]);
                    if a + 1 < b {
                        assert(nodes[a + 1] != nodes[b]);
                    }
                    if twin(pe@[a] as int) == pe@[b] as int {
                        assert(twin(twin(pe@[a] as int)) == pe@[a] as int);
                        assert(b == a + 1);
                        assert(nodes[a] != nodes[a + 2]);
                    }
                }
            }
            let mut i: usize = 0;
            while i < pe.len()
                invariant
                    self.wf(),
                    before.wf(),
                    n == self.nn(),
                    self.adj@ == before.adj@,
                    same_shape(es0, self.edges@),
                    es0 == before.edges@,
                    i <= pe@.len(),
                    nodes.len() == pe@.len() + 1,
                    nodes[0] == t,
                    forall|a: int|
                        0 <= a < pe@.len() ==> {
                            &&& #[trigger] pe@[a] < before.ne()
                            &&& before.edges@[pe@[a] as int].to == nodes[a]
                            &&& before.tail(pe@[a] as int) == nodes[a + 1]
                            &&& before.residual(pe@[a] as int) >= push
                        },
                    forall|a: int, b: int|
                        0 <= a < b < pe@.len() ==> #[trigger] pe@[a] != #[trigger] pe@[b] && pe@[a] as int != twin(
                            pe@[b] as int,
                        ) && twin(pe@[a] as int) != pe@[b] as int,
                    forall|a: int|
                        i <= a < pe@.len() ==> self.edges@[#[trigger] pe@[a] as int] == es0[pe@[a] as int]
                            && self.edges@[twin(pe@[a] as int)] == es0[twin(pe@[a] as int)],
                    forall|x: int|
                        #[trigger] self.net(x) == before.net(x) + (if x == nodes[i as int] { push as int } else { 0 }) - (
                        if x == t as int { push as int } else { 0 }),
                    1 <= push,
                    forall|x: int|
                        0 <= x < self.ne() ==> (#[trigger] self.edges@[x]).flow >= es0[x].flow || exists|a: int|
                            0 <= a < i && #[trigger] pe@[a] as int == twin(x),
                decreases pe@.len() - i,
            {
                let e = pe[i];
                proof {
                    lemma_xor_one(e);
                }
                let ex = e ^ 1;
                let ghost cur = self.edges@;
                let ghost cur_net: FlowNet = *self;
                let ed = self.edges[e];
                let er = self.edges[ex];
                proof {
                    let k = (e / 2) as int;
                    assert(pair_ok(cur[2 * k], cur[2 * k + 1]));
                    assert(cur[e as int] == es0[e as int]);
                    assert(cur[twin(e as int)] == es0[twin(e as int)]);
                    assert(before.residual(e as int) >= push);
                }
                self.edges.set(e, FlowEdge { to: ed.to, cap: ed.cap, cost: ed.cost, flow: ed.flow + push });
                self.edges.set(ex, FlowEdge { to: er.to, cap: er.cap, cost: er.cost, flow: er.flow - push });
                proof {
                    let k = (e / 2) as int;
                    assert(ex as int == twin(e as int));
                    assert forall|x: int|
                        #[trigger] self.net(x) == before.net(x) + (if x == nodes[i + 1] { push as int } else { 0 }) - (
                        if x == t as int { push as int } else { 0 }) by {
                        lemma_net_of_shift(cur, self.edges@, e as int, push as int, x, self.ne() / 2);
                        assert(cur_net.net(x) == before.net(x) + (if x == nodes[i as int] { push as int } else { 0 }) - (
                        if x == t as int { push as int } else { 0 }));
                    }
                    assert forall|j: int| 0 <= j < self.ne() / 2 implies pair_ok(#[trigger] self.edges@[2 * j], self.edges@[2 * j + 1]) by {
                        if j != k {
                            assert(self.edges@[2 * j] == cur[2 * j]);
                            assert(self.edges@[2 * j + 1] == cur[2 * j + 1]);
                            assert(pair_ok(cur[2 * j], cur[2 * j + 1]));
                        }
                    }
                    assert forall|a: int|
                        i + 1 <= a < pe@.len() implies self.edges@[#[trigger] pe@[a] as int] == es0[pe@[a] as int]
                            && self.edges@[twin(pe@[a] as int)] == es0[twin(pe@[a] as int)] by {
                        assert(pe@[i as int] != pe@[a] && pe@[i as int] as int != twin(pe@[a] as int) && twin(
                            pe@[i as int] as int,
                        ) != pe@[a] as int);
                        assert(twin(twin(pe@[a] as int)) == pe@[a] as int);
                    }
                    assert forall|x: int| 0 <= x < self.ne() implies #[trigger] self.edges@[x].to < self.nn() by {
                        assert(self.edges@[x].to == cur[x].to);
                    }
                    assert forall|x: int| 0 <= x < es0.len() implies same_edge_shape(es0[x], #[trigger] self.edges@[x]) by {
                        assert(same_edge_shape(es0[x], cur[x]));
                    }
                    assert forall|x: int|
                        0 <= x < self.ne() implies (#[trigger] self.edges@[x]).flow >= es0[x].flow || exists|a: int|
                            0 <= a < i + 1 && #[trigger] pe@[a] as int == twin(x) by {
                        if x == ex as int {
                            assert(twin(twin(e as int)) == e as int);
                            assert(pe@[i as int] as int == twin(x));
                        } else if x != e as int {
                            assert(self.edges@[x] == cur[x]);
                            if !(cur[x].flow >= es0[x].flow) {
                                let a = choose|a: int| 0 <= a < i && #[trigger] pe@[a] as int == twin(x);
                                assert(pe@[a] as int == twin(x));
                            }
                        }
                    }
                    assert forall|u: int, j: int|
                        0 <= u < self.nn() && 0 <= j < self.adj@[u]@.len() implies #[trigger] self.adj@[u]@[j] < self.ne()
                            && self.tail(self.adj@[u]@[j] as int) == u by {
                        assert(cur_net.tail(self.adj@[u]@[j] as int) == u);
                    }
                }
                i = i + 1;
            }
            proof {
                if good {
                    lemma_search_bounds(&before, s as int, cmax as int, p, dist@, prev@, st);
                    assert forall|x: int| 0 <= x < before.ne() implies (#[trigger] self.edges@[x]).to == before.edges@[x].to
                        && self.edges@[x].cap == before.edges@[x].cap && self.edges@[x].cost == before.edges@[x].cost by {
                        assert(same_edge_shape(es0[x], self.edges@[x]));
                    }
                    lemma_reprice(&before, self, s as int, cmax as int, p, dist@, pe@, nodes);
                    p = reprice(p, dist@, cmax * n);
                }
            }
            total = total + push;
        }
        total
    }

    /// An empty network on `n` nodes.
    pub fn new(n: usize) -> (r: Self)
        ensures
            r.wf(),
            r.nn() == n,
            r.ne() == 0,
    {
        let mut adj: Vec<Vec<usize>> = Vec::new();
        let mut i: usize = 0;
        while i < n
            invariant
                i <= n,
                adj@.len() == i,
                forall|u: int| 0 <= u < i ==> (#[trigger] adj@[u])@.len() == 0,
            decreases n - i,
        {
            adj.push(Vec::new());
            i = i + 1;
        }
        FlowNet { edges: Vec::new(), adj }
    }

    /// Add edge `from → to` with capacity `cap` and unit cost `cost`, and its
    /// reverse; returns the forward edge's index.
    pub fn add_edge(&mut self, from: usize, to: usize, cap: i64, cost: i64) -> (id: usize)
        requires
            old(self).wf(),
            from < old(self).nn(),
            to < old(self).nn(),
            cost > i64::MIN,
            old(self).ne() + 2 <= usize::MAX,
        ensures
            final(self).wf(),
            id == old(self).ne(),
            final(self).nn() == old(self).nn(),
            final(self).edges@ == old(self).edges@.push(FlowEdge { to, cap, cost, flow: 0 }).push(
                FlowEdge { to: from, cap: 0, cost: (-cost) as i64, flow: 0 },
            ),
    {
        let id = self.edges.len();
        self.edges.push(FlowEdge { to, cap, cost, flow: 0 });
        self.edges.push(FlowEdge { to: from, cap: 0, cost: -cost, flow: 0 });
        let ghost adj0 = self.adj@;
        self.adj[from].push(id);
        self.adj[to].push(id + 1);
        proof {
            assert(twin(id as int) == id + 1);
            assert(twin(id + 1) == id as int);
            assert forall|x: int| 0 <= x < self.ne() implies #[trigger] self.edges@[x].to < self.nn() by {
                if x < id {
                    assert(old(self).edges@[x] == self.edges@[x]);
                }
            }
            assert forall|u: int, j: int|
                0 <= u < self.nn() && 0 <= j < self.adj@[u]@.len() implies #[trigger] self.adj@[u]@[j] < self.ne()
                && self.tail(self.adj@[u]@[j] as int) == u by {
                let x = self.adj@[u]@[j] as int;
                if u != from as int && u != to as int {
                    assert(self.adj@[u] == old(self).adj@[u]);
                    assert(old(self).adj@[u]@[j] < old(self).ne() && old(self).tail(x) == u);
                    assert(old(self).edges@[twin(x)] == self.edges@[twin(x)]);
                } else if j < old(self).adj@[u]@.len() {
                    assert(self.adj@[u]@[j] == old(self).adj@[u]@[j]);
                    assert(old(self).adj@[u]@[j] < old(self).ne() && old(self).tail(x) == u);
                    assert(old(self).edges@[twin(x)] == self.edges@[twin(x)]);
                } else {
                    assert(x == id || x == id + 1);
                }
            }
            assert(self.ne() % 2 == 0);
            assert forall|k: int| 0 <= k < self.ne() / 2 implies pair_ok(#[trigger] self.edges@[2 * k], self.edges@[2 * k + 1]) by {
                if k < id / 2 {
                    assert(self.edges@[2 * k] == old(self).edges@[2 * k]);
                    assert(self.edges@[2 * k + 1] == old(self).edges@[2 * k + 1]);
                }
            }
        }
        id
    }
}

/// The node a walk leaves grid node `c` from: a cell's in-node `c` (below
/// `n_grid`) is left through its out-node `n_grid + c`.
pub open spec fn exit_node(c: int, n_grid: int) -> int {
    if c < n_grid {
        n_grid + c
    } else {
        c
    }
}

/// `net` has a forward edge from `a` to `b`.
pub open spec fn forward_edge(net: &FlowNet, a: int, b: int) -> bool {
    exists|k: int| 0 <= k < net.ne() / 2 && #[trigger] net.edges@[2 * k + 1].to == a && net.edges@[2 * k].to == b
}

/// `walk` leaves `pad` along a forward edge, steps along forward edges
/// (leaving each cell by its out-node) and ends with an edge into `t`.
pub open spec fn escape_walk(net: &FlowNet, pad: int, n_grid: int, t: int, walk: Seq<usize>) -> bool {
    &&& walk.len() >= 1
    &&& forward_edge(net, pad, walk[0] as int)
    &&& forall|i: int|
        0 <= i < walk.len() - 1 ==> forward_edge(net, exit_node(#[trigger] walk[i] as int, n_grid), walk[i + 1] as int)
    &&& forward_edge(net, exit_node(walk[walk.len() - 1] as int, n_grid), t)
}

/// The first forward edge listed at `u`, from position `x` on, that still
/// has a flow unit left in `left`.
pub open spec fn first_unit(net: &FlowNet, left: Seq<i64>, u: int, x: int) -> Option<usize>
    decreases net.adj@[u]@.len() - x,
{
    if x < 0 || x >= net.adj@[u]@.len() {
        None
    } else {
        let e = net.adj@[u]@[x];
        if e % 2 == 0 && left[e as int] > 0 {
            Some(e)
        } else {
            first_unit(net, left, u, x + 1)
        }
    }
}

/// `left` with one unit of edge `e` claimed.
pub open spec fn claim(left: Seq<i64>, e: usize) -> Seq<i64> {
    left.update(e as int, (left[e as int] - 1) as i64)
}

/// `p` followed by the walk in `o`, if any.
pub open spec fn prepend(p: Seq<usize>, o: Option<Seq<usize>>) -> Option<Seq<usize>> {
    match o {
        Some(w) => Some(p + w),
        None => None,
    }
}

/// The greedy walk from grid node `cur` with at most `fuel` steps: leave
/// `cur` by the first forward edge with a unit left (claiming it), stop on
/// reaching `t`, give up when no unit is left or the steps run out. Returns
/// the walk and the units left afterwards.
pub open spec fn walk_from(net: &FlowNet, left: Seq<i64>, cur: int, n_grid: int, t: int, fuel: nat) -> (Option<Seq<usize>>, Seq<i64>)
    decreases fuel,
{
    if fuel == 0 {
        (None, left)
    } else {
        match first_unit(net, left, exit_node(cur, n_grid), 0) {
            None => (None, left),
            Some(e) => {
                let l2 = claim(left, e);
                let to = net.edges@[e as int].to as int;
                if to == t {
                    (Some(seq![cur as usize]), l2)
                } else {
                    let (w, l3) = walk_from(net, l2, to, n_grid, t, (fuel - 1) as nat);
                    (prepend(seq![cur as usize], w), l3)
                }
            },
        }
    }
}

/// The walks of pads `pad_base .. pad_base + k`, in turn, from the units
/// `left`: each pad claims its first forward edge with a unit left and
/// walks on from there with at most `4 · n_grid` steps.
pub open spec fn pad_walks(net: &FlowNet, left: Seq<i64>, pad_base: int, k: nat, n_grid: int, t: int) -> (Seq<Option<Seq<usize>>>, Seq<i64>)
    decreases k,
{
    if k == 0 {
        (Seq::empty(), left)
    } else {
        let (ws, l) = pad_walks(net, left, pad_base, (k - 1) as nat, n_grid, t);
        match first_unit(net, l, pad_base + k - 1, 0) {
            None => (ws.push(None), l),
            Some(e) => {
                let (w, l2) = walk_from(net, claim(l, e), net.edges@[e as int].to as int, n_grid, t, (4 * n_grid) as nat);
                (ws.push(w), l2)
            },
        }
    }
}

/// The flow of every edge, as units to hand out.
pub open spec fn flow_units(net: &FlowNet) -> Seq<i64> {
    net.edges@.map_values(|e: FlowEdge| e.flow)
}

/// The walks as plain sequences.
pub open spec fn walk_views(r: Seq<Option<Vec<usize>>>) -> Seq<Option<Seq<usize>>> {
    r.map_values(|o: Option<Vec<usize>>| match o {
        Some(v) => Some(v@),
        None => None,
    })
}

/// Decompose a placed flow into one walk per pad node `pad_base + k`,
/// `k < pads`: from the pad, follow forward edges that still carry flow
/// (first such edge in adjacency order), claiming one unit on each, until an
/// edge into `t` is taken. A pad with no unit left, or a walk that stalls or
/// exceeds `4 · n_grid` steps, gives `None`.
pub fn escape_walks(net: &FlowNet, pad_base: usize, pads: usize, n_grid: usize, t: usize) -> (r: Vec<Option<Vec<usize>>>)
    requires
        net.wf(),
        n_grid >= 1,
        2 * n_grid <= net.nn(),
        4 * n_grid <= usize::MAX,
        pad_base + pads <= net.nn(),
        t < net.nn(),
    ensures
        r@.len() == pads,
        walk_views(r@) == pad_walks(net, flow_units(net), pad_base as int, pads as nat, n_grid as int, t as int).0,
        forall|k: int|
            0 <= k < pads && #[trigger] r@[k] is Some ==> escape_walk(net, pad_base + k, n_grid as int, t as int, r@[k]->0@),
{
    let ne = net.edges.len();
    let ghost l0 = flow_units(net);
    let mut left: Vec<i64> = Vec::new();
    let mut e: usize = 0;
    while e < ne
        invariant
            ne == net.ne(),
            l0 == flow_units(net),
            e <= ne,
            left@ == l0.take(e as int),
        decreases ne - e,
    {
        left.push(net.edges[e].flow);
        proof {
            assert(left@ =~= l0.take(e + 1));
        }
        e = e + 1;
    }
    proof {
        assert(left@ =~= l0);
        assert(walk_views(Seq::<Option<Vec<usize>>>::empty()) =~= Seq::<Option<Seq<usize>>>::empty());
    }
    let nn = net.adj.len();
    let mut out: Vec<Option<Vec<usize>>> = Vec::new();
    let mut k: usize = 0;
    while k < pads
        invariant
            net.wf(),
            nn == net.nn(),
            n_grid >= 1,
            2 * n_grid <= net.nn(),
            4 * n_grid <= usize::MAX,
            pad_base + pads <= net.nn(),
            t < net.nn(),
            left@.len() == net.ne(),
            k <= pads,
            out@.len() == k,
            (walk_views(out@), left@) == pad_walks(net, l0, pad_base as int, k as nat, n_grid as int, t as int),
            forall|j: int|
                0 <= j < k && #[trigger] out@[j] is Some ==> escape_walk(net, pad_base + j, n_grid as int, t as int, out@[j]->0@),
        decreases pads - k,
    {
        let pad = pad_base + k;
        let ghost lk = left@;
        let ghost mut chosen: usize = 0;
        let mut cur = usize::MAX;
        let mut x: usize = 0;
        let deg = net.adj[pad].len();
        while x < deg && cur == usize::MAX
            invariant
                net.wf(),
                nn == net.nn(),
                pad < net.nn(),
                deg == net.adj@[pad as int]@.len(),
                x <= deg,
                left@.len() == net.ne(),
                lk.len() == net.ne(),
                cur == usize::MAX || (cur < net.nn() && forward_edge(net, pad as int, cur as int)),
                cur == usize::MAX ==> left@ == lk && first_unit(net, lk, pad as int, 0) == first_unit(net, lk, pad as int, x as int),
                cur != usize::MAX ==> first_unit(net, lk, pad as int, 0) == Some(chosen) && left@ == claim(lk, chosen)
                    && cur == net.edges@[chosen as int].to,
            decreases deg - x,
        {
            let eid = net.adj[pad][x];
            if eid % 2 == 0 && left[eid] > 0 {
                cur = net.edges[eid].to;
                left.set(eid, left[eid] - 1);
                proof {
                    let kk = (eid / 2) as int;
                    assert(twin(eid as int) == 2 * kk + 1);
                    assert(net.edges@[2 * kk + 1].to == pad && net.edges@[2 * kk].to == cur);
                    chosen = eid;
                    assert(left@ =~= claim(lk, eid));
                }
            }
            x = x + 1;
        }
        let ghost ws = walk_views(out@);
        if cur == usize::MAX {
            out.push(None);
            proof {
                assert(first_unit(net, lk, pad as int, deg as int) is None);
                assert(walk_views(out@) =~= ws.push(None));
            }
        } else {
            let ghost lw = left@;
            let ghost c0 = cur as int;
            let mut walk: Vec<usize> = Vec::new();
            let mut reached = false;
            let mut stalled = false;
            let mut guard: usize = 0;
            let limit = 4 * n_grid;
            proof {
                let r0 = walk_from(net, lw, c0, n_grid as int, t as int, limit as nat);
                assert(prepend(walk@, r0.0) == r0.0) by {
                    if r0.0 is Some {
                        assert(walk@ + r0.0->0 =~= r0.0->0);
                    }
                }
            }
            while guard < limit && !reached && !stalled
                invariant
                    net.wf(),
                    n_grid >= 1,
                    2 * n_grid <= net.nn(),
                    t < net.nn(),
                    pad < net.nn(),
                    limit == 4 * n_grid,
                    left@.len() == net.ne(),
                    cur < net.nn(),
                    guard <= limit,
                    walk@.len() == 0 ==> forward_edge(net, pad as int, cur as int) && !reached && !stalled,
                    walk@.len() > 0 ==> forward_edge(net, pad as int, walk@[0] as int),
                    walk@.len() > 0 && !reached && !stalled ==> forward_edge(
                        net,
                        exit_node(walk@[walk@.len() - 1] as int, n_grid as int),
                        cur as int,
                    ),
                    forall|i: int|
                        0 <= i < walk@.len() - 1 ==> forward_edge(
                            net,
                            exit_node(#[trigger] walk@[i] as int, n_grid as int),
                            walk@[i + 1] as int,
                        ),
                    reached ==> walk@.len() >= 1 && forward_edge(
                        net,
                        exit_node(walk@[walk@.len() - 1] as int, n_grid as int),
                        t as int,
                    ),
                    !reached && !stalled ==> walk_from(net, lw, c0, n_grid as int, t as int, limit as nat) == (prepend(
                        walk@,
                        walk_from(net, left@, cur as int, n_grid as int, t as int, (limit - guard) as nat).0,
                    ), walk_from(net, left@, cur as int, n_grid as int, t as int, (limit - guard) as nat).1),
                    reached ==> walk_from(net, lw, c0, n_grid as int, t as int, limit as nat) == (Some(walk@), left@),
                    stalled ==> !reached && walk_from(net, lw, c0, n_grid as int, t as int, limit as nat) == (
                        None::<Seq<usize>>,
                        left@,
                    ),
                decreases limit - guard, if reached || stalled { 0int } else { 1int },
            {
                let ghost fuel = (limit - guard) as nat;
                let ghost lc = left@;
                let ghost pre = walk@;
                guard = guard + 1;
                walk.push(cur);
                proof {
                    assert forall|i: int|
                        0 <= i < walk@.len() - 1 implies forward_edge(
                        net,
                        exit_node(#[trigger] walk@[i] as int, n_grid as int),
                        walk@[i + 1] as int,
                    ) by {
                        if i < pre.len() - 1 {
                            assert(walk@[i] == pre[i] && walk@[i + 1] == pre[i + 1]);
                        } else {
                            assert(walk@[i] == pre[pre.len() - 1]);
                        }
                    }
                }
                let ghost cur0 = cur;
                proof {
                    if cur < n_grid {
                        vstd::arithmetic::div_mod::lemma_small_mod(cur as nat, n_grid as nat);
                    }
                }
                let from = if cur < n_grid { n_grid + cur % n_grid } else { cur };
                let mut advanced = false;
                let ghost mut step: usize = 0;
                let deg2 = net.adj[from].len();
                let mut y: usize = 0;
                while y < deg2 && !reached && !advanced
                    invariant
                        net.wf(),
                        from < net.nn(),
                        from as int == exit_node(cur0 as int, n_grid as int),
                        deg2 == net.adj@[from as int]@.len(),
                        y <= deg2,
                        left@.len() == net.ne(),
                        lc.len() == net.ne(),
                        t < net.nn(),
                        cur < net.nn(),
                        !reached && !advanced ==> cur == cur0,
                        advanced ==> !reached && forward_edge(net, from as int, cur as int),
                        reached ==> !advanced && forward_edge(net, from as int, t as int),
                        !reached && !advanced ==> left@ == lc && first_unit(net, lc, from as int, 0) == first_unit(
                            net,
                            lc,
                            from as int,
                            y as int,
                        ),
                        reached || advanced ==> first_unit(net, lc, from as int, 0) == Some(step) && left@ == claim(
                            lc,
                            step,
                        ),
                        reached ==> net.edges@[step as int].to == t,
                        advanced ==> net.edges@[step as int].to == cur && cur != t,
                    decreases deg2 - y,
                {
                    let eid = net.adj[from][y];
                    if eid % 2 == 0 && left[eid] > 0 {
                        let to = net.edges[eid].to;
                        left.set(eid, left[eid] - 1);
                        proof {
                            let kk = (eid / 2) as int;
                            assert(twin(eid as int) == 2 * kk + 1);
                            assert(net.edges@[2 * kk + 1].to == from && net.edges@[2 * kk].to == to);
                            step = eid;
                            assert(left@ =~= claim(lc, eid));
                        }
                        if to == t {
                            reached = true;
                        } else {
                            cur = to;
                            advanced = true;
                        }
                    }
                    y = y + 1;
                }
                if !reached && !advanced {
                    stalled = true;
                }
                proof {
                    let total = walk_from(net, lw, c0, n_grid as int, t as int, limit as nat);
                    assert(fuel >= 1);
                    if stalled {
                        assert(first_unit(net, lc, from as int, deg2 as int) is None);
                        assert(walk_from(net, lc, cur0 as int, n_grid as int, t as int, fuel) == (None::<Seq<usize>>, lc));
                    } else if reached {
                        assert(walk_from(net, lc, cur0 as int, n_grid as int, t as int, fuel) == (Some(seq![cur0]), left@));
                        assert(pre + seq![cur0] =~= walk@);
                    } else {
                        let rest = walk_from(net, left@, cur as int, n_grid as int, t as int, (fuel - 1) as nat);
                        assert(walk_from(net, lc, cur0 as int, n_grid as int, t as int, fuel) == (prepend(seq![cur0], rest.0), rest.1));
                        assert(prepend(pre, prepend(seq![cur0], rest.0)) == prepend(walk@, rest.0)) by {
                            if rest.0 is Some {
                                assert(pre + (seq![cur0] + rest.0->0) =~= walk@ + rest.0->0);
                            }
                        }
                        assert((limit - guard) as nat == (fuel - 1) as nat);
                    }
                }
            }
            proof {
                if !reached && !stalled {
                    assert(guard == limit);
                    assert(walk_from(net, left@, cur as int, n_grid as int, t as int, 0) == (None::<Seq<usize>>, left@));
                }
            }
            if reached {
                out.push(Some(walk));
            } else {
                out.push(None);
            }
            proof {
                assert(walk_views(out@) =~= ws.push(walk_from(net, lw, c0, n_grid as int, t as int, limit as nat).0));
            }
        }
        k = k + 1;
    }
    out
}

} // verus!
