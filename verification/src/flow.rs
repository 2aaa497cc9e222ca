//! Unit-step max-flow (Edmonds–Karp: BFS augmenting paths) over an
//! adjacency-list residual graph, with the cut facts that make its value an
//! upper bound certificate.
//!
//! Edges come in pairs: edge `2k` is the `k`-th forward edge and `2k + 1` its
//! reverse. The flow on forward edge `k` is the reverse edge's residual
//! capacity.
use vstd::prelude::*;
use crate::complete::{count_true, lemma_count_true_update, lemma_count_true_none, lemma_count_true_le};

verus! {

/// `e ^ 1` is the other edge of `e`'s pair.
pub proof fn lemma_xor_one(e: usize)
    ensures
        e % 2 == 0 ==> e ^ 1 == e + 1,
        e % 2 == 1 ==> e ^ 1 == e - 1,
{
    assert(e % 2 == 0 ==> e ^ 1 == e + 1) by (bit_vector);
    assert(e % 2 == 1 ==> e ^ 1 == e - 1) by (bit_vector);
}

/// The other edge of `e`'s pair.
pub open spec fn twin(e: int) -> int {
    if e % 2 == 0 { e + 1 } else { e - 1 }
}

/// Net flow out of `v` over forward edges `0..k`: flow leaving `v` minus flow
/// entering it.
pub open spec fn net_upto(to: Seq<usize>, cap: Seq<i64>, v: int, k: int) -> int
    decreases k,
{
    if k <= 0 {
        0
    } else {
        let j = k - 1;
        let f = cap[2 * j + 1] as int;
        net_upto(to, cap, v, j) + (if to[2 * j + 1] as int == v { f } else { 0 }) - (if to[2 * j] as int == v {
            f
        } else {
            0
        })
    }
}


/// Total capacity of forward edges `0..k` leaving `v`.
pub open spec fn cap_out_upto(to: Seq<usize>, orig: Seq<i64>, v: int, k: int) -> int
    decreases k,
{
    if k <= 0 {
        0
    } else {
        cap_out_upto(to, orig, v, k - 1) + if to[2 * (k - 1) + 1] as int == v { orig[k - 1] as int } else { 0 }
    }
}

/// Net flow out of `v` never exceeds the capacity leaving it.
pub proof fn lemma_net_le_cap_out(to: Seq<usize>, cap: Seq<i64>, orig: Seq<i64>, v: int, k: int)
    requires
        0 <= k,
        2 * k <= to.len(),
        2 * k <= cap.len(),
        k <= orig.len(),
        forall|j: int| 0 <= j < k ==> #[trigger] orig[j] == cap[2 * j] + cap[2 * j + 1],
        forall|j: int| 0 <= j < 2 * k ==> #[trigger] cap[j] >= 0,
    ensures
        net_upto(to, cap, v, k) <= cap_out_upto(to, orig, v, k),
    decreases k,
{
    if k > 0 {
        lemma_net_le_cap_out(to, cap, orig, v, k - 1);
        let j = k - 1;
        assert(orig[j] == cap[2 * j] + cap[2 * j + 1]);
        assert(cap[2 * j] >= 0);
        assert(cap[2 * j + 1] >= 0);
    }
}

/// Pushing one unit along forward-or-reverse edge `e` (capacity down on `e`,
/// up on its twin) moves one unit of net flow from `e`'s tail to its head.
pub proof fn lemma_net_push(to: Seq<usize>, cap: Seq<i64>, e: int, v: int, k: int)
    requires
        0 <= e < 2 * k,
        2 * k <= to.len(),
        2 * k <= cap.len(),
        cap[e] >= 1,
        cap[twin(e)] < i64::MAX,
    ensures
        net_upto(to, cap.update(e, (cap[e] - 1) as i64).update(twin(e), (cap[twin(e)] + 1) as i64), v, k) == net_upto(
            to,
            cap,
            v,
            k,
        ) + (if to[twin(e)] as int == v { 1int } else { 0int }) - (if to[e] as int == v { 1int } else { 0int }),
    decreases k,
{
    let cap2 = cap.update(e, (cap[e] - 1) as i64).update(twin(e), (cap[twin(e)] + 1) as i64);
    let j = k - 1;
    if e / 2 == j {
        // The pair touched is the last one; the prefix is unchanged.
        assert forall|x: int| 0 <= x < 2 * j implies cap2[x] == cap[x] by {}
        lemma_net_prefix_eq(to, cap, cap2, v, j);
        if e % 2 == 0 {
            assert(twin(e) == 2 * j + 1);
        } else {
            assert(e == 2 * j + 1);
            assert(twin(e) == 2 * j);
        }
    } else {
        lemma_net_push(to, cap, e, v, j);
        assert(cap2[2 * j + 1] == cap[2 * j + 1]);
    }
}

proof fn lemma_net_prefix_eq(to: Seq<usize>, c1: Seq<i64>, c2: Seq<i64>, v: int, k: int)
    requires
        0 <= k,
        2 * k <= c1.len(),
        2 * k <= c2.len(),
        forall|x: int| 0 <= x < 2 * k ==> c1[x] == c2[x],
    ensures
        net_upto(to, c1, v, k) == net_upto(to, c2, v, k),
    decreases k,
{
    if k > 0 {
        lemma_net_prefix_eq(to, c1, c2, v, k - 1);
        assert(c1[2 * (k - 1) + 1] == c2[2 * (k - 1) + 1]);
    }
}


/// Residual BFS tree: reached nodes hang off reached predecessors across
/// positive-capacity edges, one step closer to `s`.
#[verifier::opaque]
pub open spec fn residual_tree(g: &FlowGraph, s: int, seen: Seq<bool>, prev: Seq<usize>, dist: Seq<int>) -> bool {
    &&& seen.len() == g.nn()
    &&& prev.len() == g.nn()
    &&& dist.len() == g.nn()
    &&& 0 <= s < g.nn()
    &&& seen[s]
    &&& dist[s] == 0
    &&& forall|v: int| 0 <= v < g.nn() && #[trigger] seen[v] ==> dist[v] >= 0
    &&& forall|v: int|
        0 <= v < g.nn() && #[trigger] seen[v] && v != s ==> {
            &&& prev[v] < g.ne()
            &&& g.to@[prev[v] as int] == v
            &&& g.cap@[prev[v] as int] > 0
            &&& seen[g.tail(prev[v] as int)]
            &&& dist[g.tail(prev[v] as int)] + 1 == dist[v]
        }
}

#[verifier::opaque]
spec fn residual_queue(n: int, q: Seq<usize>, seen: Seq<bool>, head: int) -> bool {
    &&& seen.len() == n
    &&& 0 <= head <= q.len()
    &&& q.len() == count_true(seen)
    &&& forall|i: int| 0 <= i < q.len() ==> #[trigger] q[i] < n && seen[q[i] as int]
    &&& forall|v: int| 0 <= v < n && #[trigger] seen[v] ==> exists|i: int| 0 <= i < q.len() && q[i] == v
}

#[verifier::opaque]
spec fn residual_expanded(g: &FlowGraph, q: Seq<usize>, seen: Seq<bool>, head: int) -> bool {
    forall|i: int, j: int|
        #![trigger q[i], g.adj@[q[i] as int]@[j]]
        0 <= i < head && 0 <= j < g.adj@[q[i] as int]@.len() && g.cap@[g.adj@[q[i] as int]@[j] as int] > 0
            ==> seen[g.to@[g.adj@[q[i] as int]@[j] as int] as int]
}


proof fn lemma_residual_reach(
    g: &FlowGraph,
    s: int,
    seen: Seq<bool>,
    prev: Seq<usize>,
    dist: Seq<int>,
    q: Seq<usize>,
    head: int,
    u: int,
    e: int,
)
    requires
        g.wf(),
        residual_tree(g, s, seen, prev, dist),
        residual_queue(g.nn(), q, seen, head),
        residual_expanded(g, q, seen, head),
        0 <= head < q.len(),
        u == q[head],
        0 <= e < g.ne(),
        g.adj@[u]@.contains(e as usize),
        g.cap@[e] > 0,
        !seen[g.to@[e] as int],
    ensures
        ({
            let v = g.to@[e] as int;
            let seen2 = seen.update(v, true);
            let prev2 = prev.update(v, e as usize);
            let dist2 = dist.update(v, dist[u] + 1);
            &&& residual_tree(g, s, seen2, prev2, dist2)
            &&& residual_queue(g.nn(), q.push(v as usize), seen2, head)
            &&& residual_expanded(g, q.push(v as usize), seen2, head)
            &&& residual_expanded(g, q, seen2, head)
            &&& count_true(seen2) == count_true(seen) + 1
        }),
{
    reveal(residual_tree);
    reveal(residual_queue);
    reveal(residual_expanded);
    let v = g.to@[e] as int;
    let seen2 = seen.update(v, true);
    let prev2 = prev.update(v, e as usize);
    let dist2 = dist.update(v, dist[u] + 1);
    let q2 = q.push(v as usize);
    let j = choose|j: int| 0 <= j < g.adj@[u]@.len() && g.adj@[u]@[j] == e as usize;
    assert(q[head] < g.nn());
    assert(g.adj@[u]@[j] < g.ne() && g.tail(g.adj@[u]@[j] as int) == u);
    assert(g.tail(e) == u);
    assert(q[head] < g.nn() && seen[q[head] as int]);
    assert(g.to@[e] < g.nn());
    lemma_count_true_update(seen, v);
    assert forall|w: int| 0 <= w < g.nn() && #[trigger] seen2[w] && w != s implies {
        &&& prev2[w] < g.ne()
        &&& g.to@[prev2[w] as int] == w
        &&& g.cap@[prev2[w] as int] > 0
        &&& seen2[g.tail(prev2[w] as int)]
        &&& dist2[g.tail(prev2[w] as int)] + 1 == dist2[w]
    } by {
        if w != v {
            assert(seen[w]);
        }
    }
    assert forall|w: int| 0 <= w < g.nn() && #[trigger] seen2[w] implies exists|i: int| 0 <= i < q2.len() && q2[i] == w by {
        if w == v {
            assert(q2[q2.len() - 1] == w);
        } else {
            assert(seen[w]);
            let i = choose|i: int| 0 <= i < q.len() && q[i] == w;
            assert(q2[i] == w);
        }
    }
    assert forall|i: int| 0 <= i < q2.len() implies #[trigger] q2[i] < g.nn() && seen2[q2[i] as int] by {
        if i < q.len() {
            assert(q2[i] == q[i]);
        }
    }
    assert forall|i: int, x: int|
        #![trigger q2[i], g.adj@[q2[i] as int]@[x]]
        0 <= i < head && 0 <= x < g.adj@[q2[i] as int]@.len() && g.cap@[g.adj@[q2[i] as int]@[x] as int] > 0
            implies seen2[g.to@[g.adj@[q2[i] as int]@[x] as int] as int] by {
        assert(q2[i] == q[i]);
        assert(seen[g.to@[g.adj@[q[i] as int]@[x] as int] as int]);
    }
    assert forall|i: int, x: int|
        #![trigger q[i], g.adj@[q[i] as int]@[x]]
        0 <= i < head && 0 <= x < g.adj@[q[i] as int]@.len() && g.cap@[g.adj@[q[i] as int]@[x] as int] > 0
            implies seen2[g.to@[g.adj@[q[i] as int]@[x] as int] as int] by {
        assert(seen[g.to@[g.adj@[q[i] as int]@[x] as int] as int]);
    }
}

proof fn lemma_residual_done(g: &FlowGraph, q: Seq<usize>, seen: Seq<bool>, head: int)
    requires
        residual_expanded(g, q, seen, head),
        0 <= head < q.len(),
        forall|x: int|
            0 <= x < g.adj@[q[head] as int]@.len() && g.cap@[#[trigger] g.adj@[q[head] as int]@[x] as int] > 0
                ==> seen[g.to@[g.adj@[q[head] as int]@[x] as int] as int],
    ensures
        residual_expanded(g, q, seen, head + 1),
{
    reveal(residual_expanded);
}

proof fn lemma_residual_closed(g: &FlowGraph, q: Seq<usize>, seen: Seq<bool>, head: int)
    requires
        g.wf(),
        residual_queue(g.nn(), q, seen, head),
        residual_expanded(g, q, seen, head),
        head >= q.len(),
    ensures
        g.residual_closed(seen),
{
    reveal(residual_queue);
    reveal(residual_expanded);
    assert forall|e: int| 0 <= e < g.ne() && #[trigger] seen[g.tail(e)] && g.cap@[e] > 0 implies seen[g.to@[e] as int] by {
        let u = g.tail(e);
        assert(0 <= twin(e) < g.ne());
        assert(g.to@[twin(e)] < g.nn());
        assert(0 <= u < g.nn());
        let i = choose|i: int| 0 <= i < q.len() && q[i] == u;
        assert(g.adj@[g.tail(e)]@.contains(e as usize));
        let x = choose|x: int| 0 <= x < g.adj@[u]@.len() && g.adj@[u]@[x] == e as usize;
        assert(q[i] == u);
        assert(g.adj@[q[i] as int]@[x] == e as usize);
    }
}

/// Every node of a residual BFS tree lies in any residual-closed set that
/// holds the root.
proof fn lemma_tree_within(g: &FlowGraph, s: int, seen: Seq<bool>, prev: Seq<usize>, dist: Seq<int>, c: Seq<bool>, v: int)
    requires
        g.wf(),
        residual_tree(g, s, seen, prev, dist),
        c.len() == g.nn(),
        c[s],
        g.residual_closed(c),
        0 <= v < g.nn(),
        seen[v],
    ensures
        c[v],
    decreases dist[v],
{
    reveal(residual_tree);
    if v != s {
        let e = prev[v] as int;
        let u = g.tail(e);
        assert(0 <= twin(e) < g.ne());
        lemma_tree_within(g, s, seen, prev, dist, c, u);
    }
}

/// Minimal adjacency-list residual graph.
pub struct FlowGraph {
    /// Per-node list of edge indices into `to` / `cap`.
    pub adj: Vec<Vec<usize>>,
    /// Head node of each edge.
    pub to: Vec<usize>,
    /// Residual capacity of each edge.
    pub cap: Vec<i64>,
    /// Capacity each forward edge was created with.
    pub orig: Ghost<Seq<i64>>,
}

impl FlowGraph {
    /// Node count.
    pub open spec fn nn(&self) -> int {
        self.adj@.len() as int
    }

    /// Edge count.
    pub open spec fn ne(&self) -> int {
        self.to@.len() as int
    }

    /// Forward edge count.
    pub open spec fn np(&self) -> int {
        self.to@.len() as int / 2
    }

    /// Tail node of edge `e`.
    pub open spec fn tail(&self, e: int) -> int {
        self.to@[twin(e)] as int
    }

    /// Flow on forward edge `k`.
    pub open spec fn flow(&self, k: int) -> int {
        self.cap@[2 * k + 1] as int
    }

    /// Net flow out of node `v`.
    pub open spec fn net(&self, v: int) -> int {
        net_upto(self.to@, self.cap@, v, self.np())
    }

    /// Capacity the forward edges leaving `v` were created with.
    pub open spec fn cap_out(&self, v: int) -> int {
        cap_out_upto(self.to@, self.orig@, v, self.np())
    }

    /// Well-formed residual graph.
    pub open spec fn wf(&self) -> bool {
        &&& self.to@.len() == self.cap@.len()
        &&& self.to@.len() <= usize::MAX
        &&& self.to@.len() % 2 == 0
        &&& self.orig@.len() == self.np()
        &&& forall|e: int| 0 <= e < self.ne() ==> #[trigger] self.to@[e] < self.nn()
        &&& forall|u: int, j: int|
            0 <= u < self.nn() && 0 <= j < self.adj@[u]@.len() ==> #[trigger] self.adj@[u]@[j] < self.ne()
                && self.tail(self.adj@[u]@[j] as int) == u
        &&& forall|e: int| 0 <= e < self.ne() ==> #[trigger] self.adj@[self.tail(e)]@.contains(e as usize)
        &&& forall|e: int| 0 <= e < self.ne() ==> #[trigger] self.cap@[e] >= 0
        &&& forall|k: int|
            0 <= k < self.np() ==> #[trigger] self.orig@[k] == self.cap@[2 * k] + self.cap@[2 * k + 1]
    }

    /// `seen` is closed under residual edges.
    pub open spec fn residual_closed(&self, seen: Seq<bool>) -> bool {
        forall|e: int|
            0 <= e < self.ne() && #[trigger] seen[self.tail(e)] && self.cap@[e] > 0 ==> seen[self.to@[e] as int]
    }

    /// Breadth-first search from `s` over positive-capacity edges, stopping
    /// as soon as `stop` is reached. Returns the reached set and each reached
    /// node's tree edge. When `stop` was not reached the set is closed under
    /// residual edges.
    fn residual_bfs(&self, s: usize, stop: usize) -> (r: (Vec<bool>, Vec<usize>, Ghost<Seq<int>>))
        requires
            self.wf(),
            s < self.nn(),
        ensures
            r.0@.len() == self.nn(),
            residual_tree(self, s as int, r.0@, r.1@, r.2@),
            !(stop < self.nn() && r.0@[stop as int]) ==> self.residual_closed(r.0@),
    {
        let n = self.adj.len();
        let mut prev_edge: Vec<usize> = vec![usize::MAX; n];
        let mut seen: Vec<bool> = vec![false; n];
        let ghost mut dist: Seq<int> = Seq::new(n as nat, |i: int| 0);
        proof {
            assert(seen@ =~= Seq::new(n as nat, |i: int| false));
            lemma_count_true_none(n as nat);
            lemma_count_true_update(seen@, s as int);
        }
        seen.set(s, true);
        let mut q: Vec<usize> = Vec::new();
        q.push(s);
        let mut head: usize = 0;
        let mut hit = false;
        proof {
            reveal(residual_tree);
            reveal(residual_queue);
            reveal(residual_expanded);
            assert forall|v: int| 0 <= v < n && #[trigger] seen@[v] implies exists|i: int| 0 <= i < q@.len() && q@[i] == v by {
                assert(q@[0] == v);
            }
        }
        while head < q.len() && !hit
            invariant
                self.wf(),
                n == self.nn(),
                s < n,
                seen@.len() == n,
                prev_edge@.len() == n,
                dist.len() == n,
                residual_tree(self, s as int, seen@, prev_edge@, dist),
                !hit ==> residual_queue(n as int, q@, seen@, head as int),
                !hit ==> residual_expanded(self, q@, seen@, head as int),
                hit ==> stop < n && seen@[stop as int],
            decreases n - head, if hit { 0int } else { 1int },
        {
            proof {
                reveal(residual_queue);
                lemma_count_true_le(seen@);
            }
            let u = q[head];
            let mut j: usize = 0;
            let deg = self.adj[u].len();
            while j < deg && !hit
                invariant
                    self.wf(),
                    n == self.nn(),
                    s < n,
                    u < n,
                    head < q@.len(),
                    u == q@[head as int],
                    deg == self.adj@[u as int]@.len(),
                    j <= deg,
                    seen@.len() == n,
                    prev_edge@.len() == n,
                    dist.len() == n,
                    residual_tree(self, s as int, seen@, prev_edge@, dist),
                    !hit ==> residual_queue(n as int, q@, seen@, head as int),
                    !hit ==> residual_expanded(self, q@, seen@, head as int),
                    hit ==> stop < n && seen@[stop as int],
                    !hit ==> forall|x: int|
                        0 <= x < j && self.cap@[#[trigger] self.adj@[u as int]@[x] as int] > 0
                            ==> seen@[self.to@[self.adj@[u as int]@[x] as int] as int],
                decreases deg - j,
            {
                let e = self.adj[u][j];
                let v = self.to[e];
                if self.cap[e] > 0 && !seen[v] {
                    proof {
                        lemma_residual_reach(self, s as int, seen@, prev_edge@, dist, q@, head as int, u as int, e as int);
                        dist = dist.update(v as int, dist[u as int] + 1);
                    }
                    let ghost seen0 = seen@;
                    seen.set(v, true);
                    prev_edge.set(v, e);
                    if v == stop {
                        hit = true;
                    } else {
                        q.push(v);
                    }
                    proof {
                        if !hit {
                            assert forall|x: int|
                                0 <= x < j + 1 && self.cap@[#[trigger] self.adj@[u as int]@[x] as int] > 0
                                    implies seen@[self.to@[self.adj@[u as int]@[x] as int] as int] by {
                                if x < j {
                                    assert(seen0[self.to@[self.adj@[u as int]@[x] as int] as int]);
                                }
                            }
                        }
                    }
                }
                j = j + 1;
            }
            if !hit {
                proof {
                    lemma_residual_done(self, q@, seen@, head as int);
                    reveal(residual_queue);
                }
                head = head + 1;
            }
        }
        proof {
            if !(stop < n && seen@[stop as int]) {
                lemma_residual_closed(self, q@, seen@, head as int);
            }
        }
        (seen, prev_edge, Ghost(dist))
    }

    /// Push one unit along the tree path from `s` to `t` recorded in `prev`
    /// (each reached node's tree edge), walking back from `t`.
    fn augment(&mut self, s: usize, t: usize, prev: &Vec<usize>, Ghost(seen): Ghost<Seq<bool>>, Ghost(dist): Ghost<Seq<int>>)
        requires
            old(self).wf(),
            residual_tree(old(self), s as int, seen, prev@, dist),
            t < old(self).nn(),
            seen[t as int],
        ensures
            final(self).wf(),
            final(self).to@ == old(self).to@,
            final(self).adj@ == old(self).adj@,
            final(self).orig@ == old(self).orig@,
            forall|x: int|
                #[trigger] final(self).net(x) == old(self).net(x) + (if x == s as int { 1int } else { 0int }) - (if x
                    == t as int { 1int } else { 0int }),
    {
        let ghost g0: FlowGraph = *self;
        let mut v = t;
        proof {
            reveal(residual_tree);
        }
        while v != s
            invariant
                g0.wf(),
                self.wf(),
                self.to@ == g0.to@,
                self.adj@ == g0.adj@,
                self.orig@ == g0.orig@,
                self.cap@.len() == g0.cap@.len(),
                residual_tree(&g0, s as int, seen, prev@, dist),
                v < g0.nn(),
                seen[v as int],
                forall|x: int|
                    0 <= x < g0.ne() && #[trigger] self.cap@[x] != g0.cap@[x] ==> exists|w: int|
                        0 <= w < g0.nn() && #[trigger] seen[w] && w != s && dist[w] > dist[v as int] && (x
                            == prev@[w] || x == twin(prev@[w] as int)),
                forall|x: int|
                    #[trigger] self.net(x) == g0.net(x) + (if x == v as int { 1int } else { 0int }) - (if x
                        == t as int { 1int } else { 0int }),
            decreases dist[v as int],
        {
            proof {
                reveal(residual_tree);
            }
            let e = prev[v];
            let ghost tw = twin(e as int);
            proof {
                lemma_xor_one(e);
                assert(twin(tw) == e as int);
                if self.cap@[e as int] != g0.cap@[e as int] {
                    let w = choose|w: int|
                        0 <= w < g0.nn() && #[trigger] seen[w] && w != s && dist[w] > dist[v as int] && (e
                            == prev@[w] || e == twin(prev@[w] as int));
                    if e == prev@[w] {
                        assert(g0.to@[e as int] == w);
                    } else {
                        assert(twin(e as int) == prev@[w] as int);
                        assert(g0.tail(e as int) == g0.to@[prev@[w] as int]);
                    }
                }
                let k = (e / 2) as int;
                assert(g0.orig@[k] == self.cap@[2 * k] + self.cap@[2 * k + 1]);
                assert(self.cap@[2 * k] >= 0 && self.cap@[2 * k + 1] >= 0);
            }
            let ghost cap_before = self.cap@;
            let ghost before: FlowGraph = *self;
            let c = self.cap[e];
            self.cap.set(e, c - 1);
            let ex = e ^ 1;
            let c2 = self.cap[ex];
            self.cap.set(ex, c2 + 1);
            let ghost v_old = v;
            v = self.to[ex];
            proof {
                assert(self.cap@ == cap_before.update(e as int, (cap_before[e as int] - 1) as i64).update(
                    twin(e as int),
                    (cap_before[twin(e as int)] + 1) as i64,
                ));
                assert forall|x: int|
                    #[trigger] self.net(x) == g0.net(x) + (if x == v as int { 1int } else { 0int }) - (if x
                        == t as int { 1int } else { 0int }) by {
                    lemma_net_push(self.to@, cap_before, e as int, x, self.np());
                    assert(before.net(x) == g0.net(x) + (if x == v_old as int { 1int } else { 0int }) - (if x
                        == t as int { 1int } else { 0int }));
                    assert(self.to@[e as int] == v_old);
                    assert(self.to@[twin(e as int)] == v);
                }
                let k = (e / 2) as int;
                assert(e as int == 2 * k || e as int == 2 * k + 1);
                assert(twin(e as int) == 2 * k || twin(e as int) == 2 * k + 1);
                assert forall|j: int| 0 <= j < self.np() implies #[trigger] self.orig@[j] == self.cap@[2 * j]
                    + self.cap@[2 * j + 1] by {
                    assert(before.orig@[j] == cap_before[2 * j] + cap_before[2 * j + 1]);
                }
                assert forall|x: int| 0 <= x < self.ne() implies #[trigger] self.cap@[x] >= 0 by {
                    assert(cap_before[x] >= 0);
                }
                assert(self.to@.len() == self.cap@.len());
                assert(self.orig@.len() == self.np());
                assert(forall|x: int| 0 <= x < self.ne() ==> #[trigger] self.to@[x] < self.nn());
                assert(forall|u: int, j: int|
                    0 <= u < self.nn() && 0 <= j < self.adj@[u]@.len() ==> #[trigger] self.adj@[u]@[j] < self.ne()
                        && self.tail(self.adj@[u]@[j] as int) == u);
                assert forall|x: int| 0 <= x < self.ne() implies #[trigger] self.adj@[self.tail(x)]@.contains(
                    x as usize,
                ) by {
                    assert(before.adj@[before.tail(x)]@.contains(x as usize));
                }
                assert forall|x: int|
                    0 <= x < g0.ne() && #[trigger] self.cap@[x] != g0.cap@[x] implies exists|w: int|
                        0 <= w < g0.nn() && #[trigger] seen[w] && w != s && dist[w] > dist[v as int] && (x
                            == prev@[w] || x == twin(prev@[w] as int)) by {
                    if x == e as int || x == twin(e as int) {
                        assert(seen[v_old as int]);
                    } else {
                        assert(cap_before[x] != g0.cap@[x]);
                    }
                }
            }
        }
    }

    /// Edmonds–Karp with unit augmentations: repeatedly push one unit along a
    /// shortest residual path from `s` to `t` until none is left. Returns the
    /// number of units pushed; afterwards some set of nodes closed under
    /// residual edges holds `s` but not `t`.
    pub fn max_flow(&mut self, s: usize, t: usize) -> (flow: usize)
        requires
            old(self).wf(),
            s < old(self).nn(),
            t < old(self).nn(),
            s != t,
            old(self).cap_out(s as int) - old(self).net(s as int) <= usize::MAX,
        ensures
            final(self).wf(),
            final(self).to@ == old(self).to@,
            final(self).adj@ == old(self).adj@,
            final(self).orig@ == old(self).orig@,
            flow == final(self).net(s as int) - old(self).net(s as int),
            final(self).net(t as int) == old(self).net(t as int) - flow,
            forall|x: int| x != s && x != t ==> #[trigger] final(self).net(x) == old(self).net(x),
            exists|r: Seq<bool>|
                r.len() == final(self).nn() && r[s as int] && !r[t as int] && #[trigger] final(self).residual_closed(r),
    {
        let mut flow: usize = 0;
        proof {
            lemma_net_le_cap_out(self.to@, self.cap@, self.orig@, s as int, self.np());
        }
        loop
            invariant
                self.wf(),
                self.to@ == old(self).to@,
                self.adj@ == old(self).adj@,
                self.orig@ == old(self).orig@,
                s < self.nn(),
                t < self.nn(),
                s != t,
                flow == self.net(s as int) - old(self).net(s as int),
                self.net(t as int) == old(self).net(t as int) - flow,
                forall|x: int| x != s && x != t ==> #[trigger] self.net(x) == old(self).net(x),
                old(self).cap_out(s as int) - old(self).net(s as int) <= usize::MAX,
                self.net(s as int) <= self.cap_out(s as int),
            decreases self.cap_out(s as int) - self.net(s as int),
        {
            let (seen, prev, Ghost(dist)) = self.residual_bfs(s, t);
            if !seen[t] {
                proof {
                    assert(seen@.len() == self.nn() && seen@[s as int] && !seen@[t as int]
                        && self.residual_closed(seen@)) by {
                        reveal(residual_tree);
                    }
                }
                return flow;
            }
            let ghost pre: FlowGraph = *self;
            self.augment(s, t, &prev, Ghost(seen@), Ghost(dist));
            proof {
                assert(self.net(s as int) == pre.net(s as int) + 1);
                assert(self.net(t as int) == pre.net(t as int) - 1);
                assert forall|x: int| x != s && x != t implies #[trigger] self.net(x) == old(self).net(x) by {
                    assert(self.net(x) == pre.net(x));
                }
                lemma_net_le_cap_out(self.to@, self.cap@, self.orig@, s as int, self.np());
                assert(self.cap_out(s as int) == old(self).cap_out(s as int));
            }
            flow = flow + 1;
        }
    }

    /// The nodes reachable from `s` across positive-capacity edges: the
    /// least set holding `s` that is closed under residual edges.
    pub fn residual_reachable(&self, s: usize) -> (r: Vec<bool>)
        requires
            self.wf(),
            s < self.nn(),
        ensures
            r@.len() == self.nn(),
            r@[s as int],
            self.residual_closed(r@),
            forall|c: Seq<bool>, v: int|
                c.len() == self.nn() && c[s as int] && self.residual_closed(c) && 0 <= v < self.nn()
                    && #[trigger] r@[v] ==> #[trigger] c[v],
    {
        let (seen, prev, Ghost(dist)) = self.residual_bfs(s, self.adj.len());
        proof {
            reveal(residual_tree);
            assert forall|c: Seq<bool>, v: int|
                c.len() == self.nn() && c[s as int] && self.residual_closed(c) && 0 <= v < self.nn()
                    && #[trigger] seen@[v] implies #[trigger] c[v] by {
                lemma_tree_within(self, s as int, seen@, prev@, dist, c, v);
            }
        }
        seen
    }

    /// An empty graph on `n` nodes.
    pub fn new(n: usize) -> (g: Self)
        ensures
            g.wf(),
            g.nn() == n,
            g.ne() == 0,
            forall|u: int| 0 <= u < n ==> (#[trigger] g.adj@[u])@.len() == 0,
    {
        let mut adj: Vec<Vec<usize>> = Vec::new();
        let mut i: usize = 0;
        while i < n
            invariant
                i <= n,
                adj@.len() == i,
                forall|u: int| 0 <= u < i ==> (#[trigger] adj@[u])@.len() == 0,
            decreases n - i,
        {
            adj.push(Vec::new());
            i = i + 1;
        }
        FlowGraph { adj, to: Vec::new(), cap: Vec::new(), orig: Ghost(Seq::empty()) }
    }

    /// Add forward edge `u → v` with capacity `c` and its zero-capacity
    /// reverse.
    pub fn add_edge(&mut self, u: usize, v: usize, c: i64)
        requires
            old(self).wf(),
            u < old(self).nn(),
            v < old(self).nn(),
            c >= 0,
            old(self).ne() + 2 <= usize::MAX,
        ensures
            final(self).wf(),
            final(self).nn() == old(self).nn(),
            final(self).to@ == old(self).to@.push(v).push(u),
            final(self).cap@ == old(self).cap@.push(c).push(0),
            final(self).orig@ == old(self).orig@.push(c),
    {
        let e = self.to.len();
        let ghost old_adj = self.adj@;
        self.to.push(v);
        self.cap.push(c);
        self.adj[u].push(e);
        let ghost adj1 = self.adj@;
        self.to.push(u);
        self.cap.push(0);
        self.adj[v].push(e + 1);
        proof {
            self.orig@ = self.orig@.push(c);
            let ne = self.ne();
            assert(twin(e as int) == e + 1);
            assert(twin(e + 1) == e as int);
            assert forall|x: int| 0 <= x < ne implies #[trigger] self.to@[x] < self.nn() by {}
            assert forall|w: int, j: int|
                0 <= w < self.nn() && 0 <= j < self.adj@[w]@.len() implies #[trigger] self.adj@[w]@[j] < self.ne()
                && self.tail(self.adj@[w]@[j] as int) == w by {
                let x = self.adj@[w]@[j] as int;
                if x < e {
                    assert(old(self).to@[twin(x)] == self.to@[twin(x)]);
                }
            }
            assert forall|x: int| 0 <= x < ne implies #[trigger] self.adj@[self.tail(x)]@.contains(x as usize) by {
                if x < e {
                    assert(old(self).to@[twin(x)] == self.to@[twin(x)]);
                    let w = self.tail(x);
                    assert(old(self).tail(x) == w);
                    assert(old(self).adj@[old(self).tail(x)]@.contains(x as usize));
                    let j = choose|j: int| 0 <= j < old(self).adj@[w]@.len() && old(self).adj@[w]@[j] == x as usize;
                    assert(adj1[w]@[j] == x as usize);
                    assert(self.adj@[w]@[j] == x as usize);
                } else if x == e {
                    let j = adj1[u as int]@.len() - 1;
                    assert(adj1[u as int]@[j] == e);
                    assert(self.adj@[u as int]@[j] == e);
                } else {
                    assert(self.adj@[v as int]@[self.adj@[v as int]@.len() - 1] == e + 1);
                }
            }
            assert forall|k: int| 0 <= k < self.np() implies #[trigger] self.orig@[k] == self.cap@[2 * k] + self.cap@[2 * k + 1] by {
                if k < old(self).np() {
                    assert(old(self).orig@[k] == old(self).cap@[2 * k] + old(self).cap@[2 * k + 1]);
                }
            }
        }
    }
}

} // verus!
