//! Node prices for the cheapest-path flow of [`crate::escape`]: a price
//! vector under which every edge with capacity left has a non-negative
//! reduced cost certifies that the residual network has no negative-cost
//! cycle, so the flow is a cheapest one among flows of its value.
use vstd::prelude::*;
use crate::escape::{FlowNet, pair_ok};
use crate::flow::twin;
use crate::complete::count_true;

verus! {

/// Reduced cost of the edge listed `j`-th at node `u` under prices `p`.
pub open spec fn reduced(net: &FlowNet, p: Seq<int>, u: int, j: int) -> int {
    let e = net.adj@[u]@[j] as int;
    net.edges@[e].cost + p[u] - p[net.edges@[e].to as int]
}

/// Under prices `p`, every listed edge with capacity left has a
/// non-negative reduced cost.
pub open spec fn reduced_ok(net: &FlowNet, p: Seq<int>) -> bool {
    &&& p.len() == net.nn()
    &&& forall|u: int, j: int|
        #![trigger net.adj@[u]@[j]]
        0 <= u < net.nn() && 0 <= j < net.adj@[u]@.len() && net.residual(net.adj@[u]@[j] as int) > 0 ==> reduced(
            net,
            p,
            u,
            j,
        ) >= 0
}

/// Prices zero at `s` and non-negative elsewhere certify `net`.
pub open spec fn prices_from(net: &FlowNet, s: int, p: Seq<int>) -> bool {
    &&& reduced_ok(net, p)
    &&& 0 <= s < net.nn()
    &&& p[s] == 0
    &&& forall|v: int| 0 <= v < net.nn() ==> #[trigger] p[v] >= 0
}

/// The flow in `net` is settled as seen from source `s`: some prices, zero
/// at `s` and non-negative elsewhere, leave no edge with capacity left at a
/// negative reduced cost.
pub open spec fn settled_from(net: &FlowNet, s: int) -> bool {
    exists|p: Seq<int>| #[trigger] prices_from(net, s, p)
}

/// Every edge cost lies in `[-c, c]`, and `(n + 1) * c` fits in an `i64`.
pub open spec fn costs_within(net: &FlowNet, c: int) -> bool {
    &&& 0 <= c
    &&& (net.nn() + 1) * c <= i64::MAX
    &&& forall|e: int| 0 <= e < net.ne() ==> -c <= #[trigger] net.edges@[e].cost <= c
}

/// A closed walk over listed edges with capacity left: step `i` takes the
/// edge listed `w[i].1`-th at node `w[i].0`, and leads to the node of the
/// next step (the last one back to the first).
pub open spec fn residual_cycle(net: &FlowNet, w: Seq<(int, int)>) -> bool {
    &&& w.len() >= 1
    &&& forall|i: int|
        0 <= i < w.len() ==> {
            &&& 0 <= (#[trigger] w[i]).0 < net.nn()
            &&& 0 <= w[i].1 < net.adj@[w[i].0]@.len()
            &&& net.residual(net.adj@[w[i].0]@[w[i].1] as int) > 0
        }
    &&& forall|i: int|
        0 <= i < w.len() - 1 ==> net.edges@[net.adj@[(#[trigger] w[i]).0]@[w[i].1] as int].to == w[i + 1].0
    &&& net.edges@[net.adj@[w[w.len() - 1].0]@[w[w.len() - 1].1] as int].to == w[0].0
}

/// Total cost of the first `k` steps of `w`.
pub open spec fn walk_cost(net: &FlowNet, w: Seq<(int, int)>, k: int) -> int
    decreases k,
{
    if k <= 0 {
        0
    } else {
        walk_cost(net, w, k - 1) + net.edges@[net.adj@[w[k - 1].0]@[w[k - 1].1] as int].cost
    }
}

/// Along the first `k` steps of a cycle, cost is at least the price rise.
proof fn lemma_walk_cost_prices(net: &FlowNet, p: Seq<int>, w: Seq<(int, int)>, k: int)
    requires
        reduced_ok(net, p),
        residual_cycle(net, w),
        1 <= k <= w.len(),
    ensures
        walk_cost(net, w, k) >= p[net.edges@[net.adj@[w[k - 1].0]@[w[k - 1].1] as int].to as int] - p[w[0].0],
    decreases k,
{
    let x = w[k - 1];
    assert(0 <= x.0 < net.nn() && 0 <= x.1 < net.adj@[x.0]@.len());
    assert(net.residual(net.adj@[x.0]@[x.1] as int) > 0);
    assert(reduced(net, p, x.0, x.1) >= 0);
    let cx = net.edges@[net.adj@[x.0]@[x.1] as int].cost;
    assert(walk_cost(net, w, k) == walk_cost(net, w, k - 1) + cx);
    if k > 1 {
        lemma_walk_cost_prices(net, p, w, k - 1);
        let y = w[k - 2];
        assert(net.edges@[net.adj@[y.0]@[y.1] as int].to == x.0);
    } else {
        assert(walk_cost(net, w, 0) == 0);
    }
}

/// Prices certify that no closed walk over edges with capacity left has a
/// negative total cost.
pub proof fn lemma_no_negative_cycle(net: &FlowNet, p: Seq<int>, w: Seq<(int, int)>)
    requires
        reduced_ok(net, p),
        residual_cycle(net, w),
    ensures
        walk_cost(net, w, w.len() as int) >= 0,
{
    lemma_walk_cost_prices(net, p, w, w.len() as int);
}

/// A settled flow leaves no closed walk over edges with capacity left at a
/// negative total cost.
pub proof fn lemma_settled_no_negative_cycle(net: &FlowNet, s: int, w: Seq<(int, int)>)
    requires
        settled_from(net, s),
        residual_cycle(net, w),
    ensures
        walk_cost(net, w, w.len() as int) >= 0,
{
    let p = choose|p: Seq<int>| #[trigger] prices_from(net, s, p);
    lemma_no_negative_cycle(net, p, w);
}

/// A network that carries no flow and whose forward edges cost nothing
/// negative is settled from any node.
pub proof fn lemma_empty_flow_settled(net: &FlowNet, s: int)
    requires
        net.wf(),
        0 <= s < net.nn(),
        forall|k: int| 0 <= k < net.ne() / 2 ==> (#[trigger] net.edges@[2 * k]).flow == 0 && net.edges@[2 * k].cost >= 0,
    ensures
        settled_from(net, s),
{
    let p = Seq::new(net.nn() as nat, |v: int| 0int);
    assert forall|u: int, j: int|
        #![trigger net.adj@[u]@[j]]
        0 <= u < net.nn() && 0 <= j < net.adj@[u]@.len() && net.residual(net.adj@[u]@[j] as int) > 0 implies reduced(
        net,
        p,
        u,
        j,
    ) >= 0 by {
        let e = net.adj@[u]@[j] as int;
        let k = e / 2;
        assert(0 <= k < net.ne() / 2);
        assert(pair_ok(net.edges@[2 * k], net.edges@[2 * k + 1]));
        assert(net.edges@[2 * k].flow == 0);
        assert(0 <= net.edges@[e].to < net.nn());
    }
    assert(prices_from(net, s, p));
}

/// Reached nodes: those at a finite distance.
pub(crate) open spec fn reached(dist: Seq<i64>) -> Seq<bool> {
    Seq::new(dist.len(), |v: int| dist[v] != i64::MAX)
}

/// The edge listed `j`-th at `u` is relaxed: its head is reached, no
/// dearer than through `u`.
pub(crate) open spec fn edge_relaxed(net: &FlowNet, dist: Seq<i64>, u: int, j: int) -> bool {
    let e = net.adj@[u]@[j] as int;
    let v = net.edges@[e].to as int;
    &&& dist[v] != i64::MAX
    &&& dist[v] <= dist[u] + net.edges@[e].cost
}

/// Every listed edge with capacity left out of a reached node is relaxed.
pub(crate) open spec fn relaxed(net: &FlowNet, dist: Seq<i64>) -> bool {
    forall|u: int, j: int|
        #![trigger net.adj@[u]@[j]]
        0 <= u < net.nn() && dist[u] != i64::MAX && 0 <= j < net.adj@[u]@.len() && net.residual(
            net.adj@[u]@[j] as int,
        ) > 0 ==> edge_relaxed(net, dist, u, j)
}

/// Node `a` precedes node `b` in search order: a smaller price-reduced
/// distance, or an equal one settled earlier.
pub(crate) open spec fn key_below(dist: Seq<i64>, p: Seq<int>, st: Seq<int>, a: int, b: int) -> bool {
    ||| dist[a] - p[a] < dist[b] - p[b]
    ||| (dist[a] - p[a] == dist[b] - p[b] && st[a] < st[b])
}

/// The last relaxing edge into reached node `v` is listed at its tail,
/// was tight when taken, and hangs `v` off a node earlier in search order.
pub(crate) open spec fn prev_tight(net: &FlowNet, dist: Seq<i64>, prev: Seq<usize>, p: Seq<int>, st: Seq<int>, v: int) -> bool {
    let e = prev[v] as int;
    let u = net.tail(e);
    &&& net.prev_ok(dist, prev, v)
    &&& exists|j: int| 0 <= j < net.adj@[u]@.len() && #[trigger] net.adj@[u]@[j] == prev[v]
    &&& dist[v] >= dist[u] + net.edges@[e].cost
    &&& key_below(dist, p, st, u, v)
}

/// What a cheapest-path search from `s` keeps under prices `p` and cost
/// bound `c`: distances between the price and `c` times one less than the
/// number of reached nodes, and tight, ordered search-tree edges.
pub(crate) open spec fn search_core(
    net: &FlowNet,
    s: int,
    c: int,
    p: Seq<int>,
    dist: Seq<i64>,
    prev: Seq<usize>,
    st: Seq<int>,
) -> bool {
    &&& dist.len() == net.nn()
    &&& prev.len() == net.nn()
    &&& st.len() == net.nn()
    &&& dist[s] == 0
    &&& forall|v: int|
        0 <= v < net.nn() && #[trigger] dist[v] != i64::MAX ==> p[v] <= dist[v] && dist[v] <= c * (count_true(
            reached(dist),
        ) - 1)
    &&& forall|v: int| 0 <= v < net.nn() && #[trigger] dist[v] != i64::MAX && v != s ==> prev_tight(net, dist, prev, p, st, v)
}

/// Search state fits the budget `fuel` of dequeues, given the cost bound.
pub(crate) open spec fn fuel_enough(n: int, c: int, fuel: int) -> bool {
    fuel == usize::MAX || fuel >= 1 + (n - 1) * (c * (n - 1) + 1)
}

/// Weight of one distance in the search's progress measure.
pub(crate) open spec fn weight(x: i64, big: int) -> int {
    if x == i64::MAX {
        big
    } else {
        x as int
    }
}

/// Sum of weights of the first `k` distances.
pub(crate) open spec fn weight_sum(d: Seq<i64>, big: int, k: int) -> int
    decreases k,
{
    if k <= 0 {
        0
    } else {
        weight_sum(d, big, k - 1) + weight(d[k - 1], big)
    }
}

/// Changing one distance changes the weight sum by the weight difference.
pub(crate) proof fn lemma_weight_sum_update(d: Seq<i64>, big: int, v: int, x: i64, k: int)
    requires
        0 <= v < d.len(),
        0 <= k <= d.len(),
    ensures
        weight_sum(d.update(v, x), big, k) == weight_sum(d, big, k) - (if v < k { weight(d[v], big) - weight(x, big) } else { 0 }),
    decreases k,
{
    if k > 0 {
        lemma_weight_sum_update(d, big, v, x, k - 1);
    }
}

/// Non-negative distances have a non-negative weight sum.
pub(crate) proof fn lemma_weight_sum_nonneg(d: Seq<i64>, big: int, k: int)
    requires
        big >= 0,
        0 <= k <= d.len(),
        forall|i: int| 0 <= i < k ==> #[trigger] d[i] >= 0,
    ensures
        weight_sum(d, big, k) >= 0,
    decreases k,
{
    if k > 0 {
        lemma_weight_sum_nonneg(d, big, k - 1);
    }
}

/// With nothing reached, every node weighs `big`.
pub(crate) proof fn lemma_weight_sum_unreached(d: Seq<i64>, big: int, k: int)
    requires
        0 <= k <= d.len(),
        forall|i: int| 0 <= i < d.len() ==> #[trigger] d[i] == i64::MAX,
    ensures
        weight_sum(d, big, k) == k * big,
    decreases k,
{
    if k > 0 {
        lemma_weight_sum_unreached(d, big, k - 1);
        assert(d[k - 1] == i64::MAX);
        assert(k * big == (k - 1) * big + big) by (nonlinear_arith);
    } else {
        assert(k * big == 0) by (nonlinear_arith)
            requires
                k == 0,
        ;
    }
}

/// Prices after an augmentation along a cheapest path: the distance for a
/// reached node, the old price raised by `lift` for any other.
pub(crate) open spec fn reprice(p: Seq<int>, dist: Seq<i64>, lift: int) -> Seq<int> {
    Seq::new(p.len(), |v: int| if dist[v] != i64::MAX { dist[v] as int } else { p[v] + lift })
}

/// Bounds that the search keeps on reached distances: between zero and
/// `c` times one less than the node count.
pub(crate) proof fn lemma_search_bounds(
    net: &FlowNet,
    s: int,
    c: int,
    p: Seq<int>,
    dist: Seq<i64>,
    prev: Seq<usize>,
    st: Seq<int>,
)
    requires
        costs_within(net, c),
        prices_from(net, s, p),
        search_core(net, s, c, p, dist, prev, st),
    ensures
        forall|v: int| 0 <= v < net.nn() && #[trigger] dist[v] != i64::MAX ==> 0 <= dist[v] <= c * (net.nn() - 1),
{
    let cnt = count_true(reached(dist)) as int;
    crate::complete::lemma_count_true_le(reached(dist));
    assert(c * (cnt - 1) <= c * (net.nn() - 1)) by (nonlinear_arith)
        requires
            0 <= c,
            cnt <= net.nn(),
    ;
    assert forall|v: int| 0 <= v < net.nn() && #[trigger] dist[v] != i64::MAX implies 0 <= dist[v] <= c * (net.nn() - 1) by {
        assert(p[v] >= 0);
    }
}

/// Relaxing a listed edge with capacity left out of a reached node to a
/// strictly smaller distance keeps the search state, lowers the progress
/// measure, and never touches `s` or the edge's own tail.
pub(crate) proof fn lemma_search_relax(
    net: &FlowNet,
    s: int,
    c: int,
    p: Seq<int>,
    dist: Seq<i64>,
    prev: Seq<usize>,
    st: Seq<int>,
    clock: int,
    u: int,
    j: int,
    nd: int,
)
    requires
        net.wf(),
        costs_within(net, c),
        prices_from(net, s, p),
        search_core(net, s, c, p, dist, prev, st),
        forall|v: int| 0 <= v < net.nn() ==> #[trigger] st[v] < clock,
        0 <= u < net.nn(),
        dist[u] != i64::MAX,
        0 <= j < net.adj@[u]@.len(),
        net.residual(net.adj@[u]@[j] as int) > 0,
        nd == dist[u] + net.edges@[net.adj@[u]@[j] as int].cost,
        nd < dist[net.edges@[net.adj@[u]@[j] as int].to as int],
    ensures
        ({
            let e = net.adj@[u]@[j];
            let to = net.edges@[e as int].to as int;
            &&& to != u
            &&& to != s
            &&& 0 <= nd <= c * (net.nn() - 1)
            &&& weight(nd as i64, c * (net.nn() - 1) + 1) + 1 <= weight(dist[to], c * (net.nn() - 1) + 1)
            &&& search_core(net, s, c, p, dist.update(to, nd as i64), prev.update(to, e), st.update(to, clock))
        }),
{
    let n = net.nn();
    let e = net.adj@[u]@[j];
    let to = net.edges@[e as int].to as int;
    let cost = net.edges@[e as int].cost as int;
    assert(reduced(net, p, u, j) >= 0);
    assert(0 <= to < n);
    assert(p[u] <= dist[u]);
    assert(p[to] >= 0);
    let d2 = dist.update(to, nd as i64);
    let prev2 = prev.update(to, e);
    let st2 = st.update(to, clock);
    let cnt = count_true(reached(dist)) as int;
    let cnt2 = count_true(reached(d2)) as int;
    if dist[to] == i64::MAX {
        assert(reached(d2) =~= reached(dist).update(to, true));
        crate::complete::lemma_count_true_update(reached(dist), to);
        assert(cnt2 == cnt + 1);
        assert(c * (cnt - 1) + c == c * (cnt2 - 1)) by (nonlinear_arith)
            requires
                cnt2 == cnt + 1,
        ;
    } else {
        assert(reached(d2) =~= reached(dist));
    }
    assert(c * (cnt - 1) <= c * (cnt2 - 1)) by (nonlinear_arith)
        requires
            0 <= c,
            cnt <= cnt2,
    ;
    crate::complete::lemma_count_true_le(reached(d2));
    assert(c * (cnt2 - 1) <= c * (n - 1)) by (nonlinear_arith)
        requires
            0 <= c,
            cnt2 <= n,
    ;
    assert(nd <= c * (cnt2 - 1));
    assert forall|v: int| 0 <= v < n && #[trigger] d2[v] != i64::MAX implies p[v] <= d2[v] && d2[v] <= c * (
    count_true(reached(d2)) - 1) by {
        if v != to {
            assert(dist[v] != i64::MAX);
        }
    }
    assert forall|v: int| 0 <= v < n && #[trigger] d2[v] != i64::MAX && v != s implies prev_tight(
        net,
        d2,
        prev2,
        p,
        st2,
        v,
    ) by {
        if v == to {
            assert(net.tail(e as int) == u);
            assert(net.adj@[u]@[j] == prev2[v]);
            assert(key_below(d2, p, st2, u, v));
        } else {
            assert(dist[v] != i64::MAX);
            assert(prev_tight(net, dist, prev, p, st, v));
            let w = net.tail(prev[v] as int);
            assert(prev2[v] == prev[v]);
            let jw = choose|jw: int| 0 <= jw < net.adj@[w]@.len() && #[trigger] net.adj@[w]@[jw] == prev[v];
            assert(net.adj@[w]@[jw] == prev2[v]);
            if w == to {
                assert(key_below(d2, p, st2, w, v));
            } else {
                assert(key_below(d2, p, st2, w, v));
            }
        }
    }
}

/// An augmentation along a tight path of a relaxed search keeps the flow
/// settled: the repriced prices certify the new residual network.
pub(crate) proof fn lemma_reprice(
    before: &FlowNet,
    after: &FlowNet,
    s: int,
    c: int,
    p: Seq<int>,
    dist: Seq<i64>,
    pe: Seq<usize>,
    nodes: Seq<int>,
)
    requires
        before.wf(),
        after.wf(),
        after.adj@ == before.adj@,
        after.ne() == before.ne(),
        forall|x: int|
            0 <= x < before.ne() ==> (#[trigger] after.edges@[x]).to == before.edges@[x].to && after.edges@[x].cap
                == before.edges@[x].cap && after.edges@[x].cost == before.edges@[x].cost,
        costs_within(before, c),
        prices_from(before, s, p),
        dist.len() == before.nn(),
        dist[s] == 0,
        forall|v: int| 0 <= v < before.nn() && #[trigger] dist[v] != i64::MAX ==> 0 <= dist[v] <= c * (before.nn() - 1),
        relaxed(before, dist),
        nodes.len() == pe.len() + 1,
        forall|a: int|
            0 <= a < pe.len() ==> {
                &&& #[trigger] pe[a] < before.ne()
                &&& before.edges@[pe[a] as int].to == nodes[a]
                &&& before.tail(pe[a] as int) == nodes[a + 1]
                &&& dist[nodes[a]] != i64::MAX
                &&& dist[nodes[a + 1]] != i64::MAX
                &&& dist[nodes[a]] == dist[nodes[a + 1]] + before.edges@[pe[a] as int].cost
            },
        forall|x: int|
            0 <= x < before.ne() ==> (#[trigger] after.edges@[x]).flow >= before.edges@[x].flow || exists|a: int|
                0 <= a < pe.len() && #[trigger] pe[a] as int == twin(x),
    ensures
        costs_within(after, c),
        prices_from(after, s, reprice(p, dist, c * before.nn())),
{
    let n = before.nn();
    let q = reprice(p, dist, c * n);
    assert(c * n - c * (n - 1) == c) by (nonlinear_arith);
    assert(c * n >= 0) by (nonlinear_arith)
        requires
            c >= 0,
            n >= 0,
    ;
    assert forall|e: int| 0 <= e < after.ne() implies -c <= #[trigger] after.edges@[e].cost <= c by {
        assert(before.edges@[e].cost == after.edges@[e].cost);
    }
    assert forall|u: int, j: int|
        #![trigger after.adj@[u]@[j]]
        0 <= u < after.nn() && 0 <= j < after.adj@[u]@.len() && after.residual(after.adj@[u]@[j] as int) > 0 implies reduced(
        after,
        q,
        u,
        j,
    ) >= 0 by {
        let e = after.adj@[u]@[j] as int;
        assert(before.adj@[u]@[j] as int == e);
        assert(0 <= e < before.ne() && before.tail(e) == u);
        let v = before.edges@[e].to as int;
        assert(after.edges@[e].to as int == v);
        assert(0 <= v < n);
        if after.edges@[e].flow >= before.edges@[e].flow {
            assert(before.residual(e) > 0);
            assert(reduced(before, p, u, j) >= 0);
            if dist[u] != i64::MAX {
                assert(edge_relaxed(before, dist, u, j));
            } else if dist[v] != i64::MAX {
                assert(p[u] >= 0);
                assert(-c <= before.edges@[e].cost);
            }
        } else {
            let a = choose|a: int| 0 <= a < pe.len() && #[trigger] pe[a] as int == twin(e);
            let f = pe[a] as int;
            assert(twin(f) == e);
            let k = e / 2;
            assert(pair_ok(before.edges@[2 * k], before.edges@[2 * k + 1]));
            assert(before.edges@[f].cost == -before.edges@[e].cost);
            assert(before.edges@[f].to == u);
            assert(nodes[a] == u);
            assert(before.tail(f) == v);
            assert(nodes[a + 1] == v);
        }
    }
    assert forall|v: int| 0 <= v < after.nn() implies #[trigger] q[v] >= 0 by {
        if dist[v] == i64::MAX {
            assert(p[v] >= 0);
        }
    }
}

/// The search queue: the nodes still waiting are `q[head..]`, each once,
/// each reached, and exactly those flagged in `in_q`.
#[verifier::opaque]
pub(crate) open spec fn queue_ok(n: int, q: Seq<usize>, head: int, in_q: Seq<bool>, dist: Seq<i64>) -> bool {
    &&& 0 <= head <= q.len()
    &&& in_q.len() == n
    &&& dist.len() == n
    &&& forall|k: int| 0 <= k < q.len() ==> #[trigger] q[k] < n
    &&& forall|x: int| 0 <= x < n ==> (#[trigger] in_q[x] <==> exists|k: int| head <= k < q.len() && q[k] == x)
    &&& forall|a: int, b: int| head <= a < b < q.len() ==> #[trigger] q[a] != #[trigger] q[b]
    &&& forall|k: int| head <= k < q.len() ==> dist[#[trigger] q[k] as int] != i64::MAX
}

/// The queue holding only `s`.
pub(crate) proof fn lemma_queue_start(n: int, s: int, in_q: Seq<bool>, dist: Seq<i64>)
    requires
        0 <= s < n <= usize::MAX,
        in_q.len() == n,
        dist.len() == n,
        dist[s] != i64::MAX,
        forall|x: int| 0 <= x < n ==> (#[trigger] in_q[x] <==> x == s),
    ensures
        queue_ok(n, seq![s as usize], 0, in_q, dist),
{
    reveal(queue_ok);
    let q = seq![s as usize];
    assert forall|x: int| 0 <= x < n implies (#[trigger] in_q[x] <==> exists|k: int| 0 <= k < q.len() && q[k] == x) by {
        if x == s {
            assert(q[0] == x);
        }
    }
}

/// Taking the head off the queue clears its flag.
pub(crate) proof fn lemma_queue_pop(n: int, q: Seq<usize>, head: int, in_q: Seq<bool>, dist: Seq<i64>)
    requires
        queue_ok(n, q, head, in_q, dist),
        head < q.len(),
    ensures
        q[head] < n,
        in_q[q[head] as int],
        dist[q[head] as int] != i64::MAX,
        queue_ok(n, q, head + 1, in_q.update(q[head] as int, false), dist),
        forall|k: int| 0 <= k < q.len() ==> #[trigger] q[k] < n,
{
    reveal(queue_ok);
    let u = q[head] as int;
    let in2 = in_q.update(u, false);
    assert forall|x: int| 0 <= x < n implies (#[trigger] in2[x] <==> exists|k: int| head + 1 <= k < q.len() && q[k] == x) by {
        if x != u {
            if in_q[x] {
                let k = choose|k: int| head <= k < q.len() && q[k] == x;
                assert(k != head);
            }
        } else {
            if exists|k: int| head + 1 <= k < q.len() && q[k] == x {
                let k = choose|k: int| head + 1 <= k < q.len() && q[k] == x;
                assert(q[head] != q[k]);
            }
        }
    }
}

/// Lowering a reached distance keeps the queue; a node not yet waiting is
/// appended.
pub(crate) proof fn lemma_queue_lower(n: int, q: Seq<usize>, head: int, in_q: Seq<bool>, dist: Seq<i64>, to: int, nd: i64)
    requires
        queue_ok(n, q, head, in_q, dist),
        0 <= to < n <= usize::MAX,
        nd != i64::MAX,
    ensures
        in_q[to] ==> queue_ok(n, q, head, in_q, dist.update(to, nd)),
        !in_q[to] ==> queue_ok(n, q.push(to as usize), head, in_q.update(to, true), dist.update(to, nd)),
{
    reveal(queue_ok);
    let d2 = dist.update(to, nd);
    if in_q[to] {
        assert forall|k: int| head <= k < q.len() implies d2[#[trigger] q[k] as int] != i64::MAX by {
            assert(dist[q[k] as int] != i64::MAX);
        }
    } else {
        let q2 = q.push(to as usize);
        let in2 = in_q.update(to, true);
        assert forall|k: int| 0 <= k < q2.len() implies #[trigger] q2[k] < n by {
            if k < q.len() {
                assert(q2[k] == q[k]);
            }
        }
        assert forall|x: int| 0 <= x < n implies (#[trigger] in2[x] <==> exists|k: int| head <= k < q2.len() && q2[k] == x) by {
            if x == to {
                assert(q2[q2.len() - 1] == x);
            } else if in_q[x] {
                let k = choose|k: int| head <= k < q.len() && q[k] == x;
                assert(q2[k] == x);
            } else {
                if exists|k: int| head <= k < q2.len() && q2[k] == x {
                    let k = choose|k: int| head <= k < q2.len() && q2[k] == x;
                    assert(k < q.len());
                    assert(q[k] == x);
                }
            }
        }
        assert forall|a: int, b: int| head <= a < b < q2.len() implies #[trigger] q2[a] != #[trigger] q2[b] by {
            if b == q2.len() - 1 {
                if q2[a] == q2[b] {
                    assert(q[a] == to);
                    assert(in_q[to]);
                }
            } else {
                assert(q2[a] == q[a] && q2[b] == q[b]);
            }
        }
        assert forall|k: int| head <= k < q2.len() implies d2[#[trigger] q2[k] as int] != i64::MAX by {
            if k < q.len() {
                assert(q2[k] == q[k]);
                assert(dist[q[k] as int] != i64::MAX);
            }
        }
    }
}

/// An empty queue flags nothing.
pub(crate) proof fn lemma_queue_empty(n: int, q: Seq<usize>, head: int, in_q: Seq<bool>, dist: Seq<i64>)
    requires
        queue_ok(n, q, head, in_q, dist),
        head >= q.len(),
    ensures
        forall|x: int| 0 <= x < n ==> !#[trigger] in_q[x],
{
    reveal(queue_ok);
}

/// Every listed edge with capacity left out of a reached node that is not
/// waiting is relaxed, except the edges of `u` from position `j` on.
#[verifier::opaque]
pub(crate) open spec fn relaxed_but(net: &FlowNet, dist: Seq<i64>, in_q: Seq<bool>, u: int, j: int) -> bool {
    forall|w: int, x: int|
        #![trigger net.adj@[w]@[x]]
        0 <= w < net.nn() && dist[w] != i64::MAX && !in_q[w] && (w != u || x < j) && 0 <= x < net.adj@[w]@.len()
            && net.residual(net.adj@[w]@[x] as int) > 0 ==> edge_relaxed(net, dist, w, x)
}

/// Dequeuing `u` after `w`'s edges are all relaxed: nothing of `u` yet.
pub(crate) proof fn lemma_relaxed_start(net: &FlowNet, dist: Seq<i64>, in_q: Seq<bool>, u: int, w: int)
    requires
        in_q.len() == net.nn(),
        dist.len() == net.nn(),
        relaxed_but(net, dist, in_q, w, net.adj@[w]@.len() as int),
        0 <= w < net.nn(),
        0 <= u < net.nn(),
        in_q[u],
    ensures
        relaxed_but(net, dist, in_q.update(u, false), u, 0),
{
    reveal(relaxed_but);
}

/// Only `u` reached, and waiting: nothing to relax.
pub(crate) proof fn lemma_relaxed_init(net: &FlowNet, dist: Seq<i64>, in_q: Seq<bool>, u: int)
    requires
        in_q.len() == net.nn(),
        dist.len() == net.nn(),
        in_q[u],
        0 <= u < net.nn(),
        forall|v: int| 0 <= v < net.nn() && v != u ==> #[trigger] dist[v] == i64::MAX,
    ensures
        relaxed_but(net, dist, in_q, u, net.adj@[u]@.len() as int),
{
    reveal(relaxed_but);
    let in2 = in_q.update(u, false);
    assert forall|v: int, x: int|
        #![trigger net.adj@[v]@[x]]
        0 <= v < net.nn() && dist[v] != i64::MAX && !in2[v] && (v != u || x < 0) && 0 <= x < net.adj@[v]@.len()
            && net.residual(net.adj@[v]@[x] as int) > 0 implies edge_relaxed(net, dist, v, x) by {
        assert(v != u);
        assert(!in_q[v]);
    }
}

/// The edge at `(u, j)` needs nothing (no capacity left) or is relaxed.
pub(crate) proof fn lemma_relaxed_next(net: &FlowNet, dist: Seq<i64>, in_q: Seq<bool>, u: int, j: int)
    requires
        relaxed_but(net, dist, in_q, u, j),
        0 <= u < net.nn(),
        0 <= j < net.adj@[u]@.len(),
        net.residual(net.adj@[u]@[j] as int) > 0 && dist[u] != i64::MAX ==> edge_relaxed(net, dist, u, j),
    ensures
        relaxed_but(net, dist, in_q, u, j + 1),
{
    reveal(relaxed_but);
}

/// Lowering the head of `(u, j)` to the distance through `u`, and flagging
/// it as waiting, relaxes that edge and keeps every other relaxed one.
pub(crate) proof fn lemma_relaxed_lower(net: &FlowNet, dist: Seq<i64>, in_q: Seq<bool>, u: int, j: int, nd: i64)
    requires
        net.wf(),
        in_q.len() == net.nn(),
        dist.len() == net.nn(),
        relaxed_but(net, dist, in_q, u, j),
        0 <= u < net.nn(),
        0 <= j < net.adj@[u]@.len(),
        dist[u] != i64::MAX,
        nd != i64::MAX,
        nd == dist[u] + net.edges@[net.adj@[u]@[j] as int].cost,
        nd < dist[net.edges@[net.adj@[u]@[j] as int].to as int],
    ensures
        ({
            let to = net.edges@[net.adj@[u]@[j] as int].to as int;
            relaxed_but(net, dist.update(to, nd), in_q.update(to, true), u, j + 1)
        }),
{
    reveal(relaxed_but);
    let to = net.edges@[net.adj@[u]@[j] as int].to as int;
    let d2 = dist.update(to, nd);
    let in2 = in_q.update(to, true);
    assert forall|w: int, x: int|
        #![trigger net.adj@[w]@[x]]
        0 <= w < net.nn() && d2[w] != i64::MAX && !in2[w] && (w != u || x < j + 1) && 0 <= x < net.adj@[w]@.len()
            && net.residual(net.adj@[w]@[x] as int) > 0 implies edge_relaxed(net, d2, w, x) by {
        assert(w != to);
        if w == u && x == j {
        } else {
            assert(edge_relaxed(net, dist, w, x));
        }
    }
}

/// With nothing waiting and `u` done, every edge is relaxed.
pub(crate) proof fn lemma_relaxed_all(net: &FlowNet, dist: Seq<i64>, in_q: Seq<bool>, u: int)
    requires
        relaxed_but(net, dist, in_q, u, net.adj@[u]@.len() as int),
        0 <= u < net.nn(),
        forall|x: int| 0 <= x < net.nn() ==> !#[trigger] in_q[x],
    ensures
        relaxed(net, dist),
{
    reveal(relaxed_but);
}

/// The search state kept under settling prices: the search core, stamps
/// below the clock, and the progress measure bounding the queue.
#[verifier::opaque]
pub(crate) open spec fn search_state(
    net: &FlowNet,
    s: int,
    c: int,
    p: Seq<int>,
    dist: Seq<i64>,
    prev: Seq<usize>,
    st: Seq<int>,
    clock: int,
    qlen: int,
) -> bool {
    &&& search_core(net, s, c, p, dist, prev, st)
    &&& forall|v: int| 0 <= v < net.nn() ==> #[trigger] st[v] < clock
    &&& c * (net.nn() - 1) + 1 >= 1
    &&& qlen + weight_sum(dist, c * (net.nn() - 1) + 1, net.nn()) <= 1 + (net.nn() - 1) * (c * (net.nn() - 1) + 1)
}

/// The search state with only `s` reached, at distance zero.
pub(crate) proof fn lemma_search_state_start(net: &FlowNet, s: int, c: int, p: Seq<int>, dist: Seq<i64>, prev: Seq<usize>)
    requires
        costs_within(net, c),
        prices_from(net, s, p),
        dist.len() == net.nn(),
        prev.len() == net.nn(),
        dist[s] == 0,
        forall|v: int| 0 <= v < net.nn() && v != s ==> #[trigger] dist[v] == i64::MAX,
    ensures
        search_state(net, s, c, p, dist, prev, Seq::new(net.nn() as nat, |v: int| 0int), 1, 1),
{
    reveal(search_state);
    let n = net.nn();
    let big = c * (n - 1) + 1;
    assert(big >= 1) by (nonlinear_arith)
        requires
            c >= 0,
            n >= 1,
            big == c * (n - 1) + 1,
    ;
    let d0 = Seq::new(n as nat, |v: int| i64::MAX);
    assert(dist =~= d0.update(s, 0));
    lemma_weight_sum_unreached(d0, big, n);
    lemma_weight_sum_update(d0, big, s, 0, n);
    assert(n * big - big == (n - 1) * big) by (nonlinear_arith);
    assert(reached(dist) =~= Seq::new(n as nat, |v: int| false).update(s, true));
    crate::complete::lemma_count_true_none(n as nat);
    crate::complete::lemma_count_true_update(Seq::new(n as nat, |v: int| false), s);
    assert(p[s] == 0);
}

/// Search state bounds: reached distances lie in `[0, c * (n - 1)]` and the
/// queue never outgrows the fuel.
pub(crate) proof fn lemma_search_state_bounds(
    net: &FlowNet,
    s: int,
    c: int,
    p: Seq<int>,
    dist: Seq<i64>,
    prev: Seq<usize>,
    st: Seq<int>,
    clock: int,
    qlen: int,
    fuel: int,
)
    requires
        costs_within(net, c),
        prices_from(net, s, p),
        search_state(net, s, c, p, dist, prev, st, clock, qlen),
        fuel_enough(net.nn(), c, fuel),
        qlen <= usize::MAX,
    ensures
        search_core(net, s, c, p, dist, prev, st),
        forall|v: int| 0 <= v < net.nn() && #[trigger] dist[v] != i64::MAX ==> 0 <= dist[v] <= c * (net.nn() - 1),
        c * (net.nn() - 1) + c < i64::MAX,
        qlen <= fuel,
{
    reveal(search_state);
    lemma_search_bounds(net, s, c, p, dist, prev, st);
    let n = net.nn();
    assert(c * (n - 1) + c < i64::MAX) by (nonlinear_arith)
        requires
            (n + 1) * c <= i64::MAX,
            c >= 0,
            n >= 1,
    ;
    assert forall|i: int| 0 <= i < n implies #[trigger] dist[i] >= 0 by {
        if dist[i] != i64::MAX {
        }
    }
    lemma_weight_sum_nonneg(dist, c * (n - 1) + 1, n);
}

/// One strict relaxation keeps the search state, with the clock advanced
/// and the queue grown by at most one.
pub(crate) proof fn lemma_search_state_relax(
    net: &FlowNet,
    s: int,
    c: int,
    p: Seq<int>,
    dist: Seq<i64>,
    prev: Seq<usize>,
    st: Seq<int>,
    clock: int,
    qlen: int,
    qlen2: int,
    u: int,
    j: int,
    nd: int,
)
    requires
        net.wf(),
        costs_within(net, c),
        prices_from(net, s, p),
        search_state(net, s, c, p, dist, prev, st, clock, qlen),
        0 <= u < net.nn(),
        dist[u] != i64::MAX,
        0 <= j < net.adj@[u]@.len(),
        net.residual(net.adj@[u]@[j] as int) > 0,
        nd == dist[u] + net.edges@[net.adj@[u]@[j] as int].cost,
        nd < dist[net.edges@[net.adj@[u]@[j] as int].to as int],
        qlen2 <= qlen + 1,
    ensures
        ({
            let e = net.adj@[u]@[j];
            let to = net.edges@[e as int].to as int;
            &&& to != u
            &&& search_state(
                net,
                s,
                c,
                p,
                dist.update(to, nd as i64),
                prev.update(to, e),
                st.update(to, clock),
                clock + 1,
                qlen2,
            )
        }),
{
    reveal(search_state);
    let n = net.nn();
    let big = c * (n - 1) + 1;
    let e = net.adj@[u]@[j];
    let to = net.edges@[e as int].to as int;
    lemma_search_relax(net, s, c, p, dist, prev, st, clock, u, j, nd);
    lemma_weight_sum_update(dist, big, to, nd as i64, n);
}

} // verus!
