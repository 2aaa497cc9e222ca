//! Exhaustive backtracking search for a node-disjoint joint routing of the
//! window's connections, with memoized dead states.
//!
//! The search routes the nets in a fixed order and, for net `i`, enumerates
//! every simple path from its source to its target through nodes not
//! occupied by nets `< i`, recursing to net `i + 1` on each completed path.
//! Failed states `(net index, occupied nodes)` are memoized only when their
//! subtree ran to exhaustion, so a budget trip can never be reported as a
//! proof of infeasibility.
use vstd::prelude::*;
use crate::bitset::{BitSet, bits, lemma_word_bits, word_bit};
use crate::complete::{is_walk, no_repeats, node_disjoint, node_open, path_nodes, terms_ok};
use crate::order::{sort_indices_by_key, sorted_permutation};
use crate::window::WindowGraph;
use std::collections::HashMap;

verus! {

/// The nodes below `n` not in `occ`.
pub open spec fn open_below(occ: Set<int>, n: nat) -> nat
    decreases n,
{
    if n == 0 {
        0
    } else {
        open_below(occ, (n - 1) as nat) + if occ.contains(n - 1) { 0nat } else { 1nat }
    }
}

/// Taking an open node below `n` leaves one open node fewer.
pub proof fn lemma_open_below_insert(occ: Set<int>, n: nat, v: int)
    requires
        0 <= v < n,
        !occ.contains(v),
    ensures
        open_below(occ, n) >= 1,
        open_below(occ.insert(v), n) + 1 == open_below(occ, n),
    decreases n,
{
    if v < n - 1 {
        lemma_open_below_insert(occ, (n - 1) as nat, v);
    } else {
        lemma_open_below_same(occ, v, (n - 1) as nat);
    }
}

proof fn lemma_open_below_same(occ: Set<int>, v: int, n: nat)
    requires
        n <= v,
    ensures
        open_below(occ.insert(v), n) == open_below(occ, n),
    decreases n,
{
    if n > 0 {
        lemma_open_below_same(occ, v, (n - 1) as nat);
    }
}

/// Expansions of the plain exhaustive enumeration for connections `i..`
/// around `occ`: every simple path of connection `i` from its source through
/// open nodes is walked, one expansion per node reached, each path reaching
/// the target recurses into connection `i + 1`, and nothing is remembered
/// between branches nor cut short by a success. The memoized search never
/// makes more expansions than this.
pub open spec fn tree_solve(g: &WindowGraph, terms: Seq<(usize, usize)>, i: int, occ: Set<int>) -> nat
    decreases terms.len() - i, open_below(occ, g.n() as nat), 9int,
{
    if i < 0 || i >= terms.len() {
        0
    } else {
        let s = terms[i].0 as int;
        let t = terms[i].1 as int;
        if !node_open(g, occ, s) || !node_open(g, occ, t) {
            0
        } else {
            proof {
                lemma_open_below_insert(occ, g.n() as nat, s);
            }
            tree_dfs(g, terms, i, occ.insert(s), s, t)
        }
    }
}

/// Expansions of the enumeration of connection `i`'s paths on from `cur`
/// (already taken) to `t`, later connections included.
pub open spec fn tree_dfs(g: &WindowGraph, terms: Seq<(usize, usize)>, i: int, occ: Set<int>, cur: int, t: int) -> nat
    decreases terms.len() - i, open_below(occ, g.n() as nat), 8int,
{
    if i < 0 || i >= terms.len() {
        0
    } else if cur == t {
        1 + tree_solve(g, terms, i + 1, occ)
    } else {
        1 + tree_nbrs(g, terms, i, occ, cur, t, 0)
    }
}

/// Expansions below `cur` through its neighbours `x..`.
pub open spec fn tree_nbrs(
    g: &WindowGraph,
    terms: Seq<(usize, usize)>,
    i: int,
    occ: Set<int>,
    cur: int,
    t: int,
    x: int,
) -> nat
    decreases terms.len() - i, open_below(occ, g.n() as nat), 7 - x,
{
    proof {
        g.lemma_nbrs_at_most_six(cur);
    }
    if x < 0 || x >= g.nbrs(cur).len() || i < 0 || i >= terms.len() {
        0
    } else {
        tree_child(g, terms, i, occ, cur, t, x) + tree_nbrs(g, terms, i, occ, cur, t, x + 1)
    }
}

/// Expansions below `cur` through its `x`-th neighbour: none unless the
/// neighbour is open and the step to it legal.
pub open spec fn tree_child(
    g: &WindowGraph,
    terms: Seq<(usize, usize)>,
    i: int,
    occ: Set<int>,
    cur: int,
    t: int,
    x: int,
) -> nat
    decreases terms.len() - i, open_below(occ, g.n() as nat), 0int,
{
    if 0 <= x < g.nbrs(cur).len() && 0 <= i < terms.len() {
        let nb = g.nbrs(cur)[x];
        if node_open(g, occ, nb) && g.edge_legal(cur, nb) {
            proof {
                lemma_open_below_insert(occ, g.n() as nat, nb);
            }
            tree_dfs(g, terms, i, occ.insert(nb), nb, t)
        } else {
            0
        }
    } else {
        0
    }
}

/// Expansions below `cur` through those of its neighbours `x..` marked in
/// `done`.
pub open spec fn tree_picked(
    g: &WindowGraph,
    terms: Seq<(usize, usize)>,
    i: int,
    occ: Set<int>,
    cur: int,
    t: int,
    done: Seq<bool>,
    x: int,
) -> nat
    decreases g.nbrs(cur).len() - x,
{
    if x < 0 || x >= g.nbrs(cur).len() {
        0
    } else {
        (if done[x] { tree_child(g, terms, i, occ, cur, t, x) } else { 0 }) + tree_picked(
            g,
            terms,
            i,
            occ,
            cur,
            t,
            done,
            x + 1,
        )
    }
}

proof fn lemma_picked_mark(
    g: &WindowGraph,
    terms: Seq<(usize, usize)>,
    i: int,
    occ: Set<int>,
    cur: int,
    t: int,
    done: Seq<bool>,
    z: int,
    x: int,
)
    requires
        0 <= x,
        0 <= z < g.nbrs(cur).len(),
        done.len() == g.nbrs(cur).len(),
        !done[z],
    ensures
        tree_picked(g, terms, i, occ, cur, t, done.update(z, true), x) == tree_picked(g, terms, i, occ, cur, t, done, x)
            + (if x <= z { tree_child(g, terms, i, occ, cur, t, z) } else { 0 }),
    decreases g.nbrs(cur).len() - x,
{
    if x < g.nbrs(cur).len() {
        lemma_picked_mark(g, terms, i, occ, cur, t, done, z, x + 1);
    }
}

proof fn lemma_picked_le(
    g: &WindowGraph,
    terms: Seq<(usize, usize)>,
    i: int,
    occ: Set<int>,
    cur: int,
    t: int,
    done: Seq<bool>,
    x: int,
)
    requires
        0 <= x,
        0 <= i < terms.len(),
    ensures
        tree_picked(g, terms, i, occ, cur, t, done, x) <= tree_nbrs(g, terms, i, occ, cur, t, x),
    decreases g.nbrs(cur).len() - x,
{
    if x < g.nbrs(cur).len() {
        lemma_picked_le(g, terms, i, occ, cur, t, done, x + 1);
    }
}

proof fn lemma_picked_none(
    g: &WindowGraph,
    terms: Seq<(usize, usize)>,
    i: int,
    occ: Set<int>,
    cur: int,
    t: int,
    done: Seq<bool>,
    x: int,
)
    requires
        forall|y: int| 0 <= y < done.len() ==> !#[trigger] done[y],
        done.len() == g.nbrs(cur).len(),
    ensures
        tree_picked(g, terms, i, occ, cur, t, done, x) == 0,
    decreases g.nbrs(cur).len() - x,
{
    if 0 <= x < g.nbrs(cur).len() {
        lemma_picked_none(g, terms, i, occ, cur, t, done, x + 1);
    }
}

/// DFS step result. `Tripped` aborts the whole search.
#[derive(PartialEq, Eq, Structural, Debug, Clone, Copy)]
pub enum Step {
    /// A joint routing of the remaining nets was found.
    Found,
    /// The subtree was enumerated completely without a routing.
    Exhausted,
    /// The expansion budget ran out.
    Tripped,
}

/// The view of a list of node paths.
pub open spec fn pview(paths: Seq<Vec<usize>>) -> Seq<Seq<usize>> {
    paths.map_values(|p: Vec<usize>| p@)
}

/// `ps` routes connections `i..` pairwise node-disjointly, each along a
/// simple walk that avoids `occ`.
pub open spec fn joint_routing(
    g: &WindowGraph,
    terms: Seq<(usize, usize)>,
    i: int,
    occ: Set<int>,
    ps: Seq<Seq<usize>>,
) -> bool {
    &&& 0 <= i <= terms.len()
    &&& ps.len() == terms.len() - i
    &&& forall|m: int|
        0 <= m < ps.len() ==> {
            &&& is_walk(g, occ, #[trigger] ps[m], terms[i + m].0 as int, terms[i + m].1 as int)
            &&& no_repeats(ps[m])
        }
    &&& forall|a: int, b: int| 0 <= a < b < ps.len() ==> node_disjoint(#[trigger] ps[a], #[trigger] ps[b])
}

/// Connections `i..` can be routed jointly around the nodes in `occ`.
pub open spec fn jointly_routable(g: &WindowGraph, terms: Seq<(usize, usize)>, i: int, occ: Set<int>) -> bool {
    exists|ps: Seq<Seq<usize>>| joint_routing(g, terms, i, occ, ps)
}

/// `q` continues net `i`'s partial path from `cur` to `t`: a simple walk whose
/// nodes after `cur` are open around `occ`.
pub open spec fn extends(g: &WindowGraph, occ: Set<int>, cur: int, t: int, q: Seq<usize>) -> bool {
    &&& q.len() >= 1
    &&& q[0] == cur
    &&& q[q.len() - 1] == t
    &&& forall|j: int| 1 <= j < q.len() ==> node_open(g, occ, #[trigger] q[j] as int)
    &&& forall|j: int| 0 <= j < q.len() - 1 ==> g.step_ok(#[trigger] q[j] as int, q[j + 1] as int)
    &&& no_repeats(q)
}

/// Net `i`'s partial path, now at `cur`, can be completed to `t` so that the
/// remaining nets still route.
pub open spec fn completable(
    g: &WindowGraph,
    terms: Seq<(usize, usize)>,
    i: int,
    occ: Set<int>,
    cur: int,
    t: int,
) -> bool {
    exists|q: Seq<usize>| extends(g, occ, cur, t, q) && jointly_routable(g, terms, i + 1, occ.union(path_nodes(q)))
}


/// A walk for net `i` followed by a joint routing of the later nets around
/// it is a joint routing of nets `i..`.
pub proof fn lemma_joint_cons(
    g: &WindowGraph,
    terms: Seq<(usize, usize)>,
    i: int,
    occ: Set<int>,
    q: Seq<usize>,
    rest: Seq<Seq<usize>>,
)
    requires
        0 <= i < terms.len(),
        is_walk(g, occ, q, terms[i].0 as int, terms[i].1 as int),
        no_repeats(q),
        joint_routing(g, terms, i + 1, occ.union(path_nodes(q)), rest),
    ensures
        joint_routing(g, terms, i, occ, seq![q] + rest),
{
    let ps = seq![q] + rest;
    assert forall|m: int| 0 <= m < ps.len() implies {
        &&& is_walk(g, occ, #[trigger] ps[m], terms[i + m].0 as int, terms[i + m].1 as int)
        &&& no_repeats(ps[m])
    } by {
        if m > 0 {
            assert(ps[m] == rest[m - 1]);
            let r = rest[m - 1];
            assert(is_walk(g, occ.union(path_nodes(q)), r, terms[i + 1 + (m - 1)].0 as int, terms[i + 1 + (m - 1)].1 as int));
            assert forall|x: int| 0 <= x < r.len() implies node_open(g, occ, #[trigger] r[x] as int) by {
                assert(node_open(g, occ.union(path_nodes(q)), r[x] as int));
            }
        }
    }
    assert forall|a: int, b: int| 0 <= a < b < ps.len() implies node_disjoint(#[trigger] ps[a], #[trigger] ps[b]) by {
        if a == 0 {
            let r = rest[b - 1];
            assert(ps[b] == r);
            assert forall|x: int, y: int| 0 <= x < q.len() && 0 <= y < r.len() implies q[x] != r[y] by {
                assert(node_open(g, occ.union(path_nodes(q)), r[y] as int));
                assert(path_nodes(q).contains(q[x] as int));
            }
        } else {
            assert(ps[a] == rest[a - 1]);
            assert(ps[b] == rest[b - 1]);
        }
    }
}

/// The first path of a joint routing of nets `i..` is a walk for net `i`,
/// and the rest route nets `i + 1..` around it.
pub proof fn lemma_joint_uncons(
    g: &WindowGraph,
    terms: Seq<(usize, usize)>,
    i: int,
    occ: Set<int>,
    ps: Seq<Seq<usize>>,
)
    requires
        0 <= i < terms.len(),
        joint_routing(g, terms, i, occ, ps),
    ensures
        is_walk(g, occ, ps[0], terms[i].0 as int, terms[i].1 as int),
        no_repeats(ps[0]),
        joint_routing(g, terms, i + 1, occ.union(path_nodes(ps[0])), ps.drop_first()),
{
    let q = ps[0];
    let rest = ps.drop_first();
    assert(is_walk(g, occ, ps[0], terms[i + 0].0 as int, terms[i + 0].1 as int));
    assert forall|m: int| 0 <= m < rest.len() implies {
        &&& is_walk(g, occ.union(path_nodes(q)), #[trigger] rest[m], terms[i + 1 + m].0 as int, terms[i + 1 + m].1 as int)
        &&& no_repeats(rest[m])
    } by {
        let r = rest[m];
        assert(r == ps[m + 1]);
        assert(is_walk(g, occ, ps[m + 1], terms[i + (m + 1)].0 as int, terms[i + (m + 1)].1 as int));
        assert(node_disjoint(ps[0], ps[m + 1]));
        assert forall|x: int| 0 <= x < r.len() implies node_open(g, occ.union(path_nodes(q)), #[trigger] r[x] as int) by {
            assert(node_open(g, occ, r[x] as int));
            if path_nodes(q).contains(r[x] as int) {
                let y = choose|y: int| 0 <= y < q.len() && q[y] as int == r[x] as int;
                assert(q[y] != r[x]);
            }
        }
    }
    assert forall|a: int, b: int| 0 <= a < b < rest.len() implies node_disjoint(#[trigger] rest[a], #[trigger] rest[b]) by {
        assert(rest[a] == ps[a + 1]);
        assert(rest[b] == ps[b + 1]);
    }
}

/// A net whose own terminal is unavailable cannot be routed.
pub proof fn lemma_blocked_terminal(g: &WindowGraph, terms: Seq<(usize, usize)>, i: int, occ: Set<int>)
    requires
        0 <= i < terms.len(),
        !node_open(g, occ, terms[i].0 as int) || !node_open(g, occ, terms[i].1 as int),
    ensures
        !jointly_routable(g, terms, i, occ),
{
    if jointly_routable(g, terms, i, occ) {
        let ps = choose|ps: Seq<Seq<usize>>| joint_routing(g, terms, i, occ, ps);
        lemma_joint_uncons(g, terms, i, occ, ps);
        let q = ps[0];
        assert(node_open(g, occ, q[0] as int));
        assert(node_open(g, occ, q[q.len() - 1] as int));
    }
}

/// At the target, the partial path completes only as itself.
pub proof fn lemma_at_target(g: &WindowGraph, terms: Seq<(usize, usize)>, i: int, occ: Set<int>, t: int)
    requires
        occ.contains(t),
        !jointly_routable(g, terms, i + 1, occ),
    ensures
        !completable(g, terms, i, occ, t, t),
{
    if completable(g, terms, i, occ, t, t) {
        let q = choose|q: Seq<usize>| extends(g, occ, t, t, q) && jointly_routable(g, terms, i + 1, occ.union(path_nodes(q)));
        if q.len() > 1 {
            assert(q[0] == q[q.len() - 1]);
        }
        assert(occ.union(path_nodes(q)) =~= occ);
    }
}

/// Away from the target, a completion must leave through some neighbour.
pub proof fn lemma_via_neighbor(
    g: &WindowGraph,
    terms: Seq<(usize, usize)>,
    i: int,
    occ: Set<int>,
    cur: int,
    t: int,
)
    requires
        cur != t,
        occ.contains(cur),
        forall|k: int|
            0 <= k < g.nbrs(cur).len() ==> !(g.step_ok(cur, #[trigger] g.nbrs(cur)[k]) && node_open(g, occ, g.nbrs(cur)[k]))
                || !completable(g, terms, i, occ.insert(g.nbrs(cur)[k]), g.nbrs(cur)[k], t),
    ensures
        !completable(g, terms, i, occ, cur, t),
{
    if completable(g, terms, i, occ, cur, t) {
        let q = choose|q: Seq<usize>| extends(g, occ, cur, t, q) && jointly_routable(g, terms, i + 1, occ.union(path_nodes(q)));
        assert(q.len() >= 2);
        let nb = q[1] as int;
        assert(g.step_ok(q[0] as int, q[1] as int));
        let k = choose|k: int| 0 <= k < g.nbrs(cur).len() && g.nbrs(cur)[k] == nb;
        assert(node_open(g, occ, q[1] as int));
        let q2 = q.drop_first();
        let occ2 = occ.insert(nb);
        assert forall|j: int| 1 <= j < q2.len() implies node_open(g, occ2, #[trigger] q2[j] as int) by {
            assert(q2[j] == q[j + 1]);
            assert(node_open(g, occ, q[j + 1] as int));
            assert(q[1] != q[j + 1]);
        }
        assert forall|j: int| 0 <= j < q2.len() - 1 implies g.step_ok(#[trigger] q2[j] as int, q2[j + 1] as int) by {
            assert(q2[j] == q[j + 1]);
            assert(q2[j + 1] == q[j + 1 + 1]);
        }
        assert(extends(g, occ2, nb, t, q2));
        assert(occ2.union(path_nodes(q2)) =~= occ.union(path_nodes(q))) by {
            assert forall|v: int| path_nodes(q).contains(v) implies occ2.union(path_nodes(q2)).contains(v) by {
                let y = choose|y: int| 0 <= y < q.len() && q[y] as int == v;
                if y > 0 {
                    assert(q2[y - 1] as int == v);
                }
            }
            assert forall|v: int| path_nodes(q2).contains(v) implies path_nodes(q).contains(v) by {
                let y = choose|y: int| 0 <= y < q2.len() && q2[y] as int == v;
                assert(q[y + 1] as int == v);
            }
        }
        assert(completable(g, terms, i, occ2, nb, t));
    }
}

/// A completion found from neighbour `nb` of `cur` extends the path that
/// ended at `cur`.
#[verifier::rlimit(30)]
proof fn lemma_found_via(g: &WindowGraph, occ0: Set<int>, cur: int, nb: usize, t: int, p0: Seq<usize>, pn: Seq<usize>)
    requires
        g.wf(),
        0 <= cur < g.n(),
        occ0.contains(cur),
        g.step_ok(cur, nb as int),
        node_open(g, occ0, nb as int),
        p0.len() >= 1,
        p0[p0.len() - 1] == cur,
        pn.len() >= p0.len() + 1,
        pn.subrange(0, p0.len() as int + 1) == p0.push(nb),
        extends(g, occ0.insert(nb as int), nb as int, t, pn.subrange(p0.len() as int, pn.len() as int)),
    ensures
        pn.subrange(0, p0.len() as int) == p0,
        extends(g, occ0, cur, t, pn.subrange(p0.len() - 1, pn.len() as int)),
        occ0.union(path_nodes(pn.subrange(p0.len() - 1, pn.len() as int))) == occ0.insert(nb as int).union(
            path_nodes(pn.subrange(p0.len() as int, pn.len() as int)),
        ),
{
    let p1 = p0.push(nb);
    let q2 = pn.subrange(p0.len() as int, pn.len() as int);
    lemma_extend_back(g, occ0, cur, nb as int, t, q2);
    let q = pn.subrange(p0.len() - 1, pn.len() as int);
    assert(q =~= seq![cur as usize] + q2) by {
        assert(pn[p0.len() - 1] == p1[p0.len() - 1]);
    }
    assert(pn.subrange(0, p0.len() as int) =~= p0) by {
        assert forall|x: int| 0 <= x < p0.len() implies pn[x] == p0[x] by {
            assert(pn[x] == pn.subrange(0, p0.len() as int + 1)[x]);
            assert(pn[x] == p1[x]);
        }
    }
}

/// Prefixing `cur` to a completion from a neighbour `nb` completes from `cur`.
pub proof fn lemma_extend_back(g: &WindowGraph, occ: Set<int>, cur: int, nb: int, t: int, q2: Seq<usize>)
    requires
        g.wf(),
        0 <= cur < g.n(),
        occ.contains(cur),
        g.step_ok(cur, nb),
        node_open(g, occ, nb),
        extends(g, occ.insert(nb), nb, t, q2),
    ensures
        extends(g, occ, cur, t, seq![cur as usize] + q2),
        occ.union(path_nodes(seq![cur as usize] + q2)) =~= occ.insert(nb).union(path_nodes(q2)),
{
    let q = seq![cur as usize] + q2;
    g.lemma_sizes();
    assert(q[0] as int == cur);
    assert(q2[0] as int == nb);
    assert forall|j: int| 1 <= j < q.len() implies node_open(g, occ, #[trigger] q[j] as int) by {
        assert(q[j] == q2[j - 1]);
        if j > 1 {
            assert(node_open(g, occ.insert(nb), q2[j - 1] as int));
        }
    }
    assert forall|j: int| 0 <= j < q.len() - 1 implies g.step_ok(#[trigger] q[j] as int, q[j + 1] as int) by {
        if j > 0 {
            assert(q[j] == q2[j - 1]);
            assert(q[j + 1] == q2[j]);
        } else {
            assert(q[1] == q2[0]);
        }
    }
    assert forall|a: int, b: int| 0 <= a < b < q.len() implies q[a] != q[b] by {
        if a == 0 {
            assert(q[b] == q2[b - 1]);
            assert(!occ.contains(nb));
            if b > 1 {
                assert(node_open(g, occ.insert(nb), q2[b - 1] as int));
            }
        } else {
            assert(q[a] == q2[a - 1]);
            assert(q[b] == q2[b - 1]);
        }
    }
    assert forall|v: int| occ.union(path_nodes(q)).contains(v) implies occ.insert(nb).union(path_nodes(q2)).contains(v) by {
        if path_nodes(q).contains(v) && !occ.contains(v) {
            let y = choose|y: int| 0 <= y < q.len() && q[y] as int == v;
            assert(y > 0);
            assert(q2[y - 1] as int == v);
        }
    }
    assert forall|v: int| occ.insert(nb).union(path_nodes(q2)).contains(v) implies occ.union(path_nodes(q)).contains(v) by {
        if v == nb {
            assert(q[1] as int == v);
        } else if path_nodes(q2).contains(v) {
            let y = choose|y: int| 0 <= y < q2.len() && q2[y] as int == v;
            assert(q[y + 1] as int == v);
        }
    }
}

/// If no completion starts at net `i`'s source, net `i` cannot be routed.
pub proof fn lemma_from_source(
    g: &WindowGraph,
    terms: Seq<(usize, usize)>,
    i: int,
    occ: Set<int>,
)
    requires
        0 <= i < terms.len(),
        !completable(g, terms, i, occ.insert(terms[i].0 as int), terms[i].0 as int, terms[i].1 as int),
    ensures
        !jointly_routable(g, terms, i, occ),
{
    if jointly_routable(g, terms, i, occ) {
        let ps = choose|ps: Seq<Seq<usize>>| joint_routing(g, terms, i, occ, ps);
        lemma_joint_uncons(g, terms, i, occ, ps);
        let q = ps[0];
        let s = terms[i].0 as int;
        let occ1 = occ.insert(s);
        assert forall|j: int| 1 <= j < q.len() implies node_open(g, occ1, #[trigger] q[j] as int) by {
            assert(node_open(g, occ, q[j] as int));
            assert(q[0] != q[j]);
        }
        assert(extends(g, occ1, s, terms[i].1 as int, q));
        assert(occ1.union(path_nodes(q)) =~= occ.union(path_nodes(q))) by {
            assert(path_nodes(q).contains(q[0] as int));
        }
        assert(joint_routing(g, terms, i + 1, occ1.union(path_nodes(q)), ps.drop_first()));
    }
}


fn copy_words(a: &Vec<u64>) -> (r: Vec<u64>)
    ensures
        r@ == a@,
{
    let mut r: Vec<u64> = Vec::new();
    let mut i: usize = 0;
    while i < a.len()
        invariant
            i <= a@.len(),
            r@ == a@.subrange(0, i as int),
        decreases a@.len() - i,
    {
        r.push(a[i]);
        i = i + 1;
    }
    assert(r@ =~= a@);
    r
}

fn same_words(a: &Vec<u64>, b: &Vec<u64>) -> (r: bool)
    ensures
        r == (a@ == b@),
{
    if a.len() != b.len() {
        return false;
    }
    let mut i: usize = 0;
    while i < a.len()
        invariant
            a@.len() == b@.len(),
            i <= a@.len(),
            forall|j: int| 0 <= j < i ==> a@[j] == b@[j],
        decreases a@.len() - i,
    {
        if a[i] != b[i] {
            return false;
        }
        i = i + 1;
    }
    assert(a@ =~= b@);
    true
}

/// A fingerprint of a search state `(net index, occupancy words)`.
fn fingerprint(i: usize, w: &Vec<u64>) -> u64 {
    let mut h: u64 = (i as u64).wrapping_mul(0x9e37_79b9_7f4a_7c15);
    let mut k: usize = 0;
    while k < w.len()
        decreases w@.len() - k,
    {
        h = (h ^ w[k]).wrapping_mul(0x0000_0100_0000_01b3);
        k = k + 1;
    }
    h
}

/// Dead search states `(net index, occupancy words)`, kept in buckets found
/// through a fingerprint of the state, so a lookup scans one bucket only.
pub struct DeadStates {
    /// The states, bucketed.
    pub buckets: Vec<Vec<(usize, Vec<u64>)>>,
    /// Fingerprint to bucket.
    pub index: HashMap<u64, usize>,
}

impl DeadStates {
    /// State `(j, w)` is recorded.
    pub open spec fn holds(&self, j: usize, w: Seq<u64>) -> bool {
        exists|b: int, e: int|
            0 <= b < self.buckets@.len() && 0 <= e < self.buckets@[b]@.len() && (#[trigger] self.buckets@[b]@[e]).0 == j
                && self.buckets@[b]@[e].1@ == w
    }

    /// No state recorded.
    pub fn new() -> (d: Self)
        ensures
            forall|j: usize, w: Seq<u64>| !#[trigger] d.holds(j, w),
    {
        DeadStates { buckets: Vec::new(), index: HashMap::new() }
    }

    /// Whether state `(i, w)` is recorded (found only in the bucket of its
    /// fingerprint).
    pub fn contains(&self, i: usize, w: &Vec<u64>) -> (r: bool)
        ensures
            r ==> self.holds(i, w@),
    {
        let f = fingerprint(i, w);
        let b = match self.index.get(&f) {
            Some(b) => *b,
            None => usize::MAX,
        };
        if b >= self.buckets.len() {
            return false;
        }
        let bucket = &self.buckets[b];
        let mut e: usize = 0;
        while e < bucket.len()
            invariant
                b < self.buckets@.len(),
                bucket == self.buckets@[b as int],
                e <= bucket@.len(),
            decreases bucket@.len() - e,
        {
            if bucket[e].0 == i && same_words(&bucket[e].1, w) {
                assert(self.buckets@[b as int]@[e as int].0 == i && self.buckets@[b as int]@[e as int].1@ == w@);
                return true;
            }
            e = e + 1;
        }
        false
    }

    /// Record state `(i, w)`.
    pub fn insert(&mut self, i: usize, w: Vec<u64>)
        ensures
            final(self).holds(i, w@),
            forall|j: usize, x: Seq<u64>| #[trigger] final(self).holds(j, x) ==> old(self).holds(j, x) || (j == i && x == w@),
    {
        let f = fingerprint(i, &w);
        let b = match self.index.get(&f) {
            Some(b) => *b,
            None => usize::MAX,
        };
        let ghost wv = w@;
        let ghost old_buckets = self.buckets@;
        if b < self.buckets.len() {
            self.buckets[b].push((i, w));
            proof {
                let nb = self.buckets@;
                assert(nb.len() == old_buckets.len());
                assert(nb[b as int]@ == old_buckets[b as int]@.push((i, w)));
                assert(nb[b as int]@[old_buckets[b as int]@.len() as int].0 == i);
                assert forall|j: usize, x: Seq<u64>| #[trigger] self.holds(j, x) implies old(self).holds(j, x) || (j == i && x == wv) by {
                    let (bb, e) = choose|bb: int, e: int|
                        0 <= bb < nb.len() && 0 <= e < nb[bb]@.len() && (#[trigger] nb[bb]@[e]).0 == j && nb[bb]@[e].1@ == x;
                    if bb != b as int {
                        assert(nb[bb] == old_buckets[bb]);
                        assert(old_buckets[bb]@[e].0 == j && old_buckets[bb]@[e].1@ == x);
                    } else if e < old_buckets[b as int]@.len() {
                        assert(nb[bb]@[e] == old_buckets[bb]@[e]);
                        assert(old_buckets[bb]@[e].0 == j && old_buckets[bb]@[e].1@ == x);
                    }
                }
            }
        } else {
            let mut bucket: Vec<(usize, Vec<u64>)> = Vec::new();
            bucket.push((i, w));
            self.buckets.push(bucket);
            self.index.insert(f, self.buckets.len() - 1);
            proof {
                let nb = self.buckets@;
                assert(nb[old_buckets.len() as int]@[0].0 == i);
                assert forall|j: usize, x: Seq<u64>| #[trigger] self.holds(j, x) implies old(self).holds(j, x) || (j == i && x == wv) by {
                    let (bb, e) = choose|bb: int, e: int|
                        0 <= bb < nb.len() && 0 <= e < nb[bb]@.len() && (#[trigger] nb[bb]@[e]).0 == j && nb[bb]@[e].1@ == x;
                    if bb < old_buckets.len() {
                        assert(nb[bb] == old_buckets[bb]);
                        assert(old_buckets[bb]@[e].0 == j && old_buckets[bb]@[e].1@ == x);
                    }
                }
            }
        }
    }
}

/// Neighbour `nb` of `cur` offers no way forward: it is not an open node
/// across a legal edge, or no completion through it exists.
#[verifier::opaque]
pub open spec fn dead_end(
    g: &WindowGraph,
    terms: Seq<(usize, usize)>,
    i: int,
    occ: Set<int>,
    cur: int,
    t: int,
    nb: int,
) -> bool {
    !(g.step_ok(cur, nb) && node_open(g, occ, nb)) || !completable(g, terms, i, occ.insert(nb), nb, t)
}

/// Every recorded dead state is genuinely dead.
#[verifier::opaque]
pub open spec fn memo_sound(g: &WindowGraph, terms: Seq<(usize, usize)>, memo: &DeadStates) -> bool {
    forall|j: usize, w: Seq<u64>|
        #[trigger] memo.holds(j, w) ==> j <= terms.len() && !jointly_routable(g, terms, j as int, bits(w))
}

/// The search state.
pub struct Search<'a> {
    /// The window graph.
    pub g: &'a WindowGraph,
    /// `(source, target)` node of every connection, in routing order.
    pub terms: &'a Vec<(usize, usize)>,
    /// Nodes occupied by committed paths of earlier nets and the current
    /// net's partial path.
    pub occ: BitSet,
    /// Per-connection node paths.
    pub paths: Vec<Vec<usize>>,
    /// DFS node expansions so far.
    pub expansions: usize,
    /// Expansion budget.
    pub budget: usize,
    /// Dead states `(net index, occupancy words)`, recorded only for
    /// subtrees that ran to exhaustion.
    pub memo: DeadStates,
}

impl<'a> Search<'a> {
    /// Search state invariant.
    pub open spec fn inv(&self) -> bool {
        &&& self.g.wf()
        &&& self.g.nx <= 0x4000_0000
        &&& self.g.ny <= 0x4000_0000
        &&& self.g.nl <= 0x4000_0000
        &&& terms_ok(self.g, self.terms@)
        &&& self.occ.capacity() >= self.g.n()
        &&& self.paths@.len() == self.terms@.len()
        &&& self.budget < usize::MAX
        &&& memo_sound(self.g, self.terms@, &self.memo)
    }

    /// A fresh search over `terms` with the given expansion budget.
    pub fn new(g: &'a WindowGraph, terms: &'a Vec<(usize, usize)>, budget: usize) -> (s: Self)
        requires
            g.wf(),
            g.nx <= 0x4000_0000,
            g.ny <= 0x4000_0000,
            g.nl <= 0x4000_0000,
            terms_ok(g, terms@),
            budget < usize::MAX,
        ensures
            s.inv(),
            s.g == g,
            s.terms == terms,
            s.budget == budget,
            s.expansions == 0,
            s.occ@ == Set::<int>::empty(),
            forall|j: int| 0 <= j < s.paths@.len() ==> (#[trigger] s.paths@[j])@.len() == 0,
    {
        proof {
            g.lemma_sizes();
        }
        let k = terms.len();
        let mut paths: Vec<Vec<usize>> = Vec::new();
        let mut c: usize = 0;
        while c < k
            invariant
                c <= k,
                paths@.len() == c,
                forall|j: int| 0 <= j < c ==> (#[trigger] paths@[j])@.len() == 0,
            decreases k - c,
        {
            paths.push(Vec::new());
            c = c + 1;
        }
        let s = Search { g, terms, occ: BitSet::new(g.free.len()), paths, expansions: 0, budget, memo: DeadStates::new() };
        proof {
            reveal(memo_sound);
        }
        s
    }

    /// Route nets `i..` given the occupancy of nets `< i`.
    ///
    /// `Found`: the paths of nets `i..` form a joint routing around the
    /// occupancy at entry. `Exhausted`: no such routing exists. `Tripped`:
    /// the budget ran out. Anything but `Found` leaves occupancy and paths as
    /// they were.
    pub fn solve(&mut self, i: usize) -> (r: Step)
        requires
            old(self).inv(),
            i <= old(self).terms@.len(),
            old(self).expansions <= old(self).budget,
            forall|j: int| i <= j < old(self).paths@.len() ==> (#[trigger] old(self).paths@[j])@.len() == 0,
        ensures
            final(self).inv(),
            final(self).g == old(self).g,
            final(self).terms == old(self).terms,
            final(self).budget == old(self).budget,
            old(self).expansions <= final(self).expansions <= final(self).budget + 1,
            r == Step::Exhausted ==> final(self).expansions <= final(self).budget,
            r == Step::Tripped ==> final(self).expansions == final(self).budget + 1,
            final(self).expansions - old(self).expansions <= tree_solve(
                old(self).g,
                old(self).terms@,
                i as int,
                old(self).occ@,
            ),
            old(self).budget - old(self).expansions >= tree_solve(old(self).g, old(self).terms@, i as int, old(self).occ@)
                ==> r != Step::Tripped,
            forall|j: int| 0 <= j < i ==> (#[trigger] final(self).paths@[j])@ == old(self).paths@[j]@,
            r != Step::Found ==> final(self).occ.words@ == old(self).occ.words@ && pview(final(self).paths@)
                == pview(old(self).paths@),
            r == Step::Exhausted ==> !jointly_routable(old(self).g, old(self).terms@, i as int, old(self).occ@),
            r == Step::Found ==> joint_routing(
                old(self).g,
                old(self).terms@,
                i as int,
                old(self).occ@,
                pview(final(self).paths@).subrange(i as int, old(self).terms@.len() as int),
            ),
        decreases old(self).budget - old(self).expansions, 1int,
    {
        let k = self.terms.len();
        if i == k {
            assert(joint_routing(self.g, self.terms@, i as int, self.occ@, pview(self.paths@).subrange(i as int, k as int)));
            return Step::Found;
        }
        let key_words = copy_words(&self.occ.words);
        if self.memo.contains(i, &key_words) {
            proof {
                reveal(memo_sound);
                assert(self.memo.holds(i, key_words@));
                assert(key_words@ == self.occ.words@);
            }
            return Step::Exhausted;
        }
        let (s, t) = self.terms[i];
        proof {
            self.g.lemma_sizes();
        }
        if self.occ.get(s) || self.occ.get(t) || !self.g.free[s] || !self.g.free[t] {
            proof {
                lemma_blocked_terminal(self.g, self.terms@, i as int, self.occ@);
                reveal(memo_sound);
            }
            let ghost kw = key_words@;
            let ghost memo_before = self.memo;
            self.memo.insert(i, key_words);
            proof {
                reveal(memo_sound);
                assert forall|j: usize, w: Seq<u64>| #[trigger] self.memo.holds(j, w) implies j <= self.terms@.len()
                    && !jointly_routable(self.g, self.terms@, j as int, bits(w)) by {
                    if !memo_before.holds(j, w) {
                        assert(w == kw);
                    }
                }
            }
            return Step::Exhausted;
        }
        let ghost occ0 = self.occ@;
        let ghost w0 = self.occ.words@;
        let ghost paths0 = self.paths@;
        self.occ.set(s);
        self.paths[i].push(s);
        proof {
            assert forall|j: int| i < j < self.paths@.len() implies (#[trigger] self.paths@[j])@.len() == 0 by {
                assert(self.paths@[j] == paths0[j]);
            }
        }
        let ghost paths_call = self.paths@;
        proof {
            lemma_open_below_insert(occ0, self.g.n() as nat, s as int);
            assert(node_open(self.g, occ0, s as int) && node_open(self.g, occ0, t as int));
            assert(tree_solve(self.g, self.terms@, i as int, occ0) == tree_dfs(self.g, self.terms@, i as int, occ0.insert(s as int), s as int, t as int));
            assert(self.occ@ == occ0.insert(s as int));
        }
        let r = self.dfs_path(i, s, t);
        if r == Step::Found {
            proof {
                let pn = self.paths@[i as int]@;
                assert(pn.subrange(0, 1) == seq![s]);
                assert(pn.subrange(0, pn.len() as int) =~= pn);
                let q = pn;
                assert(is_walk(self.g, occ0, q, s as int, t as int)) by {
                    assert forall|x: int| 0 <= x < q.len() implies node_open(self.g, occ0, #[trigger] q[x] as int) by {
                        if x > 0 {
                            assert(node_open(self.g, occ0.insert(s as int), q[x] as int));
                        }
                    }
                }
                assert(occ0.insert(s as int).union(path_nodes(q)) =~= occ0.union(path_nodes(q))) by {
                    assert(path_nodes(q).contains(q[0] as int));
                }
                let rest = pview(self.paths@).subrange(i + 1, k as int);
                lemma_joint_cons(self.g, self.terms@, i as int, occ0, q, rest);
                assert(seq![q] + rest =~= pview(self.paths@).subrange(i as int, k as int));
            }
            return r;
        }
        let ghost paths_mid = self.paths@;
        self.paths[i].pop();
        self.occ.clear(s);
        proof {
            let idx = s as int / 64;
            let b = (s % 64) as u64;
            lemma_word_bits(w0[idx], b, b);
            assert(self.occ.words@ =~= w0);
            assert(pview(self.paths@) =~= pview(paths0)) by {
                assert forall|j: int| 0 <= j < self.paths@.len() implies self.paths@[j]@ == paths0[j]@ by {
                    assert(pview(paths_mid)[j] == pview(paths_call)[j]);
                    if j == i {
                        assert(paths_call[j]@ == paths0[j]@.push(s));
                        assert(self.paths@[j]@ =~= paths0[j]@);
                    } else {
                        assert(self.paths@[j] == paths_mid[j]);
                        assert(paths_call[j] == paths0[j]);
                    }
                }
            }
        }
        if r == Step::Exhausted {
            proof {
                lemma_from_source(self.g, self.terms@, i as int, occ0);
                reveal(memo_sound);
            }
            let ghost kw = key_words@;
            let ghost memo_before = self.memo;
            self.memo.insert(i, key_words);
            proof {
                reveal(memo_sound);
                assert forall|j: usize, w: Seq<u64>| #[trigger] self.memo.holds(j, w) implies j <= self.terms@.len()
                    && !jointly_routable(self.g, self.terms@, j as int, bits(w)) by {
                    if !memo_before.holds(j, w) {
                        assert(w == kw);
                        assert(bits(kw) == occ0);
                    }
                }
            }
        }
        r
    }

    /// Enumerate all simple extensions of net `i`'s current path from `cur`
    /// to `t`, recursing into `solve(i + 1)` at every completion.
    ///
    /// `Exhausted`: no completion of the current path lets the later nets
    /// route. `Found`: net `i`'s path was completed (its new tail starts at
    /// `cur`) and the later nets routed around it.
    #[verifier::rlimit(100)]
    pub fn dfs_path(&mut self, i: usize, cur: usize, t: usize) -> (r: Step)
        requires
            old(self).inv(),
            i < old(self).terms@.len(),
            t == old(self).terms@[i as int].1,
            cur < old(self).g.n(),
            old(self).occ@.contains(cur as int),
            old(self).paths@[i as int]@.len() >= 1,
            old(self).paths@[i as int]@[old(self).paths@[i as int]@.len() - 1] == cur,
            old(self).expansions <= old(self).budget,
            forall|j: int| i < j < old(self).paths@.len() ==> (#[trigger] old(self).paths@[j])@.len() == 0,
        ensures
            final(self).inv(),
            final(self).g == old(self).g,
            final(self).terms == old(self).terms,
            final(self).budget == old(self).budget,
            old(self).expansions <= final(self).expansions <= final(self).budget + 1,
            r == Step::Exhausted ==> final(self).expansions <= final(self).budget,
            r == Step::Tripped ==> final(self).expansions == final(self).budget + 1,
            final(self).expansions - old(self).expansions <= tree_dfs(
                old(self).g,
                old(self).terms@,
                i as int,
                old(self).occ@,
                cur as int,
                t as int,
            ),
            old(self).budget - old(self).expansions >= tree_dfs(
                old(self).g,
                old(self).terms@,
                i as int,
                old(self).occ@,
                cur as int,
                t as int,
            ) ==> r != Step::Tripped,
            forall|j: int| 0 <= j < i ==> (#[trigger] final(self).paths@[j])@ == old(self).paths@[j]@,
            r != Step::Found ==> final(self).occ.words@ == old(self).occ.words@ && pview(final(self).paths@)
                == pview(old(self).paths@),
            r == Step::Exhausted ==> !completable(
                old(self).g,
                old(self).terms@,
                i as int,
                old(self).occ@,
                cur as int,
                t as int,
            ),
            r == Step::Found ==> ({
                let p0 = old(self).paths@[i as int]@;
                let pn = final(self).paths@[i as int]@;
                let q = pn.subrange(p0.len() - 1, pn.len() as int);
                &&& pn.len() >= p0.len()
                &&& pn.subrange(0, p0.len() as int) == p0
                &&& extends(old(self).g, old(self).occ@, cur as int, t as int, q)
                &&& joint_routing(
                    old(self).g,
                    old(self).terms@,
                    i + 1,
                    old(self).occ@.union(path_nodes(q)),
                    pview(final(self).paths@).subrange(i + 1, old(self).terms@.len() as int),
                )
            }),
        decreases old(self).budget - old(self).expansions, 0int,
    {
        self.expansions = self.expansions + 1;
        if self.expansions > self.budget {
            return Step::Tripped;
        }
        let ghost occ0 = self.occ@;
        let ghost w0 = self.occ.words@;
        let ghost paths0 = self.paths@;
        let ghost e0 = self.expansions;
        let k = self.terms.len();
        proof {
            self.g.lemma_nbrs_at_most_six(cur as int);
        }
        if cur == t {
            let r = self.solve(i + 1);
            proof {
                let p0 = paths0[i as int]@;
                let pn = self.paths@[i as int]@;
                assert(pn == p0);
                let q = pn.subrange(p0.len() - 1, pn.len() as int);
                assert(q =~= seq![cur]);
                assert(pn.subrange(0, p0.len() as int) =~= p0);
                assert(occ0.union(path_nodes(q)) =~= occ0) by {
                    assert forall|v: int| path_nodes(q).contains(v) implies occ0.contains(v) by {
                        let y = choose|y: int| 0 <= y < q.len() && q[y] as int == v;
                        assert(y == 0);
                    }
                }
                if r == Step::Exhausted {
                    lemma_at_target(self.g, self.terms@, i as int, occ0, t as int);
                }
            }
            return r;
        }
        proof {
            assert(self.terms@[i as int].0 < self.g.n());
            assert(self.terms@[i as int].1 < self.g.n());
        }
        let (tx, ty, tl) = self.coords(t);
        let nbs = self.g.neighbors(cur);
        let mut keys: Vec<u64> = Vec::new();
        let mut m: usize = 0;
        while m < nbs.len()
            invariant
                self.inv(),
                m <= nbs@.len(),
                keys@.len() == m,
                0 <= tx < 0x4000_0000,
                0 <= ty < 0x4000_0000,
                0 <= tl < 0x4000_0000,
                forall|x: int| 0 <= x < nbs@.len() ==> #[trigger] nbs@[x] < self.g.n(),
            decreases nbs@.len() - m,
        {
            let d = self.dist2(nbs[m], tx, ty, tl);
            keys.push(d as u64);
            m = m + 1;
        }
        let order = sort_indices_by_key(&keys, false);
        let ghost mut done: Seq<bool> = Seq::new(nbs@.len(), |y: int| false);
        proof {
            assert forall|a: int, b: int| 0 <= a < b < order@.len() implies order@[a] != order@[b] by {
                assert(crate::order::key_before(keys@, false, order@[a] as int, order@[b] as int));
            }
            lemma_picked_none(self.g, self.terms@, i as int, occ0, cur as int, t as int, done, 0);
        }
        let mut j: usize = 0;
        while j < order.len()
            invariant
                self.inv(),
                self.g == old(self).g,
                self.terms == old(self).terms,
                self.budget == old(self).budget,
                k == self.terms@.len(),
                i < k,
                t == self.terms@[i as int].1,
                cur < self.g.n(),
                cur != t,
                occ0.contains(cur as int),
                self.occ.words@ == w0,
                self.occ@ == occ0,
                pview(self.paths@) == pview(paths0),
                self.paths@.len() == paths0.len(),
                paths0 == old(self).paths@,
                w0 == old(self).occ.words@,
                occ0 == old(self).occ@,
                paths0[i as int]@.len() >= 1,
                paths0[i as int]@[paths0[i as int]@.len() - 1] == cur,
                forall|x: int| i < x < paths0.len() ==> (#[trigger] paths0[x])@.len() == 0,
                e0 <= self.expansions <= self.budget,
                old(self).expansions < e0,
                e0 == old(self).expansions + 1,
                order@.len() <= 6,
                forall|a: int, b: int| 0 <= a < b < order@.len() ==> order@[a] != order@[b],
                done.len() == nbs@.len(),
                forall|y: int| 0 <= y < nbs@.len() ==> (#[trigger] done[y] <==> exists|p: int| 0 <= p < j && order@[p] == y),
                self.expansions <= e0 + tree_picked(self.g, self.terms@, i as int, occ0, cur as int, t as int, done, 0),
                keys@.len() == nbs@.len(),
                order@.len() == nbs@.len(),
                forall|x: int| 0 <= x < order@.len() ==> #[trigger] order@[x] < nbs@.len(),
                forall|x: int| 0 <= x < nbs@.len() ==> #[trigger] order@.contains(x as usize),
                nbs@.len() == self.g.nbrs(cur as int).len(),
                forall|x: int| 0 <= x < nbs@.len() ==> nbs@[x] as int == #[trigger] self.g.nbrs(cur as int)[x],
                forall|x: int| 0 <= x < nbs@.len() ==> #[trigger] nbs@[x] < self.g.n(),
                j <= order@.len(),
                forall|p: int|
                    0 <= p < j ==> dead_end(
                        self.g,
                        self.terms@,
                        i as int,
                        occ0,
                        cur as int,
                        t as int,
                        nbs@[#[trigger] order@[p] as int] as int,
                    ),
            decreases order@.len() - j,
        {
            let nb = nbs[order[j]];
            proof {
                assert(self.g.nbrs(cur as int).contains(nb as int)) by {
                    assert(self.g.nbrs(cur as int)[order@[j as int] as int] == nb as int);
                }
            }
            let ghost z = order@[j as int] as int;
            proof {
                assert(!done[z]) by {
                    if done[z] {
                        let p = choose|p: int| 0 <= p < j && order@[p] == z;
                    }
                }
                lemma_picked_mark(self.g, self.terms@, i as int, occ0, cur as int, t as int, done, z, 0);
                assert(nb as int == self.g.nbrs(cur as int)[z]);
            }
            if !self.g.free[nb] || self.occ.get(nb) || !self.g.edge_ok(cur, nb) {
                proof {
                    assert(tree_child(self.g, self.terms@, i as int, occ0, cur as int, t as int, z) == 0);
                    let d0 = done;
                    done = done.update(z, true);
                    assert forall|y: int| 0 <= y < nbs@.len() implies (#[trigger] done[y] <==> exists|p: int| 0 <= p < j + 1 && order@[p] == y) by {
                        if y != z && done[y] {
                            assert(d0[y]);
                            let p = choose|p: int| 0 <= p < j && order@[p] == y;
                        }
                    }
                    reveal(dead_end);
                    assert(dead_end(self.g, self.terms@, i as int, occ0, cur as int, t as int, nbs@[order@[j as int] as int] as int));
                }
                j = j + 1;
                continue;
            }
            let ghost paths1 = self.paths@;
            self.occ.set(nb);
            self.paths[i].push(nb);
            proof {
                assert forall|x: int| i < x < self.paths@.len() implies (#[trigger] self.paths@[x])@.len() == 0 by {
                    assert(self.paths@[x] == paths1[x]);
                    assert(pview(paths1)[x] == pview(paths0)[x]);
                }
                assert(self.paths@[i as int]@ == paths1[i as int]@.push(nb));
                assert(pview(paths1)[i as int] == pview(paths0)[i as int]);
            }
            let ghost occ_call = self.occ@;
            let ghost paths_call = self.paths@;
            proof {
                assert(occ_call == occ0.insert(nb as int));
                assert(paths_call[i as int]@ == paths0[i as int]@.push(nb)) by {
                    assert(pview(paths1)[i as int] == pview(paths0)[i as int]);
                    assert(paths1[i as int]@ == pview(paths1)[i as int]);
                    assert(paths0[i as int]@ == pview(paths0)[i as int]);
                }
            }
            let ghost before = self.expansions;
            proof {
                lemma_open_below_insert(occ0, self.g.n() as nat, nb as int);
                assert(!occ0.contains(nb as int));
            }
            let r = self.dfs_path(i, nb, t);
            proof {
                assert(tree_child(self.g, self.terms@, i as int, occ0, cur as int, t as int, z) == tree_dfs(
                    self.g,
                    self.terms@,
                    i as int,
                    occ0.insert(nb as int),
                    nb as int,
                    t as int,
                ));
                let d0 = done;
                done = done.update(z, true);
                assert forall|y: int| 0 <= y < nbs@.len() implies (#[trigger] done[y] <==> exists|p: int| 0 <= p < j + 1 && order@[p] == y) by {
                    if y != z && done[y] {
                        assert(d0[y]);
                        let p = choose|p: int| 0 <= p < j && order@[p] == y;
                    }
                }
                lemma_picked_le(self.g, self.terms@, i as int, occ0, cur as int, t as int, done, 0);
            }
            if r == Step::Found {
                proof {
                    let p0 = paths0[i as int]@;
                    assert(paths_call[i as int]@ == p0.push(nb));
                    lemma_found_via(self.g, occ0, cur as int, nb, t as int, p0, self.paths@[i as int]@);
                    assert forall|x: int| 0 <= x < i implies (#[trigger] self.paths@[x])@ == old(self).paths@[x]@ by {
                        assert(pview(paths1)[x] == pview(paths0)[x]);
                        assert(paths1[x]@ == pview(paths1)[x]);
                        assert(paths0[x]@ == pview(paths0)[x]);
                    }
                }
                return r;
            }
            let ghost w1_paths = self.paths@;
            self.paths[i].pop();
            self.occ.clear(nb);
            proof {
                let idx = nb as int / 64;
                let b = (nb % 64) as u64;
                lemma_word_bits(w0[idx], b, b);
                assert(self.occ.words@ =~= w0);
                assert(pview(self.paths@) =~= pview(paths0)) by {
                    assert forall|x: int| 0 <= x < self.paths@.len() implies self.paths@[x]@ == paths0[x]@ by {
                        assert(pview(paths1)[x] == pview(paths0)[x]);
                        assert(paths1[x]@ == pview(paths1)[x]);
                        assert(paths0[x]@ == pview(paths0)[x]);
                        assert(pview(w1_paths)[x] == pview(paths_call)[x]);
                        assert(w1_paths[x]@ == pview(w1_paths)[x]);
                        assert(paths_call[x]@ == pview(paths_call)[x]);
                        if x == i {
                            assert(self.paths@[x]@ =~= paths0[x]@);
                        } else {
                            assert(self.paths@[x] == w1_paths[x]);
                            assert(paths_call[x] == paths1[x]);
                        }
                    }
                }
            }
            proof {
                if r == Step::Exhausted {
                    reveal(dead_end);
                    assert(dead_end(self.g, self.terms@, i as int, occ0, cur as int, t as int, nbs@[order@[j as int] as int] as int));
                }
            }
            if r == Step::Tripped {
                proof {
                    assert forall|x: int| 0 <= x < i implies (#[trigger] self.paths@[x])@ == old(self).paths@[x]@ by {
                        assert(pview(self.paths@)[x] == pview(paths0)[x]);
                        assert(pview(paths0)[x] == pview(old(self).paths@)[x]);
                    }
                }
                return r;
            }
            j = j + 1;
        }
        proof {
            assert forall|x: int|
                0 <= x < self.g.nbrs(cur as int).len() implies !(self.g.step_ok(cur as int, #[trigger] self.g.nbrs(cur as int)[x])
                    && node_open(self.g, occ0, self.g.nbrs(cur as int)[x])) || !completable(
                self.g,
                self.terms@,
                i as int,
                occ0.insert(self.g.nbrs(cur as int)[x]),
                self.g.nbrs(cur as int)[x],
                t as int,
            ) by {
                assert(order@.contains(x as usize));
                let p = choose|p: int| 0 <= p < order@.len() && order@[p] == x as usize;
                assert(nbs@[order@[p] as int] as int == self.g.nbrs(cur as int)[x]);
                assert(dead_end(self.g, self.terms@, i as int, occ0, cur as int, t as int, nbs@[order@[p] as int] as int));
                reveal(dead_end);
            }
            lemma_via_neighbor(self.g, self.terms@, i as int, occ0, cur as int, t as int);
            lemma_picked_le(self.g, self.terms@, i as int, occ0, cur as int, t as int, done, 0);
            assert forall|x: int| 0 <= x < i implies (#[trigger] self.paths@[x])@ == old(self).paths@[x]@ by {
                assert(pview(self.paths@)[x] == pview(paths0)[x]);
                assert(pview(paths0)[x] == pview(old(self).paths@)[x]);
            }
        }
        Step::Exhausted
    }

    /// `(column, row, layer)` of `node`.
    pub fn coords(&self, node: usize) -> (c: (i64, i64, i64))
        requires
            self.inv(),
            node < self.g.n(),
        ensures
            c.0 == self.g.ix(node as int),
            c.1 == self.g.iy(node as int),
            c.2 == self.g.layer_of(node as int),
            0 <= c.0 < 0x4000_0000,
            0 <= c.1 < 0x4000_0000,
            0 <= c.2 < 0x4000_0000,
    {
        proof {
            self.g.lemma_sizes();
            self.g.lemma_coords(node as int);
        }
        let plane = self.g.nx * self.g.ny;
        let cell = node % plane;
        ((cell % self.g.nx) as i64, (cell / self.g.nx) as i64, (node / plane) as i64)
    }

    /// Squared grid distance from `node` to `(tx, ty, tl)`.
    pub fn dist2(&self, node: usize, tx: i64, ty: i64, tl: i64) -> (d: i64)
        requires
            self.inv(),
            node < self.g.n(),
            0 <= tx < 0x4000_0000,
            0 <= ty < 0x4000_0000,
            0 <= tl < 0x4000_0000,
        ensures
            d >= 0,
            d == (self.g.ix(node as int) - tx) * (self.g.ix(node as int) - tx) + (self.g.iy(node as int) - ty) * (
            self.g.iy(node as int) - ty) + (self.g.layer_of(node as int) - tl) * (self.g.layer_of(node as int) - tl),
    {
        let (x, y, l) = self.coords(node);
        let (dx, dy, dl) = (x - tx, y - ty, l - tl);
        assert(dx * dx < 0x1000_0000_0000_0000 && dy * dy < 0x1000_0000_0000_0000 && dl * dl
            < 0x1000_0000_0000_0000 && dx * dx >= 0 && dy * dy >= 0 && dl * dl >= 0) by (nonlinear_arith)
            requires
                -0x4000_0000 < dx < 0x4000_0000,
                -0x4000_0000 < dy < 0x4000_0000,
                -0x4000_0000 < dl < 0x4000_0000,
        ;
        dx * dx + dy * dy + dl * dl
    }
}

} // verus!
