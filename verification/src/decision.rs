//! The combinatorial decision for one routing window: given the window graph
//! (which nodes and steps clear all fixed copper) and each connection's
//! terminal nodes, route every connection jointly, prove that no joint
//! routing exists, or report that the budget ran out. Only a proof of
//! infeasibility is ever reported as such; running out of budget never is.
use vstd::prelude::*;
use crate::bitset::BitSet;
use crate::complete::{
    attempt_orders, bfs_path, closed_under_steps, component, count_true, greedy_prefix, identity_order, is_walk,
    lemma_closed_set_separates, lemma_reaches_symmetric, lemma_reaches_trans, lemma_shortest_walk_exists,
    lemma_shortest_walk_simple, lemma_taken_frame, never_stalls, no_repeats, node_disjoint, node_open, path_nodes,
    reaches, routed_in_order, sequential_bfs, shortest_walk, stalls_at, taken, term_span, term_spans, terms_ok,
    walk_precedes,
};
use crate::disjoint::{cut_cells, max_node_disjoint_flow, min_cut_witness, split_flow};
use crate::flow::FlowGraph;
use crate::order::{lemma_sorted_permutation_unique, sorted_permutation};
use crate::search::{joint_routing, jointly_routable, pview, tree_solve, Search, Step};
use crate::text::{chars_of, same_chars};
use crate::window::WindowGraph;

verus! {

/// What the window decision found.
pub enum WindowVerdict {
    /// A joint routing: one node path per connection, in input order.
    Routed(Vec<Vec<usize>>),
    /// Connections `first` and `second` (of different nets) share a terminal
    /// node, so no node-disjoint routing exists.
    Clash { first: usize, second: usize },
    /// The lone connection's terminals are severed; `reached` marks every
    /// node one terminal reaches, the target's side when that pocket is
    /// non-empty and smaller than the source's (`from_side`: the source's).
    Severed { reached: Vec<bool>, from_side: bool },
    /// The free-node graph admits only `flow` node-disjoint paths; `cut`
    /// lists the cells of its minimum vertex cut, and when that is empty
    /// `reached` marks every node some source reaches.
    Bottleneck { flow: usize, cut: Vec<usize>, reached: Vec<bool> },
    /// The exhaustive search proved that no joint routing exists.
    Exhausted,
    /// The budget ran out first (or two connections of one net share a
    /// terminal): nothing is known.
    BudgetExhausted,
}

/// The scan of terminal nodes: source then target of each connection.
pub open spec fn term_at(terms: Seq<(usize, usize)>, i: int) -> int {
    if i % 2 == 0 {
        terms[i / 2].0 as int
    } else {
        terms[i / 2].1 as int
    }
}

/// First scan position before `upto` holding `node`, or `upto` if none.
pub open spec fn first_pos(terms: Seq<(usize, usize)>, node: int, upto: int) -> int
    decreases upto,
{
    if upto <= 0 {
        0
    } else {
        let f = first_pos(terms, node, upto - 1);
        if f < upto - 1 {
            f
        } else if term_at(terms, upto - 1) == node {
            upto - 1
        } else {
            upto
        }
    }
}

/// The node at scan position `i` was already met at a position of another
/// connection.
pub open spec fn clash_at(terms: Seq<(usize, usize)>, i: int) -> bool {
    let j = first_pos(terms, term_at(terms, i), i);
    j < i && j / 2 != i / 2
}

/// The first scan position before `upto` where a node repeats across
/// connections, or `upto` if none.
pub open spec fn first_clash(terms: Seq<(usize, usize)>, upto: int) -> int
    decreases upto,
{
    if upto <= 0 {
        0
    } else {
        let f = first_clash(terms, upto - 1);
        if f < upto - 1 {
            f
        } else if clash_at(terms, upto - 1) {
            upto - 1
        } else {
            upto
        }
    }
}

proof fn lemma_first_pos(terms: Seq<(usize, usize)>, node: int, upto: int)
    requires
        0 <= upto,
    ensures
        0 <= first_pos(terms, node, upto) <= upto,
        first_pos(terms, node, upto) < upto ==> term_at(terms, first_pos(terms, node, upto)) == node,
        forall|j: int| 0 <= j < first_pos(terms, node, upto) ==> term_at(terms, j) != node,
    decreases upto,
{
    if upto > 0 {
        lemma_first_pos(terms, node, upto - 1);
    }
}

proof fn lemma_first_clash(terms: Seq<(usize, usize)>, upto: int)
    requires
        0 <= upto,
    ensures
        0 <= first_clash(terms, upto) <= upto,
        first_clash(terms, upto) < upto ==> clash_at(terms, first_clash(terms, upto)),
        forall|j: int| 0 <= j < first_clash(terms, upto) ==> !clash_at(terms, j),
    decreases upto,
{
    if upto > 0 {
        lemma_first_clash(terms, upto - 1);
    }
}

proof fn lemma_first_clash_stays(terms: Seq<(usize, usize)>, i: int, b: int)
    requires
        0 <= i < b,
        first_clash(terms, i + 1) == i,
    ensures
        first_clash(terms, b) == i,
    decreases b,
{
    if b > i + 1 {
        lemma_first_clash_stays(terms, i, b - 1);
    }
}

/// The terminal node at scan position `i`.
fn term_node(terms: &Vec<(usize, usize)>, i: usize) -> (r: usize)
    requires
        i < 2 * terms@.len(),
    ensures
        r as int == term_at(terms@, i as int),
{
    if i % 2 == 0 {
        terms[i / 2].0
    } else {
        terms[i / 2].1
    }
}

/// Where the terminal scan stops: `None` when no node repeats across
/// connections; otherwise the two connections that share it, the earlier
/// first.
fn terminal_clash(terms: &Vec<(usize, usize)>) -> (r: Option<(usize, usize)>)
    requires
        terms@.len() <= usize::MAX / 2,
    ensures
        match r {
            None => first_clash(terms@, 2 * terms@.len() as int) == 2 * terms@.len(),
            Some((a, b)) => {
                let i = first_clash(terms@, 2 * terms@.len() as int);
                &&& terms@.len() >= 2
                &&& i < 2 * terms@.len()
                &&& b == i / 2
                &&& a == first_pos(terms@, term_at(terms@, i), i) / 2
            },
        },
{
    let m = 2 * terms.len();
    let mut i: usize = 0;
    while i < m
        invariant
            m == 2 * terms@.len(),
            i <= m,
            first_clash(terms@, i as int) == i,
        decreases m - i,
    {
        let node = term_node(terms, i);
        let mut j: usize = 0;
        while j < i && term_node(terms, j) != node
            invariant
                m == 2 * terms@.len(),
                i < m,
                j <= i,
                node as int == term_at(terms@, i as int),
                forall|x: int| 0 <= x < j ==> term_at(terms@, x) != node,
            decreases i - j,
        {
            j = j + 1;
        }
        proof {
            lemma_first_pos(terms@, node as int, i as int);
            lemma_first_clash(terms@, i as int);
            if j < i {
                assert(term_at(terms@, j as int) == node);
            }
            assert(first_pos(terms@, node as int, i as int) == j);
        }
        if j < i && j / 2 != i / 2 {
            proof {
                assert(clash_at(terms@, i as int));
                lemma_first_clash_stays(terms@, i as int, m as int);
            }
            return Some((j / 2, i / 2));
        }
        i = i + 1;
    }
    None
}

/// How many entries of `v` are set.
fn count_live(v: &Vec<bool>) -> (r: usize)
    ensures
        r == count_true(v@),
{
    let mut c: usize = 0;
    let mut i: usize = 0;
    while i < v.len()
        invariant
            i <= v@.len(),
            c == count_true(v@.take(i as int)),
            c <= i,
        decreases v@.len() - i,
    {
        proof {
            assert(v@.take(i + 1).drop_last() =~= v@.take(i as int));
        }
        if v[i] {
            c = c + 1;
        }
        i = i + 1;
    }
    proof {
        assert(v@.take(v@.len() as int) =~= v@);
    }
    c
}

/// Node-disjoint paths cannot share a terminal: two connections whose
/// terminals meet cannot be routed jointly.
proof fn lemma_shared_terminal(g: &WindowGraph, terms: Seq<(usize, usize)>, i: int, j: int)
    requires
        0 <= j < i < 2 * terms.len(),
        j / 2 != i / 2,
        term_at(terms, j) == term_at(terms, i),
    ensures
        !jointly_routable(g, terms, 0, Set::empty()),
{
    if jointly_routable(g, terms, 0, Set::empty()) {
        let ps = choose|ps: Seq<Seq<usize>>| joint_routing(g, terms, 0, Set::empty(), ps);
        let a = j / 2;
        let b = i / 2;
        let z = term_at(terms, i);
        assert(is_walk(g, Set::empty(), ps[a], terms[a].0 as int, terms[a].1 as int));
        assert(is_walk(g, Set::empty(), ps[b], terms[b].0 as int, terms[b].1 as int));
        let ia = if j % 2 == 0 { 0 } else { ps[a].len() - 1 };
        let ib = if i % 2 == 0 { 0 } else { ps[b].len() - 1 };
        assert(ps[a][ia] as int == z);
        assert(ps[b][ib] as int == z);
        if a < b {
            assert(node_disjoint(ps[a], ps[b]));
        } else {
            assert(node_disjoint(ps[b], ps[a]));
        }
    }
}

/// A routing of every connection, in an order that lists each once, is a
/// joint routing.
proof fn lemma_order_routes_all(g: &WindowGraph, terms: Seq<(usize, usize)>, order: Seq<usize>, paths: Seq<Seq<usize>>)
    requires
        paths.len() == terms.len(),
        terms.len() <= usize::MAX,
        routed_in_order(g, terms, order, paths),
        forall|x: int| 0 <= x < terms.len() ==> #[trigger] order.contains(x as usize),
    ensures
        joint_routing(g, terms, 0, Set::empty(), paths),
{
    assert forall|m: int| 0 <= m < paths.len() implies is_walk(
        g,
        Set::empty(),
        #[trigger] paths[m],
        terms[0 + m].0 as int,
        terms[0 + m].1 as int,
    ) && crate::complete::no_repeats(paths[m]) by {
        assert(order.contains(m as usize));
        let j = choose|j: int| 0 <= j < order.len() && order[j] == m as usize;
        assert(order[j] as int == m);
    }
    assert forall|a: int, b: int| 0 <= a < b < paths.len() implies node_disjoint(#[trigger] paths[a], #[trigger] paths[b]) by {
        assert(order.contains(a as usize));
        assert(order.contains(b as usize));
        let ja = choose|j: int| 0 <= j < order.len() && order[j] == a as usize;
        let jb = choose|j: int| 0 <= j < order.len() && order[j] == b as usize;
        if ja < jb {
            assert(order[ja] as int == a && order[jb] as int == b);
            assert(node_disjoint(paths[order[ja] as int], paths[order[jb] as int]));
        } else {
            assert(order[ja] as int == a && order[jb] as int == b);
            assert(node_disjoint(paths[order[jb] as int], paths[order[ja] as int]));
        }
    }
}

/// Every order tried lists every connection exactly once.
proof fn lemma_orders_complete(orders: Seq<Seq<usize>>, k: nat, l: Seq<usize>, sh: Seq<usize>, keys: Seq<u64>)
    requires
        keys.len() == k,
        k <= usize::MAX,
        sorted_permutation(keys, true, l),
        sorted_permutation(keys, false, sh),
        orders == crate::complete::append_new(crate::complete::append_new(seq![identity_order(k)], l), sh),
    ensures
        forall|i: int, x: int| 0 <= i < orders.len() && 0 <= x < k ==> #[trigger] orders[i].contains(x as usize),
        forall|i: int, j: int| 0 <= i < orders.len() && 0 <= j < orders[i].len() ==> #[trigger] orders[i][j] < k,
        forall|i: int| 0 <= i < orders.len() ==> #[trigger] orders[i].len() == k,
{
    let id = identity_order(k);
    let b1 = crate::complete::append_new(seq![id], l);
    assert forall|i: int| 0 <= i < orders.len() implies #[trigger] orders[i] == id || orders[i] == l || orders[i] == sh by {
        if i < b1.len() {
            assert(orders[i] == b1[i]);
            if i >= 1 {
                assert(b1[i] == l);
            }
        }
    }
    assert forall|x: int| 0 <= x < k implies #[trigger] id.contains(x as usize) by {
        assert(id[x] == x as usize);
    }
    assert forall|i: int, x: int| 0 <= i < orders.len() && 0 <= x < k implies #[trigger] orders[i].contains(x as usize) by {
        assert(orders[i] == id || orders[i] == l || orders[i] == sh);
        if orders[i] == id {
            assert(id.contains(x as usize));
        }
    }
    assert forall|i: int, j: int| 0 <= i < orders.len() && 0 <= j < orders[i].len() implies #[trigger] orders[i][j] < k by {
        assert(orders[i] == id || orders[i] == l || orders[i] == sh);
    }
    assert forall|i: int| 0 <= i < orders.len() implies #[trigger] orders[i].len() == k by {
        assert(orders[i] == id || orders[i] == l || orders[i] == sh);
    }
}

/// `o` is one of the connection orders the window decision tries greedily:
/// as given, longest terminal span first, or shortest first.
pub open spec fn attempt_order(terms: Seq<(usize, usize)>, nx: int, plane: int, o: Seq<usize>) -> bool {
    ||| o == identity_order(terms.len())
    ||| sorted_permutation(term_spans(terms, nx, plane), true, o)
    ||| sorted_permutation(term_spans(terms, nx, plane), false, o)
}

/// If the greedy routing along `order` never stalls, it routes the first `m`
/// connections of `order` by shortest walks, no connection twice.
proof fn lemma_greedy_builds(g: &WindowGraph, terms: Seq<(usize, usize)>, order: Seq<usize>, m: int)
    requires
        g.wf(),
        terms_ok(g, terms),
        forall|j: int| 0 <= j < order.len() ==> #[trigger] order[j] < terms.len(),
        never_stalls(g, terms, order),
        0 <= m <= order.len(),
    ensures
        forall|a: int, b: int| 0 <= a < b < m ==> #[trigger] order[a] != #[trigger] order[b],
        exists|ps: Seq<Seq<usize>>| ps.len() == terms.len() && #[trigger] greedy_prefix(g, terms, order, ps, m),
    decreases m,
{
    if m == 0 {
        let ps = Seq::new(terms.len(), |i: int| Seq::<usize>::empty());
        assert(greedy_prefix(g, terms, order, ps, 0));
    } else {
        let j = m - 1;
        lemma_greedy_builds(g, terms, order, j);
        let ps = choose|ps: Seq<Seq<usize>>| ps.len() == terms.len() && #[trigger] greedy_prefix(g, terms, order, ps, j);
        let c = order[j] as int;
        let s = terms[c].0 as int;
        let t = terms[c].1 as int;
        let occ = taken(order, ps, j);
        assert(!stalls_at(g, terms, order, ps, j));
        assert(reaches(g, occ, s, t));
        let p = choose|p: Seq<usize>| #[trigger] is_walk(g, occ, p, s, t);
        lemma_shortest_walk_exists(g, occ, p, s, t);
        let q = choose|q: Seq<usize>| #[trigger] shortest_walk(g, occ, q, s, t);
        lemma_shortest_walk_simple(g, occ, q, s, t);
        assert(node_open(g, occ, q[q.len() - 1] as int));
        assert forall|x: int| 0 <= x < j implies order[x] != c as usize by {
            if order[x] == c as usize {
                let px = ps[c];
                assert(greedy_prefix(g, terms, order, ps, j));
                assert(is_walk(g, taken(order, ps, x), px, s, t));
                assert(px[px.len() - 1] as int == t);
                assert(path_nodes(ps[order[x] as int]).contains(t));
                assert(occ.contains(t));
            }
        }
        let ps2 = ps.update(c, q);
        assert forall|x: int| 0 <= x < m implies {
            let cx = #[trigger] order[x] as int;
            let oc = taken(order, ps2, x);
            &&& is_walk(g, oc, ps2[cx], terms[cx].0 as int, terms[cx].1 as int)
            &&& no_repeats(ps2[cx])
            &&& forall|r: Seq<usize>| #[trigger] is_walk(g, oc, r, terms[cx].0 as int, terms[cx].1 as int) ==> ps2[cx].len() <= r.len()
        } by {
            assert forall|y: int| 0 <= y < x implies ps2[#[trigger] order[y] as int] == ps[order[y] as int] by {
                assert(order[y] != c as usize);
            }
            lemma_taken_frame(order, ps2, ps, x);
            if x < j {
                assert(order[x] != c as usize);
                assert(ps2[order[x] as int] == ps[order[x] as int]);
            } else {
                assert(ps2[c] == q);
            }
        }
        assert(greedy_prefix(g, terms, order, ps2, m));
        assert(ps2.len() == terms.len());
    }
}

/// An attempt order along which the greedy routing never stalls routes
/// every connection.
proof fn lemma_attempt_order_routes(g: &WindowGraph, terms: Seq<(usize, usize)>, o: Seq<usize>)
    requires
        g.wf(),
        terms_ok(g, terms),
        terms.len() <= usize::MAX,
        attempt_order(terms, g.nx as int, g.plane(), o),
        never_stalls(g, terms, o),
    ensures
        jointly_routable(g, terms, 0, Set::empty()),
{
    if o == identity_order(terms.len()) {
        assert forall|x: int| 0 <= x < terms.len() implies #[trigger] o.contains(x as usize) by {
            assert(o[x] == x as usize);
        }
    }
    lemma_never_stalls_routes(g, terms, o);
}

/// An order along which the greedy routing never stalls routes every
/// connection: the connections can be routed jointly.
pub proof fn lemma_never_stalls_routes(g: &WindowGraph, terms: Seq<(usize, usize)>, order: Seq<usize>)
    requires
        g.wf(),
        terms_ok(g, terms),
        terms.len() <= usize::MAX,
        forall|j: int| 0 <= j < order.len() ==> #[trigger] order[j] < terms.len(),
        forall|x: int| 0 <= x < terms.len() ==> #[trigger] order.contains(x as usize),
        never_stalls(g, terms, order),
    ensures
        jointly_routable(g, terms, 0, Set::empty()),
{
    let m = order.len() as int;
    lemma_greedy_builds(g, terms, order, m);
    let ps = choose|ps: Seq<Seq<usize>>| ps.len() == terms.len() && #[trigger] greedy_prefix(g, terms, order, ps, m);
    assert forall|j: int| 0 <= j < order.len() implies {
        let c = #[trigger] order[j] as int;
        &&& is_walk(g, Set::empty(), ps[c], terms[c].0 as int, terms[c].1 as int)
        &&& no_repeats(ps[c])
    } by {
        let c = order[j] as int;
        let oc = taken(order, ps, j);
        assert(is_walk(g, oc, ps[c], terms[c].0 as int, terms[c].1 as int));
        assert forall|i: int| 0 <= i < ps[c].len() implies node_open(g, Set::empty(), #[trigger] ps[c][i] as int) by {
            assert(node_open(g, oc, ps[c][i] as int));
        }
    }
    assert forall|a: int, b: int| 0 <= a < b < order.len() implies #[trigger] order[a] != #[trigger] order[b]
        && node_disjoint(ps[order[a] as int], ps[order[b] as int]) by {
        let pa = ps[order[a] as int];
        let pb = ps[order[b] as int];
        let oc = taken(order, ps, b);
        assert(is_walk(g, oc, pb, terms[order[b] as int].0 as int, terms[order[b] as int].1 as int));
        assert forall|x: int, y: int| 0 <= x < pa.len() && 0 <= y < pb.len() implies pa[x] != pb[y] by {
            assert(path_nodes(ps[order[a] as int]).contains(pa[x] as int));
            assert(oc.contains(pa[x] as int));
            assert(node_open(g, oc, pb[y] as int));
        }
    }
    assert(routed_in_order(g, terms, order, ps));
    lemma_order_routes_all(g, terms, order, ps);
}

/// A bottleneck certificate: the max-flow bound admits only `flow` of the
/// connections' node-disjoint paths, `cut` is the cell set of a minimum
/// vertex cut, and when that cut is empty `reached` marks every node some
/// source reaches (otherwise it is empty).
pub open spec fn bottleneck_certified(
    g: &WindowGraph,
    terms: Seq<(usize, usize)>,
    flow: usize,
    cut: Seq<usize>,
    reached: Seq<bool>,
) -> bool {
    &&& terms.len() >= 2
    &&& flow < terms.len()
    &&& exists|fg: FlowGraph, reach: Seq<bool>|
        #[trigger] min_cut_witness(g, terms, &fg, reach, flow as int) && cut.map_values(|v: usize| v as int)
            == cut_cells(g, reach)
    &&& cut.len() > 0 ==> reached.len() == 0
    &&& cut.len() == 0 ==> reached.len() == g.n() && forall|v: int|
        0 <= v < g.n() ==> (reached[v] <==> exists|c: int|
            0 <= c < terms.len() && #[trigger] reaches(g, Set::empty(), terms[c].0 as int, v))
}

/// Every node some connection's source reaches: one breadth-first search
/// per source not already covered, merged.
fn sources_reach(g: &WindowGraph, terms: &Vec<(usize, usize)>) -> (reached: Vec<bool>)
    requires
        g.wf(),
        terms_ok(g, terms@),
    ensures
        reached@.len() == g.n(),
        forall|v: int|
            0 <= v < g.n() ==> (reached@[v] <==> exists|c: int|
                0 <= c < terms@.len() && #[trigger] reaches(g, Set::empty(), terms@[c].0 as int, v)),
{
    let n = g.free.len();
    let k = terms.len();
    let mut reached: Vec<bool> = Vec::new();
    let mut i: usize = 0;
    while i < n
        invariant
            i <= n,
            reached@.len() == i,
            forall|x: int| 0 <= x < i ==> !#[trigger] reached@[x],
        decreases n - i,
    {
        reached.push(false);
        i = i + 1;
    }
    let empty = BitSet::new(n);
    let mut c: usize = 0;
    while c < k
        invariant
            g.wf(),
            n == g.n(),
            k == terms@.len(),
            terms_ok(g, terms@),
            empty.capacity() >= n,
            empty@ == Set::<int>::empty(),
            reached@.len() == n,
            c <= k,
            forall|v: int| 0 <= v < n ==> (reached@[v] <==> exists|d: int|
                0 <= d < c && #[trigger] reaches(g, Set::empty(), terms@[d].0 as int, v)),
        decreases k - c,
    {
        let s = terms[c].0;
        proof {
            assert(terms@[c as int].0 < g.n());
        }
        let ghost before = reached@;
        if g.free[s] && !reached[s] {
            match bfs_path(g, s, usize::MAX, &empty) {
                Err(seen) => {
                    let mut v: usize = 0;
                    while v < n
                        invariant
                            n == g.n(),
                            reached@.len() == n,
                            seen@.len() == n,
                            before.len() == n,
                            v <= n,
                            forall|x: int| 0 <= x < n ==> (#[trigger] reached@[x] <==> (before[x] || (x < v && seen@[x]))),
                        decreases n - v,
                    {
                        let ghost r0 = reached@;
                        if seen[v] {
                            reached.set(v, true);
                        }
                        proof {
                            assert forall|x: int| 0 <= x < n implies (reached@[x] <==> (before[x] || (x < v + 1
                                && seen@[x]))) by {
                                if x != v as int {
                                    assert(reached@[x] == r0[x]);
                                    assert(r0[x] <==> (before[x] || (x < v && seen@[x])));
                                } else {
                                    assert(r0[x] == before[x]);
                                    assert(reached@[x] == (r0[x] || seen@[x]));
                                }
                            }
                        }
                        v = v + 1;
                    }
                },
                Ok(p) => {
                    proof {
                        assert(node_open(g, empty@, p@[p@.len() - 1] as int));
                    }
                },
            }
        }
        proof {
            assert forall|v: int| 0 <= v < n implies (reached@[v] <==> exists|d: int|
                0 <= d < c + 1 && #[trigger] reaches(g, Set::empty(), terms@[d].0 as int, v)) by {
                if reached@[v] && !before[v] {
                    assert(reaches(g, Set::empty(), terms@[c as int].0 as int, v));
                }
                if before[v] {
                    let d = choose|d: int| 0 <= d < c && #[trigger] reaches(g, Set::empty(), terms@[d].0 as int, v);
                    assert(reaches(g, Set::empty(), terms@[d].0 as int, v));
                }
                if reaches(g, Set::empty(), terms@[c as int].0 as int, v) && !before[v] {
                    if !g.free@[s as int] {
                        let p = choose|p: Seq<usize>| #[trigger] is_walk(g, Set::empty(), p, s as int, v);
                        assert(node_open(g, Set::empty(), p[0] as int));
                    } else if before[s as int] {
                        let d = choose|d: int| 0 <= d < c && #[trigger] reaches(g, Set::empty(), terms@[d].0 as int, s as int);
                        lemma_reaches_trans(g, Set::empty(), terms@[d].0 as int, s as int, v);
                        assert(reaches(g, Set::empty(), terms@[d].0 as int, v));
                    }
                }
            }
        }
        c = c + 1;
    }
    reached
}

/// Decide one routing window: route the connections `terms` (terminal
/// nodes; `nets[c]` names connection `c`'s net) jointly on `g`, or prove
/// that they cannot be, within `budget` search expansions.
///
/// A lone connection is settled by breadth-first search; several are first
/// held against the node-disjoint max-flow bound, then tried greedily in a
/// few orders, and finally searched exhaustively. `BudgetExhausted` comes
/// only from two connections of one net sharing a terminal, or from a
/// search whose plain enumeration (`tree_solve` from nothing occupied)
/// needs more than `budget` expansions; within that budget the verdict is
/// `Routed` exactly when the window can be routed jointly.
pub fn decide_window(g: &WindowGraph, terms: &Vec<(usize, usize)>, nets: &Vec<String>, budget: usize) -> (r:
    WindowVerdict)
    requires
        g.wf(),
        g.nx <= 0x4000_0000,
        g.ny <= 0x4000_0000,
        g.nl <= 0x4000_0000,
        terms_ok(g, terms@),
        nets@.len() == terms@.len(),
        16 * g.n() + 4 * terms@.len() + 8 <= usize::MAX,
        budget < usize::MAX,
    ensures
        match r {
            WindowVerdict::Routed(paths) => joint_routing(g, terms@, 0, Set::empty(), pview(paths@)),
            WindowVerdict::Clash { first, second } => {
                let i = first_clash(terms@, 2 * terms@.len() as int);
                &&& terms@.len() >= 2
                &&& i < 2 * terms@.len()
                &&& second == i / 2
                &&& first == first_pos(terms@, term_at(terms@, i), i) / 2
                &&& nets@[first as int]@ != nets@[second as int]@
            },
            WindowVerdict::Severed { reached, from_side } => {
                let s = terms@[0].0 as int;
                let t = terms@[0].1 as int;
                let from_s = component(g, Set::empty(), s);
                let from_t = component(g, Set::empty(), t);
                &&& terms@.len() == 1
                &&& !reaches(g, Set::empty(), s, t)
                &&& reached@ == if from_side { from_s } else { from_t }
                &&& !from_side <==> (0 < count_true(from_t) && count_true(from_t) < count_true(from_s))
            },
            WindowVerdict::Bottleneck { flow, cut, reached } => bottleneck_certified(g, terms@, flow, cut@, reached@),
            WindowVerdict::Exhausted => terms@.len() >= 2,
            WindowVerdict::BudgetExhausted => terms@.len() >= 2,
        },
        terms@.len() == 0 ==> (r matches WindowVerdict::Routed(p) && p@.len() == 0),
        terms@.len() == 1 ==> (r is Routed || r is Severed),
        terms@.len() == 1 ==> (r matches WindowVerdict::Routed(p) ==> forall|q: Seq<usize>|
            #[trigger] is_walk(g, Set::empty(), q, terms@[0].0 as int, terms@[0].1 as int) ==> p@[0]@.len() <= q.len()
                && (q.len() == p@[0]@.len() ==> !walk_precedes(g, q, p@[0]@))),
        first_clash(terms@, 2 * terms@.len() as int) < 2 * terms@.len() ==> (r is Clash || r is BudgetExhausted),
        forall|o: Seq<usize>|
            #[trigger] attempt_order(terms@, g.nx as int, g.plane(), o) && never_stalls(g, terms@, o) ==> r is Routed,
        r is BudgetExhausted ==> first_clash(terms@, 2 * terms@.len() as int) < 2 * terms@.len() || (terms@.len()
            >= 2 && budget < tree_solve(g, terms@, 0, Set::empty())),
        terms@.len() >= 2 && first_clash(terms@, 2 * terms@.len() as int) == 2 * terms@.len() && (forall|fg: FlowGraph|
            !#[trigger] split_flow(g, terms@, &fg, terms@.len() as int)) ==> r is Bottleneck,
        (r is Clash || r is Severed || r is Bottleneck || r is Exhausted) ==> !jointly_routable(
            g,
            terms@,
            0,
            Set::empty(),
        ),
        first_clash(terms@, 2 * terms@.len() as int) == 2 * terms@.len() && budget >= tree_solve(
            g,
            terms@,
            0,
            Set::empty(),
        ) ==> !(r is BudgetExhausted) && (r is Routed <==> jointly_routable(g, terms@, 0, Set::empty())),
{
    proof {
        assert forall|o: Seq<usize>|
            #[trigger] attempt_order(terms@, g.nx as int, g.plane(), o) && never_stalls(g, terms@, o) implies jointly_routable(
            g,
            terms@,
            0,
            Set::empty(),
        ) by {
            lemma_attempt_order_routes(g, terms@, o);
        }
    }
    let k = terms.len();
    let n = g.free.len();
    if k == 0 {
        let paths: Vec<Vec<usize>> = Vec::new();
        proof {
            assert(pview(paths@) =~= Seq::<Seq<usize>>::empty());
            assert(joint_routing(g, terms@, 0, Set::empty(), pview(paths@)));
        }
        return WindowVerdict::Routed(paths);
    }
    let clash = terminal_clash(terms);
    match clash {
        Some((a, b)) => {
            let na = chars_of(nets[a].as_str());
            let nb = chars_of(nets[b].as_str());
            proof {
                let i = first_clash(terms@, 2 * k as int);
                lemma_first_clash(terms@, 2 * k as int);
                lemma_first_pos(terms@, term_at(terms@, i), i);
                lemma_shared_terminal(g, terms@, i, first_pos(terms@, term_at(terms@, i), i));
            }
            if !same_chars(&na, &nb) {
                return WindowVerdict::Clash { first: a, second: b };
            }
            return WindowVerdict::BudgetExhausted;
        },
        None => {},
    }
    proof {
        g.lemma_sizes();
        assert(first_clash(terms@, 2 * k as int) == 2 * k);
    }
    if k == 1 {
        let (s, t) = terms[0];
        proof {
            assert(terms@[0].0 < g.n() && terms@[0].1 < g.n());
        }
        let empty = BitSet::new(n);
        match bfs_path(g, s, t, &empty) {
            Ok(path) => {
                let mut paths: Vec<Vec<usize>> = Vec::new();
                paths.push(path);
                proof {
                    assert(pview(paths@) =~= seq![paths@[0]@]);
                    assert(joint_routing(g, terms@, 0, Set::empty(), pview(paths@)));
                    assert(empty@ == Set::<int>::empty());
                    assert(paths@[0]@ == path@);
                    assert forall|q: Seq<usize>|
                        #[trigger] is_walk(g, Set::empty(), q, terms@[0].0 as int, terms@[0].1 as int)
                        implies paths@[0]@.len() <= q.len() by {
                        assert(is_walk(g, empty@, q, s as int, t as int));
                    }
                }
                return WindowVerdict::Routed(paths);
            },
            Err(reached_from) => {
                proof {
                    assert(empty@ == Set::<int>::empty());
                    if jointly_routable(g, terms@, 0, Set::empty()) {
                        let ps = choose|ps: Seq<Seq<usize>>| joint_routing(g, terms@, 0, Set::empty(), ps);
                        assert(is_walk(g, Set::empty(), ps[0], s as int, t as int));
                        if node_open(g, Set::empty(), s as int) {
                            lemma_closed_set_separates(g, Set::empty(), reached_from@, ps[0], s as int, t as int);
                        } else {
                            assert(ps[0][0] as int == s);
                        }
                    }
                    assert(reached_from@ =~= component(g, Set::empty(), s as int));
                    assert(!reached_from@[t as int]);
                }
                let reached_to = match bfs_path(g, t, usize::MAX, &empty) {
                    Err(x) => x,
                    Ok(p) => {
                        proof {
                            assert(node_open(g, empty@, p@[p@.len() - 1] as int));
                        }
                        let mut v: Vec<bool> = Vec::new();
                        let mut i: usize = 0;
                        while i < n
                            invariant
                                i <= n,
                                v@.len() == i,
                            decreases n - i,
                        {
                            v.push(false);
                            i = i + 1;
                        }
                        v
                    },
                };
                proof {
                    assert(reached_to@ =~= component(g, Set::empty(), t as int));
                    if reaches(g, Set::empty(), t as int, s as int) {
                        lemma_reaches_symmetric(g, Set::empty(), t as int, s as int);
                    }
                }
                let live_to = count_live(&reached_to);
                let live_from = count_live(&reached_from);
                if live_to > 0 && live_to < live_from {
                    return WindowVerdict::Severed { reached: reached_to, from_side: false };
                }
                return WindowVerdict::Severed { reached: reached_from, from_side: true };
            },
        }
    }
    let (flow, cut) = max_node_disjoint_flow(g, terms);
    if flow < k {
        let reached: Vec<bool> = if cut.len() == 0 {
            sources_reach(g, terms)
        } else {
            Vec::new()
        };
        proof {
            assert(!jointly_routable(g, terms@, 0, Set::empty()));
            assert(bottleneck_certified(g, terms@, flow, cut@, reached@));
        }
        return WindowVerdict::Bottleneck { flow, cut, reached };
    }
    proof {
        assert forall|i: int| 0 <= i < terms@.len() implies term_span(
            g.nx as int,
            g.plane(),
            #[trigger] terms@[i].0 as int,
            terms@[i].1 as int,
        ) <= u64::MAX by {
            g.lemma_coords(terms@[i].0 as int);
            g.lemma_coords(terms@[i].1 as int);
        }
    }
    let plane = g.nx * g.ny;
    let orders = attempt_orders(terms, g.nx, plane);
    proof {
        let (l, sh) = choose|l: Seq<usize>, sh: Seq<usize>| {
            &&& sorted_permutation(term_spans(terms@, g.nx as int, plane as int), true, l)
            &&& sorted_permutation(term_spans(terms@, g.nx as int, plane as int), false, sh)
            &&& orders@.map_values(|v: Vec<usize>| v@) == crate::complete::append_new(
                crate::complete::append_new(seq![identity_order(terms@.len())], l),
                sh,
            )
        };
        lemma_orders_complete(
            orders@.map_values(|v: Vec<usize>| v@),
            k as nat,
            l,
            sh,
            term_spans(terms@, g.nx as int, plane as int),
        );
    }
    let ghost ov = orders@.map_values(|v: Vec<usize>| v@);
    let mut oi: usize = 0;
    while oi < orders.len()
        invariant
            g.wf(),
            k == terms@.len(),
            2 <= k <= usize::MAX,
            terms_ok(g, terms@),
            oi <= orders@.len(),
            ov == orders@.map_values(|v: Vec<usize>| v@),
            first_clash(terms@, 2 * k as int) == 2 * k,
            forall|i: int, x: int| 0 <= i < ov.len() && 0 <= x < k ==> #[trigger] ov[i].contains(x as usize),
            forall|i: int, j: int| 0 <= i < ov.len() && 0 <= j < ov[i].len() ==> #[trigger] ov[i][j] < k,
            forall|i: int| 0 <= i < oi ==> !never_stalls(g, terms@, #[trigger] ov[i]),
            exists|fg: FlowGraph| #[trigger] split_flow(g, terms@, &fg, k as int),
        decreases orders@.len() - oi,
    {
        let order = &orders[oi];
        proof {
            assert(ov[oi as int] == order@);
            assert forall|j: int| 0 <= j < order@.len() implies #[trigger] order@[j] < terms@.len() by {
                assert(ov[oi as int][j] < k);
            }
        }
        match sequential_bfs(g, order, terms) {
            Some(paths) => {
                proof {
                    assert forall|x: int| 0 <= x < terms@.len() implies #[trigger] order@.contains(x as usize) by {
                        assert(ov[oi as int].contains(x as usize));
                    }
                    assert(pview(paths@) == paths@.map_values(|p: Vec<usize>| p@));
                    lemma_order_routes_all(g, terms@, order@, pview(paths@));
                }
                return WindowVerdict::Routed(paths);
            },
            None => {
                proof {
                    let (ps, j) = choose|ps: Seq<Seq<usize>>, j: int| #[trigger] stalls_at(g, terms@, order@, ps, j);
                    assert(!never_stalls(g, terms@, ov[oi as int]));
                }
            },
        }
        oi = oi + 1;
    }
    proof {
        let spans = term_spans(terms@, g.nx as int, plane as int);
        let (l, sh) = choose|l: Seq<usize>, sh: Seq<usize>| {
            &&& sorted_permutation(spans, true, l)
            &&& sorted_permutation(spans, false, sh)
            &&& ov == crate::complete::append_new(crate::complete::append_new(seq![identity_order(terms@.len())], l), sh)
        };
        let b0 = seq![identity_order(terms@.len())];
        let b1 = crate::complete::append_new(b0, l);
        assert(b0.contains(identity_order(terms@.len()))) by {
            assert(b0[0] == identity_order(terms@.len()));
        }
        assert forall|o: Seq<usize>| #[trigger] attempt_order(terms@, g.nx as int, g.plane(), o) implies ov.contains(o) by {
            assert(plane as int == g.plane());
            if o == identity_order(terms@.len()) {
                assert(b1.contains(o)) by {
                    if !b0.contains(l) {
                        assert(b1[0] == b0[0]);
                    }
                }
            } else if sorted_permutation(spans, true, o) {
                lemma_sorted_permutation_unique(spans, true, o, l);
                assert(b1.contains(o)) by {
                    if !b0.contains(l) {
                        assert(b1[b1.len() - 1] == l);
                    }
                }
            } else {
                lemma_sorted_permutation_unique(spans, false, o, sh);
                if !b1.contains(sh) {
                    assert(ov[ov.len() - 1] == sh);
                }
            }
            if !b1.contains(sh) {
                assert(ov == b1.push(sh));
                if b1.contains(o) {
                    let i = choose|i: int| 0 <= i < b1.len() && b1[i] == o;
                    assert(ov[i] == o);
                }
            }
        }
        assert forall|o: Seq<usize>| #[trigger] attempt_order(terms@, g.nx as int, g.plane(), o) implies !never_stalls(
            g,
            terms@,
            o,
        ) by {
            assert(ov.contains(o));
            let i = choose|i: int| 0 <= i < ov.len() && ov[i] == o;
            assert(!never_stalls(g, terms@, ov[i]));
        }
    }
    let mut search = Search::new(g, terms, budget);
    match search.solve(0) {
        Step::Found => {
            let paths = search.paths;
            proof {
                assert(pview(paths@).subrange(0, k as int) =~= pview(paths@));
            }
            WindowVerdict::Routed(paths)
        },
        Step::Exhausted => WindowVerdict::Exhausted,
        Step::Tripped => WindowVerdict::BudgetExhausted,
    }
}

} // verus!
