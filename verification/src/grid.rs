//! Lee wavefront routing on a single-layer cell grid: each cell is empty,
//! occupied by a net, or blocked; a route of a net may cross empty cells and
//! its own net's cells, and may always enter its target cell. Cells are
//! numbered `y * width + x`.
use vstd::prelude::*;
use crate::bitset::BitSet;
use crate::complete::{bfs_path, first_before, is_walk, lemma_closed_set_separates, no_repeats, node_open, path_nodes, walk_precedes};
use crate::window::{grid_nbrs, WindowGraph};
use vstd::arithmetic::div_mod::{lemma_add_mod_noop_right, lemma_mod_sub_multiples_vanish, lemma_small_mod};
use vstd::string::StringSliceAdditionalSpecFns;

verus! {

/// Cell state in the routing grid.
#[derive(Debug, Clone, Copy, PartialEq, Eq, Structural)]
pub enum CellState {
    /// Empty cell, available for routing.
    Empty,
    /// Occupied by a net (cannot be crossed by other nets).
    Occupied(u32),
    /// Permanently blocked (board edge, keepout, etc.).
    Blocked,
}

/// A single-layer routing grid.
pub struct LeeGrid {
    /// Cell states, `y * width + x`.
    pub cells: Vec<CellState>,
    /// Cells per row.
    pub width: usize,
    /// Rows.
    pub height: usize,
}

impl LeeGrid {
    /// Cell count.
    pub open spec fn n(&self) -> int {
        self.width as int * self.height as int
    }

    /// Non-empty dimensions, one state per cell.
    pub open spec fn wf(&self) -> bool {
        &&& self.width >= 1
        &&& self.height >= 1
        &&& self.n() <= usize::MAX
        &&& self.cells@.len() == self.n()
    }

    /// A route of `net` may cross cell `v`.
    pub open spec fn passable(&self, net: u32, v: int) -> bool {
        match self.cells@[v] {
            CellState::Empty => true,
            CellState::Occupied(id) => id == net,
            CellState::Blocked => false,
        }
    }

    /// `p` is a route of `net` from cell `s` to cell `e`: grid-adjacent
    /// cells, each passable for `net` except possibly its two ends.
    pub open spec fn lee_walk(&self, net: u32, p: Seq<usize>, s: int, e: int) -> bool {
        &&& p.len() >= 1
        &&& p[0] == s
        &&& p[p.len() - 1] == e
        &&& forall|i: int|
            0 <= i < p.len() ==> 0 <= #[trigger] p[i] < self.n() && (self.passable(net, p[i] as int) || p[i] == s
                || p[i] == e)
        &&& forall|i: int|
            0 <= i < p.len() - 1 ==> grid_nbrs(self.width as int, self.height as int, 1, #[trigger] p[i] as int).contains(
                p[i + 1] as int,
            )
    }

    /// Cell `a` is listed among `v`'s neighbours (left, right, down, up)
    /// before any listing of cell `b`.
    pub open spec fn listed_before(&self, v: int, a: int, b: int) -> bool {
        let nb = grid_nbrs(self.width as int, self.height as int, 1, v);
        exists|x: int| 0 <= x < nb.len() && #[trigger] nb[x] == a && forall|z: int| 0 <= z <= x ==> #[trigger] nb[z] != b
    }

    /// Route `q` follows route `p` for a while and then turns off it to a
    /// cell listed before the one `p` moves on to.
    pub open spec fn turns_before(&self, q: Seq<usize>, p: Seq<usize>) -> bool {
        exists|j: int|
            0 <= j && j + 1 < p.len() && j + 1 < q.len() && (forall|m: int| 0 <= m <= j ==> #[trigger] q[m] == p[m])
                && #[trigger] self.listed_before(p[j] as int, q[j + 1] as int, p[j + 1] as int)
    }

    /// An empty `width × height` grid.
    pub fn new(width: usize, height: usize) -> (g: Self)
        requires
            width as int * height as int <= usize::MAX,
        ensures
            g.width == width,
            g.height == height,
            g.cells@.len() == g.n(),
            forall|v: int| 0 <= v < g.n() ==> #[trigger] g.cells@[v] == CellState::Empty,
    {
        let n = width * height;
        let mut cells: Vec<CellState> = Vec::new();
        let mut i: usize = 0;
        while i < n
            invariant
                i <= n,
                cells@.len() == i,
                forall|v: int| 0 <= v < i ==> #[trigger] cells@[v] == CellState::Empty,
            decreases n - i,
        {
            cells.push(CellState::Empty);
            i = i + 1;
        }
        LeeGrid { cells, width, height }
    }


    /// The routing window a route of `net` from `s` to `e` sees: one layer,
    /// every step legal, a node free when passable or an end.
    proof fn lemma_window_walks(&self, net: u32, g: &WindowGraph, s: int, e: int, p: Seq<usize>)
        requires
            self.wf(),
            g.nx == self.width,
            g.ny == self.height,
            g.nl == 1,
            g.wf(),
            forall|v: int| 0 <= v < self.n() ==> #[trigger] g.free@[v] == (self.passable(net, v) || v == s || v == e),
            forall|v: int| 0 <= v < self.n() ==> #[trigger] g.x_edge@[v] && g.y_edge@[v] && g.via_edge@[v],
        ensures
            is_walk(g, Set::empty(), p, s, e) == self.lee_walk(net, p, s, e),
    {
        assert(g.n() == self.n());
        assert forall|a: int, b: int| 0 <= a < g.n() && 0 <= b < g.n() implies #[trigger] g.step_ok(a, b) == grid_nbrs(
            self.width as int,
            self.height as int,
            1,
            a,
        ).contains(b) by {
            reveal(WindowGraph::nbrs);
            reveal(WindowGraph::edge_legal);
            let lo = if a < b { a } else { b };
            assert(g.x_edge@[lo] && g.y_edge@[lo] && g.via_edge@[lo]);
        }
        if is_walk(g, Set::empty(), p, s, e) {
            assert forall|i: int| 0 <= i < p.len() implies 0 <= #[trigger] p[i] < self.n() && (self.passable(
                net,
                p[i] as int,
            ) || p[i] == s || p[i] == e) by {
                assert(node_open(g, Set::empty(), p[i] as int));
            }
            assert forall|i: int| 0 <= i < p.len() - 1 implies grid_nbrs(
                self.width as int,
                self.height as int,
                1,
                #[trigger] p[i] as int,
            ).contains(p[i + 1] as int) by {
                assert(g.step_ok(p[i] as int, p[i + 1] as int));
                assert(node_open(g, Set::empty(), p[i] as int));
                assert(node_open(g, Set::empty(), p[i + 1] as int));
            }
        }
        if self.lee_walk(net, p, s, e) {
            assert forall|i: int| 0 <= i < p.len() implies node_open(g, Set::empty(), #[trigger] p[i] as int) by {}
            assert forall|i: int| 0 <= i < p.len() - 1 implies g.step_ok(#[trigger] p[i] as int, p[i + 1] as int) by {
                assert(0 <= p[i] < self.n());
                assert(0 <= p[i + 1] < self.n());
            }
        }
    }

    /// Route `net` from cell `start` to cell `end` by breadth-first wavefront
    /// expansion (neighbours tried left, right, down, up): a shortest route,
    /// and among those the first in the order of its step directions. On
    /// success the route's empty cells become the net's.
    pub fn route(&mut self, net: u32, start: usize, end: usize) -> (r: Option<Vec<usize>>)
        requires
            old(self).wf(),
            start < old(self).n(),
            end < old(self).n(),
        ensures
            final(self).width == old(self).width,
            final(self).height == old(self).height,
            final(self).wf(),
            match r {
                Some(p) => {
                    &&& old(self).lee_walk(net, p@, start as int, end as int)
                    &&& no_repeats(p@)
                    &&& forall|q: Seq<usize>| #[trigger] old(self).lee_walk(net, q, start as int, end as int) ==> p@.len() <= q.len()
                    &&& forall|q: Seq<usize>|
                        #[trigger] old(self).lee_walk(net, q, start as int, end as int) && q.len() == p@.len()
                            ==> !old(self).turns_before(q, p@)
                    &&& forall|v: int|
                        0 <= v < old(self).n() ==> #[trigger] final(self).cells@[v] == (if path_nodes(p@).contains(v)
                            && old(self).cells@[v] == CellState::Empty {
                            CellState::Occupied(net)
                        } else {
                            old(self).cells@[v]
                        })
                },
                None => {
                    &&& forall|p: Seq<usize>| !old(self).lee_walk(net, p, start as int, end as int)
                    &&& final(self).cells@ == old(self).cells@
                },
            },
    {
        let n = self.width * self.height;
        let mut free: Vec<bool> = Vec::new();
        let mut tables: Vec<bool> = Vec::new();
        let mut v: usize = 0;
        while v < n
            invariant
                self.wf(),
                n == self.n(),
                v <= n,
                free@.len() == v,
                tables@.len() == v,
                forall|u: int| 0 <= u < v ==> #[trigger] free@[u] == (self.passable(net, u) || u == start || u == end),
                forall|u: int| 0 <= u < v ==> #[trigger] tables@[u],
            decreases n - v,
        {
            let ok = match self.cells[v] {
                CellState::Empty => true,
                CellState::Occupied(id) => id == net,
                CellState::Blocked => false,
            };
            free.push(ok || v == start || v == end);
            tables.push(true);
            v = v + 1;
        }
        let g = WindowGraph {
            nx: self.width,
            ny: self.height,
            nl: 1,
            free,
            x_edge: tables.clone(),
            y_edge: tables.clone(),
            via_edge: tables,
        };
        proof {
            assert(g.plane() == self.n());
            assert(g.n() == self.n());
            assert(g.wf());
        }
        let occ = BitSet::new(n);
        match bfs_path(&g, start, end, &occ) {
            Ok(path) => {
                proof {
                    self.lemma_window_walks(net, &g, start as int, end as int, path@);
                    assert forall|q: Seq<usize>| #[trigger] self.lee_walk(net, q, start as int, end as int) implies path@.len()
                        <= q.len() by {
                        self.lemma_window_walks(net, &g, start as int, end as int, q);
                    }
                    assert forall|q: Seq<usize>|
                        #[trigger] self.lee_walk(net, q, start as int, end as int) && q.len() == path@.len()
                            implies !self.turns_before(q, path@) by {
                        self.lemma_window_walks(net, &g, start as int, end as int, q);
                        if self.turns_before(q, path@) {
                            let j = choose|j: int|
                                0 <= j && j + 1 < path@.len() && j + 1 < q.len() && (forall|m: int| 0 <= m <= j ==> #[trigger] q[m]
                                    == path@[m]) && #[trigger] self.listed_before(path@[j] as int, q[j + 1] as int, path@[j + 1] as int);
                            assert(first_before(&g, path@[j] as int, q[j + 1] as int, path@[j + 1] as int)) by {
                                reveal(WindowGraph::nbrs);
                            }
                            assert(walk_precedes(&g, q, path@));
                        }
                    }
                }
                let ghost c0 = self.cells@;
                let mut i: usize = 0;
                while i < path.len()
                    invariant
                        self.wf(),
                        self.width == old(self).width,
                        self.height == old(self).height,
                        c0 == old(self).cells@,
                        n == self.n(),
                        i <= path@.len(),
                        forall|j: int| 0 <= j < path@.len() ==> #[trigger] path@[j] < n,
                        forall|u: int|
                            0 <= u < n ==> #[trigger] self.cells@[u] == (if path_nodes(path@.subrange(0, i as int)).contains(u)
                                && c0[u] == CellState::Empty {
                                CellState::Occupied(net)
                            } else {
                                c0[u]
                            }),
                    decreases path@.len() - i,
                {
                    let c = path[i];
                    let ghost before = self.cells@;
                    if self.cells[c] == CellState::Empty {
                        self.cells.set(c, CellState::Occupied(net));
                    }
                    proof {
                        let sub0 = path@.subrange(0, i as int);
                        let sub1 = path@.subrange(0, i + 1);
                        assert forall|u: int| path_nodes(sub1).contains(u) == (path_nodes(sub0).contains(u) || u == c as int) by {
                            if path_nodes(sub1).contains(u) {
                                let k = choose|k: int| 0 <= k < sub1.len() && #[trigger] sub1[k] as int == u;
                                if k < i {
                                    assert(sub0[k] as int == u);
                                }
                            }
                            if path_nodes(sub0).contains(u) {
                                let k = choose|k: int| 0 <= k < sub0.len() && #[trigger] sub0[k] as int == u;
                                assert(sub1[k] as int == u);
                            }
                            if u == c as int {
                                assert(sub1[i as int] as int == u);
                            }
                        }
                    }
                    i = i + 1;
                }
                proof {
                    assert(path@.subrange(0, path@.len() as int) =~= path@);
                }
                Some(path)
            },
            Err(seen) => {
                proof {
                    assert(node_open(&g, occ@, start as int));
                    assert forall|p: Seq<usize>| !old(self).lee_walk(net, p, start as int, end as int) by {
                        self.lemma_window_walks(net, &g, start as int, end as int, p);
                        lemma_closed_set_separates(&g, Set::empty(), seen@, p, start as int, end as int);
                    }
                }
                None
            },
        }
    }

    /// Cell `v` lies in the rectangle of columns `x0..x1` and rows `y0..y1`.
    pub open spec fn in_rect(&self, v: int, x0: int, y0: int, x1: int, y1: int) -> bool {
        x0 <= v % (self.width as int) < x1 && y0 <= v / (self.width as int) < y1
    }

    /// Block every cell of columns `x0..x1`, rows `y0..y1`.
    pub fn fill_blocked(&mut self, x0: usize, y0: usize, x1: usize, y1: usize)
        requires
            old(self).wf(),
            x1 <= old(self).width,
            y1 <= old(self).height,
        ensures
            final(self).width == old(self).width,
            final(self).height == old(self).height,
            final(self).wf(),
            forall|v: int|
                0 <= v < old(self).n() ==> #[trigger] final(self).cells@[v] == (if old(self).in_rect(
                    v,
                    x0 as int,
                    y0 as int,
                    x1 as int,
                    y1 as int,
                ) {
                    CellState::Blocked
                } else {
                    old(self).cells@[v]
                }),
    {
        self.fill_rect(x0, y0, x1, y1, None);
    }

    /// Mark every empty cell of columns `x0..x1`, rows `y0..y1` as occupied
    /// by `net`.
    pub fn fill_net(&mut self, x0: usize, y0: usize, x1: usize, y1: usize, net: u32)
        requires
            old(self).wf(),
            x1 <= old(self).width,
            y1 <= old(self).height,
        ensures
            final(self).width == old(self).width,
            final(self).height == old(self).height,
            final(self).wf(),
            forall|v: int|
                0 <= v < old(self).n() ==> #[trigger] final(self).cells@[v] == (if old(self).in_rect(
                    v,
                    x0 as int,
                    y0 as int,
                    x1 as int,
                    y1 as int,
                ) && old(self).cells@[v] == CellState::Empty {
                    CellState::Occupied(net)
                } else {
                    old(self).cells@[v]
                }),
    {
        self.fill_rect(x0, y0, x1, y1, Some(net));
    }

    /// Fill a rectangle: with `Blocked` when `net` is `None`, else every empty
    /// cell with `Occupied(net)`.
    fn fill_rect(&mut self, x0: usize, y0: usize, x1: usize, y1: usize, net: Option<u32>)
        requires
            old(self).wf(),
            x1 <= old(self).width,
            y1 <= old(self).height,
        ensures
            final(self).width == old(self).width,
            final(self).height == old(self).height,
            final(self).wf(),
            forall|v: int|
                0 <= v < old(self).n() ==> #[trigger] final(self).cells@[v] == fill_cell(
                    old(self).cells@[v],
                    old(self).in_rect(v, x0 as int, y0 as int, x1 as int, y1 as int),
                    net,
                ),
    {
        let w = self.width;
        let ghost c0 = self.cells@;
        let ghost g0: LeeGrid = *self;
        let mut x = x0;
        while x < x1
            invariant
                self.wf(),
                self.width == w,
                self.height == g0.height,
                g0.width == w,
                g0.wf(),
                c0 == g0.cells@,
                x0 <= x,
                x <= x1 || x == x0,
                x1 <= w,
                y1 <= self.height,
                forall|v: int|
                    0 <= v < g0.n() ==> #[trigger] self.cells@[v] == fill_cell(
                        c0[v],
                        g0.in_rect(v, x0 as int, y0 as int, x as int, y1 as int),
                        net,
                    ),
            decreases x1 - x,
        {
            let mut y = y0;
            while y < y1
                invariant
                    self.wf(),
                    self.width == w,
                    self.height == g0.height,
                    g0.width == w,
                    g0.wf(),
                    c0 == g0.cells@,
                    x0 <= x < x1,
                    x1 <= w,
                    y1 <= self.height,
                    y0 <= y,
                    y <= y1 || y == y0,
                    forall|v: int|
                        0 <= v < g0.n() ==> #[trigger] self.cells@[v] == fill_cell(
                            c0[v],
                            g0.in_rect(v, x0 as int, y0 as int, x as int, y1 as int) || (v % (w as int) == x && y0 <= v
                                / (w as int) < y),
                            net,
                        ),
                decreases y1 - y,
            {
                proof {
                    assert(y * w + x < g0.n()) by (nonlinear_arith)
                        requires
                            y < g0.height,
                            x < w,
                            g0.n() == w as int * g0.height as int;
                }
                let v = y * w + x;
                let cur = self.cells[v];
                let next = match net {
                    None => CellState::Blocked,
                    Some(id) => if cur == CellState::Empty {
                        CellState::Occupied(id)
                    } else {
                        cur
                    },
                };
                let ghost before = self.cells@;
                self.cells.set(v, next);
                proof {
                    assert((v as int) % (w as int) == x && (v as int) / (w as int) == y) by (nonlinear_arith)
                        requires
                            v == y * w + x,
                            x < w,
                            w >= 1;
                    assert forall|u: int|
                        0 <= u < g0.n() implies #[trigger] self.cells@[u] == fill_cell(
                        c0[u],
                        g0.in_rect(u, x0 as int, y0 as int, x as int, y1 as int) || (u % (w as int) == x && y0 <= u
                            / (w as int) < y + 1),
                        net,
                    ) by {
                        if u != v as int {
                            assert(self.cells@[u] == before[u]);
                            assert(before[u] == fill_cell(
                                c0[u],
                                g0.in_rect(u, x0 as int, y0 as int, x as int, y1 as int) || (u % (w as int) == x && y0
                                    <= u / (w as int) < y),
                                net,
                            ));
                            if u % (w as int) == x && u / (w as int) == y {
                                assert(u == (u / (w as int)) * (w as int) + u % (w as int)) by (nonlinear_arith)
                                    requires
                                        w >= 1;
                                assert(u == v);
                            }
                        } else {
                            assert(!g0.in_rect(u, x0 as int, y0 as int, x as int, y1 as int));
                            assert(before[u] == fill_cell(
                                c0[u],
                                g0.in_rect(u, x0 as int, y0 as int, x as int, y1 as int) || (u % (w as int) == x && y0
                                    <= u / (w as int) < y),
                                net,
                            ));
                            assert(before[u] == c0[u]);
                            assert(cur == c0[u]);
                        }
                    }
                }
                y = y + 1;
            }
            proof {
                assert forall|u: int|
                    0 <= u < g0.n() implies #[trigger] self.cells@[u] == fill_cell(
                    c0[u],
                    g0.in_rect(u, x0 as int, y0 as int, x + 1, y1 as int),
                    net,
                ) by {
                    if y0 <= y1 {
                        assert(g0.in_rect(u, x0 as int, y0 as int, x + 1, y1 as int) == (g0.in_rect(
                            u,
                            x0 as int,
                            y0 as int,
                            x as int,
                            y1 as int,
                        ) || (u % (w as int) == x && y0 <= u / (w as int) < y)));
                    }
                }
            }
            x = x + 1;
        }
        proof {
            if x1 <= x0 {
                assert forall|u: int| 0 <= u < g0.n() implies !g0.in_rect(u, x0 as int, y0 as int, x1 as int, y1 as int) by {}
            }
        }
    }
}

/// The state a fill leaves in a cell.
pub open spec fn fill_cell(c: CellState, inside: bool, net: Option<u32>) -> CellState {
    if !inside {
        c
    } else {
        match net {
            None => CellState::Blocked,
            Some(id) => if c == CellState::Empty {
                CellState::Occupied(id)
            } else {
                c
            },
        }
    }
}

/// The net identity hashed from a name's bytes: start at 5381, then for
/// each byte multiply by 33 and add the byte, modulo 2³².
pub open spec fn name_hash(bytes: Seq<u8>) -> int
    decreases bytes.len(),
{
    if bytes.len() == 0 {
        5381
    } else {
        (name_hash(bytes.drop_last()) * 33 + bytes.last() as int) % 0x1_0000_0000
    }
}

proof fn lemma_hash_step(h: u32, b: u8)
    ensures
        h.wrapping_mul(33).wrapping_add(b as u32) as int == (h as int * 33 + b as int) % 0x1_0000_0000,
{
    let m: int = 0x1_0000_0000;
    let p = (h as int * 33) % m;
    assert(0 <= p < m);
    lemma_add_mod_noop_right(b as int, h as int * 33, m);
    if p + b < m {
        lemma_small_mod((p + b) as nat, m as nat);
    } else {
        lemma_mod_sub_multiples_vanish(p + b, m);
        lemma_small_mod((p + b - m) as nat, m as nat);
    }
}

/// The id a net name routes under: its hash, with zero mapped to one.
pub fn net_id(name: &str) -> (id: u32)
    ensures
        id == (if name_hash(name.spec_bytes()) == 0 { 1 } else { name_hash(name.spec_bytes()) }),
{
    let bytes = name.as_bytes();
    let mut hash: u32 = 5381;
    let mut i: usize = 0;
    proof {
        assert(bytes@.take(0) =~= Seq::<u8>::empty());
    }
    while i < bytes.len()
        invariant
            i <= bytes@.len(),
            hash as int == name_hash(bytes@.take(i as int)),
        decreases bytes@.len() - i,
    {
        proof {
            assert(bytes@.take(i + 1).drop_last() =~= bytes@.take(i as int));
            lemma_hash_step(hash, bytes@[i as int]);
        }
        hash = hash.wrapping_mul(33).wrapping_add(bytes[i] as u32);
        i = i + 1;
    }
    proof {
        assert(bytes@.take(bytes@.len() as int) =~= bytes@);
    }
    if hash == 0 {
        1
    } else {
        hash
    }
}

/// The step from `path[i - 1]` to `path[i]`.
pub open spec fn step_dir(path: Seq<(usize, usize)>, i: int) -> (int, int) {
    (path[i].0 - path[i - 1].0, path[i].1 - path[i - 1].1)
}

/// `(a, b)`: the index ranges of the maximal straight runs of `path`.
pub open spec fn straight_runs_of(path: Seq<(usize, usize)>, runs: Seq<(usize, usize)>) -> bool {
    if path.len() < 2 {
        runs.len() == 0
    } else {
        &&& runs.len() >= 1
        &&& runs[0].0 == 0
        &&& runs[runs.len() - 1].1 == path.len() - 1
        &&& forall|k: int| 0 <= k < runs.len() ==> (#[trigger] runs[k]).0 < runs[k].1
        &&& forall|k: int| 0 <= k < runs.len() - 1 ==> (#[trigger] runs[k]).1 == runs[k + 1].0
        &&& forall|k: int, j: int|
            #![trigger runs[k], step_dir(path, j)]
            0 <= k < runs.len() && runs[k].0 < j <= runs[k].1 ==> step_dir(path, j) == step_dir(path, runs[k].0 + 1)
        &&& forall|k: int| 0 <= k < runs.len() - 1 ==> step_dir(path, (#[trigger] runs[k]).1 + 1) != step_dir(path, runs[k].1 as int)
    }
}

/// The step between two cells as (x increases, |dx|, y increases, |dy|).
fn step_of(a: (usize, usize), b: (usize, usize)) -> (r: (bool, usize, bool, usize))
    ensures
        (if r.0 { r.1 as int } else { -(r.1 as int) }) == b.0 - a.0,
        (if r.2 { r.3 as int } else { -(r.3 as int) }) == b.1 - a.1,
        r.1 == 0 ==> r.0,
        r.3 == 0 ==> r.2,
{
    let (xu, dx) = if b.0 >= a.0 { (true, b.0 - a.0) } else { (false, a.0 - b.0) };
    let (yu, dy) = if b.1 >= a.1 { (true, b.1 - a.1) } else { (false, a.1 - b.1) };
    (xu, dx, yu, dy)
}

fn same_step(p: (bool, usize, bool, usize), q: (bool, usize, bool, usize)) -> (r: bool)
    ensures
        r == (p.0 == q.0 && p.1 == q.1 && p.2 == q.2 && p.3 == q.3),
{
    p.0 == q.0 && p.1 == q.1 && p.2 == q.2 && p.3 == q.3
}

/// Split a cell path into maximal straight runs, as index ranges.
pub fn straight_runs(path: &Vec<(usize, usize)>) -> (runs: Vec<(usize, usize)>)
    ensures
        straight_runs_of(path@, runs@),
{
    let len = path.len();
    let mut runs: Vec<(usize, usize)> = Vec::new();
    if len < 2 {
        return runs;
    }
    let mut seg_start: usize = 0;
    let mut dir = step_of(path[0], path[1]);
    let mut i: usize = 2;
    while i < len
        invariant
            len == path@.len(),
            2 <= i <= len,
            seg_start < i - 1 || seg_start == i - 1,
            seg_start <= i - 2,
            (if dir.0 { dir.1 as int } else { -(dir.1 as int) }, if dir.2 { dir.3 as int } else { -(dir.3 as int) })
                == step_dir(path@, i - 1),
            dir.1 == 0 ==> dir.0,
            dir.3 == 0 ==> dir.2,
            forall|j: int| seg_start < j <= i - 1 ==> #[trigger] step_dir(path@, j) == step_dir(path@, seg_start + 1),
            runs@.len() == 0 ==> seg_start == 0,
            runs@.len() > 0 ==> runs@[0].0 == 0 && runs@[runs@.len() - 1].1 == seg_start,
            forall|k: int| 0 <= k < runs@.len() ==> (#[trigger] runs@[k]).0 < runs@[k].1,
            forall|k: int| 0 <= k < runs@.len() - 1 ==> (#[trigger] runs@[k]).1 == runs@[k + 1].0,
            forall|k: int, j: int|
                #![trigger runs@[k], step_dir(path@, j)]
                0 <= k < runs@.len() && runs@[k].0 < j <= runs@[k].1 ==> step_dir(path@, j) == step_dir(path@, runs@[k].0 + 1),
            forall|k: int| 0 <= k < runs@.len() ==> step_dir(path@, (#[trigger] runs@[k]).1 + 1) != step_dir(
                path@,
                runs@[k].1 as int,
            ),
            forall|k: int| 0 <= k < runs@.len() ==> (#[trigger] runs@[k]).1 < i,
        decreases len - i,
    {
        let nd = step_of(path[i - 1], path[i]);
        if !same_step(nd, dir) {
            let ghost old_runs = runs@;
            runs.push((seg_start, i - 1));
            proof {
                assert(step_dir(path@, i as int) != step_dir(path@, i - 1));
                assert forall|k: int, j: int|
                    #![trigger runs@[k], step_dir(path@, j)]
                    0 <= k < runs@.len() && runs@[k].0 < j <= runs@[k].1 implies step_dir(path@, j) == step_dir(
                    path@,
                    runs@[k].0 + 1,
                ) by {
                    if k < old_runs.len() {
                        assert(runs@[k] == old_runs[k]);
                    }
                }
                assert forall|k: int| 0 <= k < runs@.len() implies step_dir(path@, (#[trigger] runs@[k]).1 + 1)
                    != step_dir(path@, runs@[k].1 as int) by {
                    if k < old_runs.len() {
                        assert(runs@[k] == old_runs[k]);
                    }
                }
                assert forall|k: int| 0 <= k < runs@.len() - 1 implies (#[trigger] runs@[k]).1 == runs@[k + 1].0 by {
                    assert(runs@[k] == old_runs[k]);
                    if k + 1 < old_runs.len() {
                        assert(runs@[k + 1] == old_runs[k + 1]);
                    }
                }
            }
            seg_start = i - 1;
            dir = nd;
        }
        i = i + 1;
    }
    let ghost old_runs = runs@;
    runs.push((seg_start, len - 1));
    proof {
        assert forall|k: int, j: int|
            #![trigger runs@[k], step_dir(path@, j)]
            0 <= k < runs@.len() && runs@[k].0 < j <= runs@[k].1 implies step_dir(path@, j) == step_dir(
            path@,
            runs@[k].0 + 1,
        ) by {
            if k < old_runs.len() {
                assert(runs@[k] == old_runs[k]);
            }
        }
        assert forall|k: int| 0 <= k < runs@.len() - 1 implies step_dir(path@, (#[trigger] runs@[k]).1 + 1) != step_dir(
            path@,
            runs@[k].1 as int,
        ) by {
            assert(runs@[k] == old_runs[k]);
        }
        assert forall|k: int| 0 <= k < runs@.len() - 1 implies (#[trigger] runs@[k]).1 == runs@[k + 1].0 by {
            assert(runs@[k] == old_runs[k]);
            if k + 1 < old_runs.len() {
                assert(runs@[k + 1] == old_runs[k + 1]);
            }
        }
        assert forall|k: int| 0 <= k < runs@.len() implies (#[trigger] runs@[k]).0 < runs@[k].1 by {
            if k < old_runs.len() {
                assert(runs@[k] == old_runs[k]);
            }
        }
    }
    runs
}

} // verus!
