//! The canonical window graph: nodes are `(cell, layer)` on a uniform grid of
//! `nx × ny` cells over `nl` copper layers, numbered
//! `layer * (nx * ny) + iy * nx + ix`. In-plane edges join 4-adjacent cells on
//! one layer; via edges join one cell on adjacent layers. Which nodes are
//! clear of fixed copper, and which edges are legal, is decided by the
//! clearance oracle before the search and held here as plain values.
use vstd::prelude::*;
use vstd::arithmetic::div_mod::{lemma_fundamental_div_mod, lemma_fundamental_div_mod_converse, lemma_mod_pos_bound};

verus! {

/// The neighbours of node `v` in an `nx × ny × nl` grid numbered
/// `layer * (nx * ny) + iy * nx + ix`: left, right, down, up (in-plane),
/// then the layer before and after.
pub open spec fn grid_nbrs(nx: int, ny: int, nl: int, v: int) -> Seq<int> {
    let p = nx * ny;
    let li = v / p;
    let x = (v % p) % nx;
    let y = (v % p) / nx;
    (if x > 0 { seq![v - 1] } else { Seq::empty() })
        + (if x + 1 < nx { seq![v + 1] } else { Seq::empty() })
        + (if y > 0 { seq![v - nx] } else { Seq::empty() })
        + (if y + 1 < ny { seq![v + nx] } else { Seq::empty() })
        + (if li > 0 { seq![v - p] } else { Seq::empty() })
        + (if li + 1 < nl { seq![v + p] } else { Seq::empty() })
}

/// The discretized routing window.
pub struct WindowGraph {
    /// Cells per row.
    pub nx: usize,
    /// Rows per layer.
    pub ny: usize,
    /// Copper layers, front to back.
    pub nl: usize,
    /// `free[v]`: a trace centre at node `v` clears all fixed copper.
    pub free: Vec<bool>,
    /// `x_edge[v]`: the in-plane step between `v` and `v + 1` (same row) is legal.
    pub x_edge: Vec<bool>,
    /// `y_edge[v]`: the in-plane step between `v` and `v + nx` (same layer) is legal.
    pub y_edge: Vec<bool>,
    /// `via_edge[v]`: the via between `v` and `v + nx * ny` (next layer) is legal.
    pub via_edge: Vec<bool>,
}

impl WindowGraph {
    /// Cells per layer.
    pub open spec fn plane(&self) -> int {
        self.nx as int * self.ny as int
    }

    /// Node count.
    pub open spec fn n(&self) -> int {
        self.plane() * self.nl as int
    }

    /// Well-formed: non-empty dimensions whose node count fits a `usize`, and
    /// one flag per node in each table.
    pub open spec fn wf(&self) -> bool {
        &&& self.nx >= 1
        &&& self.ny >= 1
        &&& self.nl >= 1
        &&& self.n() <= usize::MAX
        &&& self.free@.len() == self.n()
        &&& self.x_edge@.len() == self.n()
        &&& self.y_edge@.len() == self.n()
        &&& self.via_edge@.len() == self.n()
    }

    /// Layer index of node `v`.
    pub open spec fn layer_of(&self, v: int) -> int {
        v / self.plane()
    }

    /// Column of node `v`.
    pub open spec fn ix(&self, v: int) -> int {
        (v % self.plane()) % (self.nx as int)
    }

    /// Row of node `v`.
    pub open spec fn iy(&self, v: int) -> int {
        (v % self.plane()) / (self.nx as int)
    }

    /// The grid neighbours of `v`, in the order the search visits them:
    /// left, right, down, up (in-plane), then the layer before and after.
    #[verifier::opaque]
    pub open spec fn nbrs(&self, v: int) -> Seq<int> {
        grid_nbrs(self.nx as int, self.ny as int, self.nl as int, v)
    }

    /// Legality of the edge between neighbours `a` and `b`, read from the
    /// table of the edge's direction at its lower endpoint.
    #[verifier::opaque]
    pub open spec fn edge_legal(&self, a: int, b: int) -> bool {
        let lo = if a < b { a } else { b };
        if self.layer_of(a) != self.layer_of(b) {
            self.via_edge@[lo]
        } else if self.iy(a) == self.iy(b) {
            self.x_edge@[lo]
        } else {
            self.y_edge@[lo]
        }
    }

    /// `b` is a neighbour of `a` across a legal edge.
    pub open spec fn step_ok(&self, a: int, b: int) -> bool {
        self.nbrs(a).contains(b) && self.edge_legal(a, b)
    }

    /// A layer holds at least one cell and at most every node.
    pub proof fn lemma_sizes(&self)
        requires
            self.wf(),
        ensures
            1 <= self.nx <= self.plane() <= self.n() <= usize::MAX,
    {
        let p = self.plane();
        assert(1 <= self.nx <= p) by (nonlinear_arith)
            requires p == self.nx as int * self.ny as int, self.nx >= 1, self.ny >= 1;
        assert(p <= p * self.nl as int) by (nonlinear_arith)
            requires p >= 1, self.nl >= 1;
    }

    /// Decomposition of a node index into layer, row and column.
    pub proof fn lemma_coords(&self, v: int)
        requires
            self.wf(),
            0 <= v < self.n(),
        ensures
            0 <= self.layer_of(v) < self.nl,
            0 <= self.ix(v) < self.nx,
            0 <= self.iy(v) < self.ny,
            v == self.layer_of(v) * self.plane() + self.iy(v) * self.nx + self.ix(v),
    {
        let p = self.plane();
        let nx = self.nx as int;
        assert(p >= 1) by (nonlinear_arith)
            requires p == self.nx as int * self.ny as int, self.nx >= 1, self.ny >= 1;
        lemma_fundamental_div_mod(v, p);
        lemma_mod_pos_bound(v, p);
        let c = v % p;
        lemma_fundamental_div_mod(c, nx);
        lemma_mod_pos_bound(c, nx);
        let q = v / p;
        assert(0 <= q < self.nl) by (nonlinear_arith)
            requires v == p * q + c, 0 <= c < p, 0 <= v < p * self.nl as int, p >= 1;
        let y = c / nx;
        assert(0 <= y < self.ny) by (nonlinear_arith)
            requires c == nx * y + c % nx, 0 <= c % nx < nx, 0 <= c < p, p == nx * self.ny as int, nx >= 1;
        assert(v == q * p + y * nx + c % nx) by (nonlinear_arith)
            requires v == p * q + c, c == nx * y + c % nx;
    }

    /// A node is determined by its layer, row and column.
    pub proof fn lemma_coords_of(&self, v: int, l: int, y: int, x: int)
        requires
            self.wf(),
            0 <= l < self.nl,
            0 <= y < self.ny,
            0 <= x < self.nx,
            v == l * self.plane() + y * self.nx + x,
        ensures
            0 <= v < self.n(),
            self.layer_of(v) == l,
            self.iy(v) == y,
            self.ix(v) == x,
    {
        let p = self.plane();
        let nx = self.nx as int;
        let c = y * nx + x;
        assert(0 <= c < p) by (nonlinear_arith)
            requires c == y * nx + x, 0 <= y < self.ny, 0 <= x < nx, p == nx * self.ny as int;
        assert(0 <= v < self.n()) by (nonlinear_arith)
            requires v == l * p + c, 0 <= c < p, 0 <= l < self.nl, self.n() == p * self.nl as int;
        lemma_fundamental_div_mod_converse(v, p, l, c);
        lemma_fundamental_div_mod_converse(c, nx, y, x);
    }

    /// The neighbour list of `v`, case by case.
    pub proof fn lemma_nbrs_members(&self, v: int)
        requires
            self.wf(),
        ensures
            self.ix(v) > 0 ==> self.nbrs(v).contains(v - 1),
            self.ix(v) + 1 < self.nx ==> self.nbrs(v).contains(v + 1),
            self.iy(v) > 0 ==> self.nbrs(v).contains(v - self.nx),
            self.iy(v) + 1 < self.ny ==> self.nbrs(v).contains(v + self.nx),
            self.layer_of(v) > 0 ==> self.nbrs(v).contains(v - self.plane()),
            self.layer_of(v) + 1 < self.nl ==> self.nbrs(v).contains(v + self.plane()),
            forall|b: int| #[trigger] self.nbrs(v).contains(b) ==> {
                ||| (self.ix(v) > 0 && b == v - 1)
                ||| (self.ix(v) + 1 < self.nx && b == v + 1)
                ||| (self.iy(v) > 0 && b == v - self.nx)
                ||| (self.iy(v) + 1 < self.ny && b == v + self.nx)
                ||| (self.layer_of(v) > 0 && b == v - self.plane())
                ||| (self.layer_of(v) + 1 < self.nl && b == v + self.plane())
            },
    {
        let p = self.plane();
        let nx = self.nx as int;
        let l = self.layer_of(v);
        let y = self.iy(v);
        let x = self.ix(v);
        reveal(WindowGraph::nbrs);
        let s0: Seq<int> = if x > 0 { seq![v - 1] } else { Seq::empty() };
        let s1: Seq<int> = if x + 1 < nx { seq![v + 1] } else { Seq::empty() };
        let s2: Seq<int> = if y > 0 { seq![v - nx] } else { Seq::empty() };
        let s3: Seq<int> = if y + 1 < self.ny { seq![v + nx] } else { Seq::empty() };
        let s4: Seq<int> = if l > 0 { seq![v - p] } else { Seq::empty() };
        let s5: Seq<int> = if l + 1 < self.nl { seq![v + p] } else { Seq::empty() };
        let q0 = s0 + s1;
        let q1 = q0 + s2;
        let q2 = q1 + s3;
        let q3 = q2 + s4;
        let q4 = q3 + s5;
        assert(self.nbrs(v) == q4);
        if x > 0 {
            assert(q4[0] == v - 1);
        }
        if x + 1 < nx {
            assert(q4[s0.len() as int] == v + 1);
        }
        if y > 0 {
            assert(q4[q0.len() as int] == v - nx);
        }
        if y + 1 < self.ny {
            assert(q4[q1.len() as int] == v + nx);
        }
        if l > 0 {
            assert(q4[q2.len() as int] == v - p);
        }
        if l + 1 < self.nl {
            assert(q4[q3.len() as int] == v + p);
        }
        assert forall|b: int| #[trigger] self.nbrs(v).contains(b) implies {
            ||| (x > 0 && b == v - 1)
            ||| (x + 1 < nx && b == v + 1)
            ||| (y > 0 && b == v - nx)
            ||| (y + 1 < self.ny && b == v + nx)
            ||| (l > 0 && b == v - p)
            ||| (l + 1 < self.nl && b == v + p)
        } by {
            let k = choose|k: int| 0 <= k < q4.len() && q4[k] == b;
            if k < q0.len() {
                assert(q4[k] == q0[k]);
                if k < s0.len() {
                    assert(q0[k] == s0[k]);
                } else {
                    assert(q0[k] == s1[k - s0.len()]);
                }
            } else if k < q1.len() {
                assert(q4[k] == q1[k]);
                assert(q1[k] == s2[k - q0.len()]);
            } else if k < q2.len() {
                assert(q4[k] == q2[k]);
                assert(q2[k] == s3[k - q1.len()]);
            } else if k < q3.len() {
                assert(q4[k] == q3[k]);
                assert(q3[k] == s4[k - q2.len()]);
            } else {
                assert(q4[k] == s5[k - q3.len()]);
            }
        }
    }

    /// The grid is undirected: `b` neighbours `a` exactly when `a`
    /// neighbours `b`.
    pub proof fn lemma_nbrs_symmetric(&self, a: int, b: int)
        requires
            self.wf(),
            0 <= a < self.n(),
            self.nbrs(a).contains(b),
        ensures
            0 <= b < self.n(),
            self.nbrs(b).contains(a),
    {
        self.lemma_coords(a);
        self.lemma_nbrs_members(a);
        let p = self.plane();
        let nx = self.nx as int;
        let l = self.layer_of(a);
        let y = self.iy(a);
        let x = self.ix(a);
        if x > 0 && b == a - 1 {
            self.lemma_coords_of(b, l, y, x - 1);
        } else if x + 1 < nx && b == a + 1 {
            self.lemma_coords_of(b, l, y, x + 1);
        } else if y > 0 && b == a - nx {
            assert(b == l * p + (y - 1) * nx + x) by (nonlinear_arith)
                requires a == l * p + y * nx + x, b == a - nx;
            self.lemma_coords_of(b, l, y - 1, x);
        } else if y + 1 < self.ny && b == a + nx {
            assert(b == l * p + (y + 1) * nx + x) by (nonlinear_arith)
                requires a == l * p + y * nx + x, b == a + nx;
            self.lemma_coords_of(b, l, y + 1, x);
        } else if l > 0 && b == a - p {
            assert(b == (l - 1) * p + y * nx + x) by (nonlinear_arith)
                requires a == l * p + y * nx + x, b == a - p;
            self.lemma_coords_of(b, l - 1, y, x);
        } else {
            assert(b == (l + 1) * p + y * nx + x) by (nonlinear_arith)
                requires a == l * p + y * nx + x, b == a + p;
            self.lemma_coords_of(b, l + 1, y, x);
        }
        self.lemma_nbrs_members(b);
    }

    /// Edge legality does not depend on the direction of the step.
    pub proof fn lemma_edge_legal_symmetric(&self, a: int, b: int)
        ensures
            self.edge_legal(a, b) == self.edge_legal(b, a),
    {
        reveal(WindowGraph::edge_legal);
    }

    /// A node has at most six neighbours.
    pub proof fn lemma_nbrs_at_most_six(&self, v: int)
        ensures
            self.nbrs(v).len() <= 6,
    {
        reveal(WindowGraph::nbrs);
    }

    /// Every neighbour of a node is a node.
    pub proof fn lemma_nbrs_in_range(&self, v: int)
        requires
            self.wf(),
            0 <= v < self.n(),
        ensures
            self.ix(v) + 1 < self.nx ==> v + 1 < self.n(),
            self.iy(v) + 1 < self.ny ==> v + self.nx < self.n(),
            self.layer_of(v) + 1 < self.nl ==> v + self.plane() < self.n(),
            self.iy(v) > 0 ==> v - self.nx >= 0,
            self.layer_of(v) > 0 ==> v - self.plane() >= 0,
            forall|k: int| 0 <= k < self.nbrs(v).len() ==> 0 <= #[trigger] self.nbrs(v)[k] < self.n(),
    {
        self.lemma_coords(v);
        let p = self.plane();
        let nx = self.nx as int;
        let ny = self.ny as int;
        let nl = self.nl as int;
        let li = self.layer_of(v);
        let x = self.ix(v);
        let y = self.iy(v);
        let n = self.n();
        assert(y * nx + nx <= p) by (nonlinear_arith)
            requires y + 1 <= ny, nx >= 0, p == nx * ny;
        assert((y + 1) * nx == y * nx + nx) by (nonlinear_arith);
        assert(y + 2 <= ny ==> (y + 1) * nx + nx <= p) by (nonlinear_arith)
            requires nx >= 0, p == nx * ny;
        assert(li * p + p <= n) by (nonlinear_arith)
            requires li + 1 <= nl, p >= 0, n == p * nl;
        assert(li + 2 <= nl ==> li * p + 2 * p <= n) by (nonlinear_arith)
            requires p >= 0, n == p * nl;
        assert(y >= 1 ==> y * nx >= nx) by (nonlinear_arith)
            requires nx >= 0;
        assert(li >= 1 ==> li * p >= p) by (nonlinear_arith)
            requires p >= 0;
        assert(li * p >= 0 && y * nx >= 0) by (nonlinear_arith)
            requires li >= 0, p >= 0, y >= 0, nx >= 0;
        let s0: Seq<int> = if x > 0 { seq![v - 1] } else { Seq::empty() };
        let s1: Seq<int> = if x + 1 < nx { seq![v + 1] } else { Seq::empty() };
        let s2: Seq<int> = if y > 0 { seq![v - nx] } else { Seq::empty() };
        let s3: Seq<int> = if y + 1 < ny { seq![v + nx] } else { Seq::empty() };
        let s4: Seq<int> = if li > 0 { seq![v - p] } else { Seq::empty() };
        let s5: Seq<int> = if li + 1 < nl { seq![v + p] } else { Seq::empty() };
        reveal(WindowGraph::nbrs);
        let s = self.nbrs(v);
        assert(s == s0 + s1 + s2 + s3 + s4 + s5);
        let ok = |q: Seq<int>| forall|k: int| 0 <= k < q.len() ==> 0 <= #[trigger] q[k] < n;
        assert(ok(s0));
        assert(ok(s1));
        assert(ok(s2));
        assert(ok(s3));
        assert(ok(s4));
        assert(ok(s5));
        assert forall|a: Seq<int>, b: Seq<int>| ok(a) && ok(b) implies #[trigger] ok(a + b) by {
            assert forall|k: int| 0 <= k < (a + b).len() implies 0 <= #[trigger] (a + b)[k] < n by {
                if k < a.len() {
                    assert((a + b)[k] == a[k]);
                } else {
                    assert((a + b)[k] == b[k - a.len()]);
                }
            }
        }
        assert(ok(s0 + s1));
        assert(ok(s0 + s1 + s2));
        assert(ok(s0 + s1 + s2 + s3));
        assert(ok(s0 + s1 + s2 + s3 + s4));
        assert(ok(s));
    }

    /// The grid neighbours of `node` (see [`Self::nbrs`]).
    #[verifier::rlimit(40)]
    pub fn neighbors(&self, node: usize) -> (out: Vec<usize>)
        requires
            self.wf(),
            node < self.n(),
        ensures
            out@.len() == self.nbrs(node as int).len(),
            forall|k: int| 0 <= k < out@.len() ==> out@[k] as int == #[trigger] self.nbrs(node as int)[k],
            forall|k: int| 0 <= k < out@.len() ==> #[trigger] out@[k] < self.n(),
    {
        proof {
            self.lemma_sizes();
            self.lemma_coords(node as int);
            self.lemma_nbrs_in_range(node as int);
        }
        let plane = self.nx * self.ny;
        let li = node / plane;
        let cell = node % plane;
        let ix = cell % self.nx;
        let iy = cell / self.nx;
        let ghost v = node as int;
        let ghost e: Seq<int> = Seq::empty();
        let mut out: Vec<usize> = Vec::new();
        if ix > 0 {
            out.push(node - 1);
        }
        proof {
            e = if ix > 0 { seq![v - 1] } else { Seq::empty() };
            assert(out@.len() == e.len() && forall|k: int| 0 <= k < e.len() ==> out@[k] as int == e[k]);
        }
        let ghost e0 = e;
        if ix + 1 < self.nx {
            out.push(node + 1);
        }
        proof {
            e = e0 + if ix + 1 < self.nx { seq![v + 1] } else { Seq::empty() };
            assert(out@.len() == e.len() && forall|k: int| 0 <= k < e.len() ==> out@[k] as int == e[k]);
        }
        let ghost e1 = e;
        if iy > 0 {
            out.push(node - self.nx);
        }
        proof {
            e = e1 + if iy > 0 { seq![v - self.nx] } else { Seq::empty() };
            assert(out@.len() == e.len() && forall|k: int| 0 <= k < e.len() ==> out@[k] as int == e[k]);
        }
        let ghost e2 = e;
        if iy + 1 < self.ny {
            out.push(node + self.nx);
        }
        proof {
            e = e2 + if iy + 1 < self.ny { seq![v + self.nx] } else { Seq::empty() };
            assert(out@.len() == e.len() && forall|k: int| 0 <= k < e.len() ==> out@[k] as int == e[k]);
        }
        let ghost e3 = e;
        if li > 0 {
            out.push(node - plane);
        }
        proof {
            e = e3 + if li > 0 { seq![v - plane] } else { Seq::empty() };
            assert(out@.len() == e.len() && forall|k: int| 0 <= k < e.len() ==> out@[k] as int == e[k]);
        }
        let ghost e4 = e;
        if li + 1 < self.nl {
            out.push(node + plane);
        }
        proof {
            e = e4 + if li + 1 < self.nl { seq![v + plane] } else { Seq::empty() };
            assert(out@.len() == e.len() && forall|k: int| 0 <= k < e.len() ==> out@[k] as int == e[k]);
            reveal(WindowGraph::nbrs);
            assert(e == self.nbrs(v));
        }
        out
    }

    /// Legality of the edge between neighbours `a` and `b`.
    pub fn edge_ok(&self, a: usize, b: usize) -> (ok: bool)
        requires
            self.wf(),
            a < self.n(),
            b < self.n(),
        ensures
            ok == self.edge_legal(a as int, b as int),
    {
        proof {
            self.lemma_sizes();
            reveal(WindowGraph::edge_legal);
        }
        let plane = self.nx * self.ny;
        let lo = if a < b { a } else { b };
        if a / plane != b / plane {
            self.via_edge[lo]
        } else if (a % plane) / self.nx == (b % plane) / self.nx {
            self.x_edge[lo]
        } else {
            self.y_edge[lo]
        }
    }
}

} // verus!
