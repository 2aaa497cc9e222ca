//! Clusters of new vias whose holes sit closer than the hole-to-hole rule
//! allows: the pairs found too close are linked with union–find, and every
//! cluster is later resolved to one surviving via.
use vstd::prelude::*;

verus! {

/// Some pair of `close` joins `a` and `b`, in either order.
pub open spec fn joins(close: Seq<(usize, usize)>, a: int, b: int) -> bool {
    exists|k: int|
        0 <= k < close.len() && ((#[trigger] close[k].0 == a && close[k].1 == b) || (close[k].0 == b && close[k].1
            == a))
}

/// Step `t` of the walk `w` follows a pair of `close`.
pub open spec fn step_joins(close: Seq<(usize, usize)>, w: Seq<int>, t: int) -> bool {
    joins(close, w[t], w[t + 1])
}

/// `w` is a non-empty walk along pairs of `close`.
pub open spec fn is_chain(close: Seq<(usize, usize)>, w: Seq<int>) -> bool {
    &&& w.len() >= 1
    &&& forall|t: int| 0 <= t < w.len() - 1 ==> #[trigger] step_joins(close, w, t)
}

/// A chain of too-close pairs leads from `a` to `b`.
pub open spec fn linked(close: Seq<(usize, usize)>, a: int, b: int) -> bool {
    exists|w: Seq<int>| #[trigger] is_chain(close, w) && w[0] == a && w.last() == b
}

/// Every node is linked to itself.
pub proof fn lemma_linked_refl(close: Seq<(usize, usize)>, a: int)
    ensures
        linked(close, a, a),
{
    let w = seq![a];
    assert(is_chain(close, w));
}

/// A pair of `close` links its two ends.
pub proof fn lemma_linked_pair(close: Seq<(usize, usize)>, k: int)
    requires
        0 <= k < close.len(),
    ensures
        linked(close, close[k].0 as int, close[k].1 as int),
{
    let w = seq![close[k].0 as int, close[k].1 as int];
    assert(step_joins(close, w, 0));
    assert(is_chain(close, w));
}

/// Links run both ways.
pub proof fn lemma_linked_symm(close: Seq<(usize, usize)>, a: int, b: int)
    requires
        linked(close, a, b),
    ensures
        linked(close, b, a),
{
    let w = choose|w: Seq<int>| #[trigger] is_chain(close, w) && w[0] == a && w.last() == b;
    let r = w.reverse();
    assert forall|t: int| 0 <= t < r.len() - 1 implies #[trigger] step_joins(close, r, t) by {
        let u = w.len() - 2 - t;
        assert(step_joins(close, w, u));
        assert(r[t] == w[u + 1] && r[t + 1] == w[u]);
        let k = choose|k: int|
            0 <= k < close.len() && ((#[trigger] close[k].0 == w[u] && close[k].1 == w[u + 1]) || (close[k].0
                == w[u + 1] && close[k].1 == w[u]));
        assert(close[k].0 == r[t + 1] || close[k].0 == r[t]);
    }
    assert(is_chain(close, r));
}

/// Links compose.
pub proof fn lemma_linked_trans(close: Seq<(usize, usize)>, a: int, b: int, c: int)
    requires
        linked(close, a, b),
        linked(close, b, c),
    ensures
        linked(close, a, c),
{
    let w1 = choose|w: Seq<int>| #[trigger] is_chain(close, w) && w[0] == a && w.last() == b;
    let w2 = choose|w: Seq<int>| #[trigger] is_chain(close, w) && w[0] == b && w.last() == c;
    let w = w1 + w2.drop_first();
    assert forall|t: int| 0 <= t < w.len() - 1 implies #[trigger] step_joins(close, w, t) by {
        if t < w1.len() - 1 {
            assert(step_joins(close, w1, t));
            assert(w[t] == w1[t] && w[t + 1] == w1[t + 1]);
        } else {
            let u = t - (w1.len() - 1);
            assert(step_joins(close, w2, u));
            assert(w[t] == w2[u] && w[t + 1] == w2[u + 1]);
        }
    }
    assert(is_chain(close, w));
    assert(w.last() == c);
}

/// Links survive more pairs being found.
pub proof fn lemma_linked_grow(close: Seq<(usize, usize)>, more: Seq<(usize, usize)>, a: int, b: int)
    requires
        linked(close, a, b),
        close.len() <= more.len(),
        close == more.take(close.len() as int),
    ensures
        linked(more, a, b),
{
    let w = choose|w: Seq<int>| #[trigger] is_chain(close, w) && w[0] == a && w.last() == b;
    assert forall|t: int| 0 <= t < w.len() - 1 implies #[trigger] step_joins(more, w, t) by {
        assert(step_joins(close, w, t));
        let k = choose|k: int|
            0 <= k < close.len() && ((#[trigger] close[k].0 == w[t] && close[k].1 == w[t + 1]) || (close[k].0
                == w[t + 1] && close[k].1 == w[t]));
        assert(more[k] == close[k]);
    }
    assert(is_chain(more, w));
}

/// Along a chain of pairs that each stay inside one class of `label`, the
/// label never changes.
pub proof fn lemma_chain_keeps_label(close: Seq<(usize, usize)>, label: Seq<int>, w: Seq<int>, t: int)
    requires
        is_chain(close, w),
        forall|k: int| 0 <= k < close.len() ==> label[#[trigger] close[k].0 as int] == label[close[k].1 as int],
        0 <= t < w.len(),
    ensures
        label[w[t]] == label[w[0]],
    decreases t,
{
    if t > 0 {
        lemma_chain_keeps_label(close, label, w, t - 1);
        assert(step_joins(close, w, t - 1));
        let k = choose|k: int|
            0 <= k < close.len() && ((#[trigger] close[k].0 == w[t - 1] && close[k].1 == w[t]) || (close[k].0
                == w[t] && close[k].1 == w[t - 1]));
        assert(label[close[k].0 as int] == label[close[k].1 as int]);
    }
}

/// A union–find forest: parent links stay inside `0..n`, every element's
/// ghost `root` is reached by following them (each link keeps the root and
/// raises the rank, bounded by `top`), and roots are their own parents.
pub open spec fn forest(parent: Seq<usize>, root: Seq<int>, rank: Seq<nat>, top: nat) -> bool {
    let n = parent.len();
    &&& root.len() == n
    &&& rank.len() == n
    &&& forall|i: int|
        #![trigger parent[i]]
        #![trigger root[i]]
        0 <= i < n ==> {
            &&& parent[i] < n
            &&& 0 <= root[i] < n
            &&& parent[root[i]] == root[i]
            &&& root[parent[i] as int] == root[i]
            &&& (parent[i] == i ==> root[i] == i)
            &&& (parent[i] != i ==> rank[i] < rank[parent[i] as int])
            &&& (root[i] != i ==> rank[i] < rank[root[i]])
            &&& rank[i] <= top
        }
}

/// Re-linking `c` straight to its root keeps the forest.
pub proof fn lemma_compress(parent: Seq<usize>, root: Seq<int>, rank: Seq<nat>, top: nat, c: int)
    requires
        forest(parent, root, rank, top),
        0 <= c < parent.len(),
        root[c] != c,
    ensures
        forest(parent.update(c, root[c] as usize), root, rank, top),
{
    let n = parent.len();
    let p2 = parent.update(c, root[c] as usize);
    assert forall|x: int|
        #![trigger p2[x]]
        #![trigger root[x]]
        0 <= x < n implies {
        &&& p2[x] < n
        &&& 0 <= root[x] < n
        &&& p2[root[x]] == root[x]
        &&& root[p2[x] as int] == root[x]
        &&& (p2[x] == x ==> root[x] == x)
        &&& (p2[x] != x ==> rank[x] < rank[p2[x] as int])
        &&& (root[x] != x ==> rank[x] < rank[root[x]])
        &&& rank[x] <= top
    } by {
        assert(parent[x] < n);
        assert(root[x] < n);
        assert(parent[root[x]] == root[x]);
        assert(root[root[c]] == root[c]) by {
            assert(root[parent[root[c]] as int] == root[root[c]]);
        }
    }
}

/// Linking root `ri` under root `rj` keeps the forest, with `rj`'s rank
/// raised above `ri`'s and every root `ri` renamed `rj`.
pub proof fn lemma_link(parent: Seq<usize>, root: Seq<int>, rank: Seq<nat>, top: nat, ri: int, rj: int)
    requires
        forest(parent, root, rank, top),
        0 <= ri < parent.len(),
        0 <= rj < parent.len(),
        ri != rj,
        root[ri] == ri,
        root[rj] == rj,
    ensures
        ({
            let bumped: nat = if rank[rj] > rank[ri] { rank[rj] } else { rank[ri] + 1 };
            forest(
                parent.update(ri, rj as usize),
                Seq::new(parent.len(), |x: int| if root[x] == ri { rj } else { root[x] }),
                rank.update(rj, bumped),
                if bumped > top { bumped } else { top },
            )
        }),
{
    let n = parent.len();
    let bumped: nat = if rank[rj] > rank[ri] { rank[rj] } else { rank[ri] + 1 };
    let p2 = parent.update(ri, rj as usize);
    let r2 = Seq::new(n, |x: int| if root[x] == ri { rj } else { root[x] });
    let k2 = rank.update(rj, bumped);
    let t2: nat = if bumped > top { bumped } else { top };
    assert(parent[ri] == ri as usize);
    assert(parent[rj] == rj as usize);
    assert forall|x: int|
        #![trigger p2[x]]
        #![trigger r2[x]]
        0 <= x < n implies {
        &&& p2[x] < n
        &&& 0 <= r2[x] < n
        &&& p2[r2[x]] == r2[x]
        &&& r2[p2[x] as int] == r2[x]
        &&& (p2[x] == x ==> r2[x] == x)
        &&& (p2[x] != x ==> k2[x] < k2[p2[x] as int])
        &&& (r2[x] != x ==> k2[x] < k2[r2[x]])
        &&& k2[x] <= t2
    } by {
        assert(parent[x] < n);
        assert(root[x] < n);
        assert(parent[root[x]] == root[x]);
        assert(root[parent[x] as int] == root[x]);
        assert(rank[x] <= rank[root[x]]);
    }
}

/// Union–find over `0..n` with path compression. `root` is the ghost root of
/// every element; `rank` strictly grows along parent links and is bounded by
/// `top`, which makes every walk to a root finite.
pub struct UnionFind {
    parent: Vec<usize>,
    root: Ghost<Seq<int>>,
    rank: Ghost<Seq<nat>>,
    top: Ghost<nat>,
}

impl UnionFind {
    /// The class representative of every element.
    pub closed spec fn roots(&self) -> Seq<int> {
        self.root@
    }

    /// Element count.
    pub closed spec fn size(&self) -> nat {
        self.parent@.len()
    }

    /// The links form a forest whose roots are the representatives.
    pub closed spec fn wf(&self) -> bool {
        forest(self.parent@, self.root@, self.rank@, self.top@)
    }

    /// A representative is its own representative.
    pub proof fn lemma_root_fixed(&self, x: int)
        requires
            self.wf(),
            0 <= x < self.size(),
        ensures
            self.roots().len() == self.size(),
            0 <= self.roots()[x] < self.size(),
            self.roots()[self.roots()[x]] == self.roots()[x],
    {
        assert(self.parent@[self.root@[x]] == self.root@[x]);
        assert(self.root@[self.parent@[self.root@[x]] as int] == self.root@[self.root@[x]]);
    }

    /// Every element alone in its class.
    pub fn new(n: usize) -> (uf: UnionFind)
        ensures
            uf.wf(),
            uf.size() == n,
            uf.roots().len() == n,
            forall|i: int| 0 <= i < n ==> #[trigger] uf.roots()[i] == i,
    {
        let mut parent: Vec<usize> = Vec::new();
        let mut i: usize = 0;
        while i < n
            invariant
                i <= n,
                parent@.len() == i,
                forall|x: int| 0 <= x < i ==> #[trigger] parent@[x] == x,
            decreases n - i,
        {
            parent.push(i);
            i = i + 1;
        }
        UnionFind {
            parent,
            root: Ghost(Seq::new(n as nat, |x: int| x)),
            rank: Ghost(Seq::new(n as nat, |x: int| 0nat)),
            top: Ghost(0nat),
        }
    }

    /// The representative of `i`'s class; every element on the way is
    /// re-linked straight to it.
    pub fn find(&mut self, i: usize) -> (r: usize)
        requires
            old(self).wf(),
            i < old(self).size(),
        ensures
            final(self).wf(),
            final(self).size() == old(self).size(),
            final(self).roots() == old(self).roots(),
            r == old(self).roots()[i as int],
    {
        let mut r = i;
        while self.parent[r] != r
            invariant
                self.wf(),
                r < self.parent@.len(),
                self.root@[r as int] == self.root@[i as int],
            decreases self.top@ - self.rank@[r as int],
        {
            r = self.parent[r];
        }
        let ghost rt = self.root@;
        let ghost n = self.parent@.len();
        let mut c = i;
        while self.parent[c] != r
            invariant
                self.wf(),
                self.parent@.len() == n,
                self.root@ == rt,
                c < n,
                r < n,
                rt[c as int] == r,
                rt[r as int] == r,
                self.parent@[r as int] == r,
            decreases self.top@ - self.rank@[c as int],
        {
            let next = self.parent[c];
            proof {
                assert(rt[next as int] == r);
                lemma_compress(self.parent@, self.root@, self.rank@, self.top@, c as int);
            }
            self.parent.set(c, r);
            c = next;
        }
        r
    }

    /// Merge the classes of `i` and `j`: `i`'s representative is linked
    /// under `j`'s when they differ.
    pub fn union(&mut self, i: usize, j: usize)
        requires
            old(self).wf(),
            i < old(self).size(),
            j < old(self).size(),
        ensures
            final(self).wf(),
            final(self).size() == old(self).size(),
            final(self).roots().len() == old(self).size(),
            forall|x: int| 0 <= x < old(self).size() ==> #[trigger] final(self).roots()[x] == if old(self).roots()[x]
                == old(self).roots()[i as int] {
                old(self).roots()[j as int]
            } else {
                old(self).roots()[x]
            },
    {
        let ri = self.find(i);
        let rj = self.find(j);
        proof {
            self.lemma_root_fixed(i as int);
            self.lemma_root_fixed(j as int);
        }
        if ri != rj {
            let ghost n = self.parent@.len();
            let ghost rt = self.root@;
            let ghost rk = self.rank@;
            let ghost bumped: nat = if rk[rj as int] > rk[ri as int] { rk[rj as int] } else { rk[ri as int] + 1 };
            proof {
                lemma_link(self.parent@, rt, rk, self.top@, ri as int, rj as int);
            }
            self.parent.set(ri, rj);
            proof {
                self.rank@ = rk.update(rj as int, bumped);
                self.top@ = if bumped > self.top@ { bumped } else { self.top@ };
                self.root@ = Seq::new(n, |x: int| if rt[x] == ri as int { rj as int } else { rt[x] });
            }
        }
    }
}

/// The classes after linking the pairs `close[..m]` in order from singletons:
/// the representative each element ends up with.
pub open spec fn classes_linked(close: Seq<(usize, usize)>, m: int, roots: Seq<int>) -> bool {
    &&& forall|x: int| 0 <= x < roots.len() ==> #[trigger] linked(close.take(m), x, roots[x])
    &&& forall|k: int| 0 <= k < m ==> roots[#[trigger] close[k].0 as int] == roots[close[k].1 as int]
}

/// Some group lists `x` among its members.
pub open spec fn in_some_group(groups: Seq<(usize, Vec<usize>)>, x: int) -> bool {
    exists|g: int| 0 <= g < groups.len() && #[trigger] groups[g].1@.contains(x as usize)
}

/// The clusters of `0..n` that the pairs in `close` join (each pair is two
/// vias found closer than the hole-to-hole rule allows), linked in the order
/// given. Each cluster is listed once as its representative and its members
/// ascending, clusters by representative ascending; two elements share a
/// cluster exactly when a chain of close pairs joins them.
pub fn via_clusters(n: usize, close: &Vec<(usize, usize)>) -> (groups: Vec<(usize, Vec<usize>)>)
    requires
        forall|k: int| 0 <= k < close@.len() ==> #[trigger] close@[k].0 < n && close@[k].1 < n,
    ensures
        forall|a: int, b: int| 0 <= a < b < groups@.len() ==> #[trigger] groups@[a].0 < #[trigger] groups@[b].0,
        forall|g: int| 0 <= g < groups@.len() ==> (#[trigger] groups@[g]).1@.contains(groups@[g].0),
        forall|g: int, a: int, b: int|
            0 <= g < groups@.len() && 0 <= a < b < groups@[g].1@.len() ==> #[trigger] groups@[g].1@[a]
                < #[trigger] groups@[g].1@[b],
        forall|g: int, a: int| 0 <= g < groups@.len() && 0 <= a < groups@[g].1@.len() ==> #[trigger] groups@[g].1@[a] < n,
        forall|x: int| 0 <= x < n ==> #[trigger] in_some_group(groups@, x),
        forall|g: int, h: int, x: usize, y: usize|
            0 <= g < groups@.len() && 0 <= h < groups@.len() && #[trigger] groups@[g].1@.contains(x)
                && #[trigger] groups@[h].1@.contains(y) ==> (g == h <==> linked(close@, x as int, y as int)),
{
    let mut uf = UnionFind::new(n);
    let mut m: usize = 0;
    proof {
        assert forall|x: int| 0 <= x < uf.roots().len() implies #[trigger] linked(close@.take(0), x, uf.roots()[x]) by {
            lemma_linked_refl(close@.take(0), x);
        }
    }
    while m < close.len()
        invariant
            uf.wf(),
            uf.size() == n,
            uf.roots().len() == n,
            m <= close@.len(),
            forall|k: int| 0 <= k < close@.len() ==> #[trigger] close@[k].0 < n && close@[k].1 < n,
            classes_linked(close@, m as int, uf.roots()),
        decreases close@.len() - m,
    {
        let (a, b) = close[m];
        let ghost old_roots = uf.roots();
        uf.union(a, b);
        proof {
            let pre = close@.take(m as int);
            let post = close@.take(m + 1);
            assert(pre == post.take(m as int));
            let ra = old_roots[a as int];
            let rb = old_roots[b as int];
            assert(post[m as int] == (a, b));
            lemma_linked_pair(post, m as int);
            assert(linked(post, a as int, b as int));
            assert(linked(pre, a as int, ra));
            assert(linked(pre, b as int, rb));
            lemma_linked_grow(pre, post, a as int, ra);
            lemma_linked_grow(pre, post, b as int, rb);
            assert forall|x: int| 0 <= x < uf.roots().len() implies #[trigger] linked(post, x, uf.roots()[x]) by {
                assert(linked(pre, x, old_roots[x]));
                lemma_linked_grow(pre, post, x, old_roots[x]);
                if old_roots[x] == ra {
                    // x ~ ra ~ a ~ b ~ rb
                    lemma_linked_symm(post, a as int, ra);
                    lemma_linked_trans(post, x, ra, a as int);
                    lemma_linked_trans(post, x, a as int, b as int);
                    lemma_linked_trans(post, x, b as int, rb);
                }
            }
            assert forall|k: int| 0 <= k < m + 1 implies uf.roots()[#[trigger] close@[k].0 as int] == uf.roots()[close@[k].1
                as int] by {
                if k < m {
                    assert(old_roots[close@[k].0 as int] == old_roots[close@[k].1 as int]);
                }
            }
        }
        m = m + 1;
    }
    proof {
        assert(close@.take(close@.len() as int) == close@);
    }
    let ghost rt = uf.roots();
    let mut reps: Vec<usize> = Vec::new();
    let mut i: usize = 0;
    while i < n
        invariant
            uf.wf(),
            uf.size() == n,
            uf.roots() == rt,
            i <= n,
            reps@.len() == i,
            forall|x: int| 0 <= x < i ==> #[trigger] reps@[x] as int == rt[x],
        decreases n - i,
    {
        let r = uf.find(i);
        reps.push(r);
        i = i + 1;
    }
    proof {
        assert forall|x: int| 0 <= x < n implies 0 <= #[trigger] rt[x] < n && rt[rt[x]] == rt[x] by {
            uf.lemma_root_fixed(x);
        }
    }
    let mut groups: Vec<(usize, Vec<usize>)> = Vec::new();
    let mut x: usize = 0;
    while x < n
        invariant
            x <= n,
            reps@.len() == n,
            forall|y: int| 0 <= y < n ==> #[trigger] reps@[y] as int == rt[y],
            forall|y: int| 0 <= y < n ==> 0 <= #[trigger] rt[y] < n && rt[rt[y]] == rt[y],
            forall|g: int| 0 <= g < groups@.len() ==> #[trigger] groups@[g].0 < x,
            forall|a: int, b: int| 0 <= a < b < groups@.len() ==> #[trigger] groups@[a].0 < #[trigger] groups@[b].0,
            forall|g: int| 0 <= g < groups@.len() ==> rt[(#[trigger] groups@[g]).0 as int] == groups@[g].0,
            forall|g: int, y: usize|
                0 <= g < groups@.len() ==> (#[trigger] groups@[g].1@.contains(y) <==> (y < n && rt[y as int]
                    == groups@[g].0)),
            forall|g: int, a: int, b: int|
                0 <= g < groups@.len() && 0 <= a < b < groups@[g].1@.len() ==> #[trigger] groups@[g].1@[a]
                    < #[trigger] groups@[g].1@[b],
            forall|g: int, a: int| 0 <= g < groups@.len() && 0 <= a < groups@[g].1@.len() ==> #[trigger] groups@[g].1@[a] < n,
            forall|y: int| 0 <= y < n && rt[y] < x ==> exists|g: int| 0 <= g < groups@.len() && #[trigger] groups@[g].0 == rt[y],
        decreases n - x,
    {
        if reps[x] == x {
            let mut members: Vec<usize> = Vec::new();
            let mut y: usize = 0;
            while y < n
                invariant
                    y <= n,
                    x < n,
                    reps@.len() == n,
                    forall|z: int| 0 <= z < n ==> #[trigger] reps@[z] as int == rt[z],
                    forall|z: usize| #[trigger] members@.contains(z) <==> (z < y && rt[z as int] == x),
                    forall|a: int, b: int| 0 <= a < b < members@.len() ==> #[trigger] members@[a] < #[trigger] members@[b],
                    forall|a: int| 0 <= a < members@.len() ==> #[trigger] members@[a] < y,
                decreases n - y,
            {
                if reps[y] == x {
                    let ghost m0 = members@;
                    members.push(y);
                    proof {
                        assert forall|z: usize| #[trigger] members@.contains(z) <==> (z < y + 1 && rt[z as int] == x) by {
                            if z < y && rt[z as int] == x {
                                assert(m0.contains(z));
                                let k = choose|k: int| 0 <= k < m0.len() && m0[k] == z;
                                assert(members@[k] == z);
                            }
                            if members@.contains(z) {
                                let k = choose|k: int| 0 <= k < members@.len() && members@[k] == z;
                                if k < m0.len() {
                                    assert(m0[k] == z);
                                    assert(m0.contains(z));
                                }
                            }
                            if z == y && rt[z as int] == x {
                                assert(members@[m0.len() as int] == z);
                            }
                        }
                    }
                } else {
                    proof {
                        assert forall|z: usize| #[trigger] members@.contains(z) <==> (z < y + 1 && rt[z as int] == x) by {
                            if z == y {
                                assert(!members@.contains(z));
                            }
                        }
                    }
                }
                y = y + 1;
            }
            let ghost g0 = groups@;
            groups.push((x, members));
            proof {
                let gl = g0.len() as int;
                assert(groups@[gl].0 == x);
                assert forall|g: int, y: usize|
                    0 <= g < groups@.len() implies (#[trigger] groups@[g].1@.contains(y) <==> (y < n && rt[y as int]
                        == groups@[g].0)) by {
                    if g < gl {
                        assert(groups@[g] == g0[g]);
                    }
                }
                assert forall|y: int| 0 <= y < n && rt[y] < x + 1 implies exists|g: int|
                    0 <= g < groups@.len() && #[trigger] groups@[g].0 == rt[y] by {
                    if rt[y] < x {
                        let g = choose|g: int| 0 <= g < g0.len() && #[trigger] g0[g].0 == rt[y];
                        assert(groups@[g] == g0[g]);
                    } else {
                        assert(groups@[gl].0 == rt[y]);
                    }
                }
            }
        } else {
            proof {
                assert forall|y: int| 0 <= y < n && rt[y] < x + 1 implies exists|g: int|
                    0 <= g < groups@.len() && #[trigger] groups@[g].0 == rt[y] by {
                    if rt[y] == x {
                        assert(rt[rt[y]] == rt[y]);
                        assert(reps@[x as int] as int == rt[x as int]);
                    }
                }
            }
        }
        x = x + 1;
    }
    proof {
        assert forall|g: int| 0 <= g < groups@.len() implies (#[trigger] groups@[g]).1@.contains(groups@[g].0) by {
            assert(rt[groups@[g].0 as int] == groups@[g].0);
        }
        assert forall|y: int| 0 <= y < n implies #[trigger] in_some_group(groups@, y) by {
            let g = choose|g: int| 0 <= g < groups@.len() && #[trigger] groups@[g].0 == rt[y];
            assert(groups@[g].1@.contains(y as usize));
        }
        assert forall|g: int, h: int, a: usize, b: usize|
            0 <= g < groups@.len() && 0 <= h < groups@.len() && #[trigger] groups@[g].1@.contains(a)
                && #[trigger] groups@[h].1@.contains(b) implies (g == h <==> linked(close@, a as int, b as int)) by {
            assert(linked(close@, a as int, rt[a as int]));
            assert(linked(close@, b as int, rt[b as int]));
            if g == h {
                lemma_linked_symm(close@, b as int, rt[b as int]);
                lemma_linked_trans(close@, a as int, rt[a as int], b as int);
            }
            if linked(close@, a as int, b as int) {
                let w = choose|w: Seq<int>| #[trigger] is_chain(close@, w) && w[0] == a as int && w.last() == b as int;
                lemma_chain_keeps_label(close@, rt, w, w.len() - 1);
                if g != h {
                    if g < h {
                        assert(groups@[g].0 < groups@[h].0);
                    } else {
                        assert(groups@[h].0 < groups@[g].0);
                    }
                }
            }
        }
    }
    groups
}

/// The layer span a merged cluster's surviving barrel must cover, as stackup
/// indices: from the least first layer to the greatest last layer of the
/// members' barrels `spans` (each `(first, last)`); with no member, the
/// whole stack of `layers` copper layers.
pub fn cluster_span(spans: &Vec<(usize, usize)>, layers: usize) -> (r: (usize, usize))
    ensures
        spans@.len() == 0 ==> r == (0usize, if layers == 0 { 0usize } else { (layers - 1) as usize }),
        spans@.len() > 0 ==> exists|m: int| 0 <= m < spans@.len() && (#[trigger] spans@[m]).0 == r.0,
        spans@.len() > 0 ==> exists|m: int| 0 <= m < spans@.len() && (#[trigger] spans@[m]).1 == r.1,
        forall|m: int| 0 <= m < spans@.len() ==> r.0 <= (#[trigger] spans@[m]).0 && spans@[m].1 <= r.1,
{
    if spans.len() == 0 {
        return (0, if layers == 0 { 0 } else { layers - 1 });
    }
    let mut lo = spans[0].0;
    let mut hi = spans[0].1;
    let mut m: usize = 1;
    while m < spans.len()
        invariant
            1 <= m <= spans@.len(),
            exists|x: int| 0 <= x < m && (#[trigger] spans@[x]).0 == lo,
            exists|x: int| 0 <= x < m && (#[trigger] spans@[x]).1 == hi,
            forall|x: int| 0 <= x < m ==> lo <= (#[trigger] spans@[x]).0 && spans@[x].1 <= hi,
        decreases spans@.len() - m,
    {
        if spans[m].0 < lo {
            lo = spans[m].0;
        }
        if spans[m].1 > hi {
            hi = spans[m].1;
        }
        m = m + 1;
    }
    (lo, hi)
}

/// The layers of the span `lo..=hi` that a survivor whose own barrel spans
/// `own_lo..=own_hi` would newly occupy, in stackup order.
pub fn new_layers(lo: usize, hi: usize, own_lo: usize, own_hi: usize) -> (r: Vec<usize>)
    ensures
        forall|a: int, b: int| 0 <= a < b < r@.len() ==> r@[a] < r@[b],
        forall|x: int| 0 <= x < r@.len() ==> lo <= #[trigger] r@[x] <= hi && (r@[x] < own_lo || r@[x] > own_hi),
        forall|li: usize| lo <= li <= hi && (li < own_lo || li > own_hi) ==> #[trigger] r@.contains(li),
{
    let mut r: Vec<usize> = Vec::new();
    if lo > hi {
        return r;
    }
    let mut li = lo;
    loop
        invariant
            lo <= li <= hi,
            forall|a: int, b: int| 0 <= a < b < r@.len() ==> r@[a] < r@[b],
            forall|x: int| 0 <= x < r@.len() ==> lo <= #[trigger] r@[x] < li && (r@[x] < own_lo || r@[x] > own_hi),
            forall|l: usize| lo <= l < li && (l < own_lo || l > own_hi) ==> #[trigger] r@.contains(l),
        decreases hi - li,
    {
        if li < own_lo || li > own_hi {
            let ghost r0 = r@;
            r.push(li);
            proof {
                assert forall|l: usize| lo <= l < li + 1 && (l < own_lo || l > own_hi) implies #[trigger] r@.contains(l) by {
                    if l < li {
                        assert(r0.contains(l));
                        let x = choose|x: int| 0 <= x < r0.len() && r0[x] == l;
                        assert(r@[x] == l);
                    } else {
                        assert(r@[r@.len() - 1] == l);
                    }
                }
            }
        }
        if li == hi {
            proof {
                assert forall|l: usize| lo <= l <= hi && (l < own_lo || l > own_hi) implies #[trigger] r@.contains(l) by {
                    if l < li {
                        assert(r@.contains(l));
                    } else {
                        assert(l == li);
                        assert(r@[r@.len() - 1] == l);
                    }
                }
            }
            return r;
        }
        li = li + 1;
    }
}

} // verus!
