//! Graph data structure implemented as an adjacency matrix of fixed size.

use vstd::prelude::*;
use super::contract::{FromGraph, StaticGraph};
use super::model::{canonical, GraphView};
use super::unique::distinct_edges;

verus! {

/// An undirected simple graph that holds one flag for each ordered pair
/// of its vertices. The number of vertices is fixed when the graph is
/// made: an edge to a vertex beyond it is dropped. Edges cannot be
/// removed.
#[derive(Debug, Clone)]
pub struct AdjMatrix {
    adj: Vec<bool>,
    n: usize,
}

/// The place of the pair `(u, v)` in a matrix with rows of length `n`.
pub open spec fn cell(n: usize, u: usize, v: usize) -> int {
    v * n + u
}

/// The cells of a matrix with `n` rows of length `n` lie below `n * n`,
/// and no two pairs share one.
pub proof fn lemma_cell(n: usize, u: usize, v: usize, a: usize, b: usize)
    requires
        u < n,
        v < n,
        a < n,
        b < n,
    ensures
        0 <= cell(n, u, v) < n * n,
        cell(n, u, v) == cell(n, a, b) ==> u == a && v == b,
{
    assert(v * n + n <= n * n) by (nonlinear_arith)
        requires
            v < n,
    ;
    if v < b {
        assert(v * n + n <= b * n) by (nonlinear_arith)
            requires
                v < b,
        ;
    } else if b < v {
        assert(b * n + n <= v * n) by (nonlinear_arith)
            requires
                b < v,
        ;
    }
}

impl View for AdjMatrix {
    type V = GraphView;

    closed spec fn view(&self) -> GraphView {
        GraphView {
            order: self.n as nat,
            edges: Set::new(
                |e: (usize, usize)| e.0 < e.1 < self.n && self.adj@[cell(self.n, e.0, e.1)],
            ),
        }
    }
}

impl AdjMatrix {
    /// The matrix is square and symmetric, and its diagonal is clear.
    pub closed spec fn matrix_wf(&self) -> bool {
        &&& self.adj@.len() == self.n * self.n
        &&& forall|u: usize, v: usize|
            u < self.n && v < self.n ==> #[trigger] self.adj@[cell(self.n, u, v)] == self.adj@[cell(
                self.n,
                v,
                u,
            )]
        &&& forall|u: usize| u < self.n ==> !#[trigger] self.adj@[cell(self.n, u, u)]
    }

    /// Returns the index into the adjacency array of the pair `(u, v)`.
    fn get_idx(&self, u: usize, v: usize) -> (idx: usize)
        requires
            self.matrix_wf(),
            u < self.n,
            v < self.n,
        ensures
            idx == cell(self.n, u, v),
            idx < self.adj@.len(),
    {
        proof {
            lemma_cell(self.n, u, v, u, v);
            assert(v * self.n <= cell(self.n, u, v));
            assert(self.adj.len() <= usize::MAX);
        }
        v * self.n + u
    }

    /// Two vertices are adjacent exactly if their cell is set.
    proof fn lemma_adjacent_cell(&self, u: usize, v: usize)
        requires
            self.matrix_wf(),
        ensures
            self@.adjacent(u, v) <==> u < self.n && v < self.n && self.adj@[cell(self.n, u, v)],
    {
        if u < self.n && v < self.n {
            assert(self.adj@[cell(self.n, u, v)] == self.adj@[cell(self.n, v, u)]);
            assert(!self.adj@[cell(self.n, u, u)]);
        }
    }
}

impl StaticGraph for AdjMatrix {
    closed spec fn wf(&self) -> bool {
        self.matrix_wf()
    }

    open spec fn capacity_fits(n: usize) -> bool {
        n * n <= usize::MAX
    }

    open spec fn edge_fits(&self, u: usize, v: usize) -> bool {
        true
    }

    open spec fn stores(&self, u: usize, v: usize) -> bool {
        u < self@.order && v < self@.order
    }

    proof fn lemma_view_wf(&self) {
    }

    proof fn lemma_within_order(&self, u: usize, v: usize) {
        assert(self.stores(u, v));
        assert(self.edge_fits(u, v));
    }

    fn with_capacity(n: usize) -> (g: Self) {
        assert(Self::capacity_fits(n));
        let g = Self { adj: vec![false; n * n], n: n };
        proof {
            assert forall|u: usize, v: usize| u < n && v < n implies #[trigger] g.adj@[cell(n, u, v)]
                == g.adj@[cell(n, v, u)] by {
                lemma_cell(n, u, v, v, u);
                lemma_cell(n, v, u, u, v);
            }
            assert forall|u: usize| u < n implies !#[trigger] g.adj@[cell(n, u, u)] by {
                lemma_cell(n, u, u, u, u);
            }
            assert forall|e: (usize, usize)| !g@.edges.contains(e) by {
                if e.0 < e.1 < n {
                    lemma_cell(n, e.0, e.1, e.0, e.1);
                }
            }
            assert(g@.edges =~= Set::<(usize, usize)>::empty());
        }
        g
    }

    fn has_edge(&self, u: usize, v: usize) -> (b: bool) {
        proof {
            self.lemma_adjacent_cell(u, v);
        }
        if u >= self.n || v >= self.n {
            return false;
        }
        let idx = self.get_idx(u, v);
        self.adj[idx]
    }

    fn add_edge(&mut self, u: usize, v: usize) {
        assert(old(self).stores(u, v) <==> u < old(self).n && v < old(self).n);
        if u == v || u >= self.n || v >= self.n {
            return;
        }
        let ghost before = *self;
        let idx1 = self.get_idx(u, v);
        let idx2 = self.get_idx(v, u);
        self.adj[idx1] = true;
        self.adj[idx2] = true;
        proof {
            let n = self.n;
            assert forall|a: usize, b: usize| a < n && b < n implies (#[trigger] self.adj@[cell(n, a, b)]
                == (before.adj@[cell(n, a, b)] || (a == u && b == v) || (a == v && b == u))) by {
                lemma_cell(n, a, b, u, v);
                lemma_cell(n, a, b, v, u);
            }
            assert forall|a: usize, b: usize| a < n && b < n implies #[trigger] self.adj@[cell(n, a, b)]
                == self.adj@[cell(n, b, a)] by {
                assert(before.adj@[cell(n, a, b)] == before.adj@[cell(n, b, a)]);
                assert(self.adj@[cell(n, b, a)] == (before.adj@[cell(n, b, a)] || (b == u && a == v) || (
                b == v && a == u)));
            }
            assert forall|a: usize| a < n implies !#[trigger] self.adj@[cell(n, a, a)] by {
                assert(!before.adj@[cell(n, a, a)]);
            }
            assert forall|e: (usize, usize)|
                self@.edges.contains(e) <==> before@.edges.insert(canonical(u, v)).contains(e) by {
                if e.0 < e.1 < n {
                    assert(self.adj@[cell(n, e.0, e.1)] == (before.adj@[cell(n, e.0, e.1)] || (e.0 == u
                        && e.1 == v) || (e.0 == v && e.1 == u)));
                }
            }
            assert(self@.edges =~= before@.edges.insert(canonical(u, v)));
        }
    }

    fn edges(&self) -> (es: Vec<(usize, usize)>) {
        let n = self.n;
        let mut all: Vec<(usize, usize)> = Vec::new();
        let mut v: usize = 0;
        while v < n
            invariant
                self.matrix_wf(),
                n == self.n,
                v <= n,
                forall|t: int| 0 <= t < all@.len() ==> self@.edges.contains(#[trigger] all@[t]),
                forall|e: (usize, usize)| self@.edges.contains(e) && e.1 < v ==> all@.contains(e),
            decreases n - v,
        {
            let mut u: usize = 0;
            while u < n
                invariant
                    self.matrix_wf(),
                    n == self.n,
                    v < n,
                    u <= n,
                    forall|t: int| 0 <= t < all@.len() ==> self@.edges.contains(#[trigger] all@[t]),
                    forall|e: (usize, usize)|
                        self@.edges.contains(e) && (e.1 < v || (e.1 == v && e.0 < u)) ==> all@.contains(
                            e,
                        ),
                decreases n - u,
            {
                let idx = self.get_idx(u, v);
                let ghost prev = all@;
                if self.adj[idx] {
                    proof {
                        self.lemma_adjacent_cell(u, v);
                    }
                    if v > u {
                        all.push((u, v));
                    } else {
                        all.push((v, u));
                    }
                    proof {
                        assert(all@[prev.len() as int] == canonical(u, v));
                    }
                }
                proof {
                    assert forall|e: (usize, usize)|
                        self@.edges.contains(e) && (e.1 < v || (e.1 == v && e.0 < u + 1)) implies all@.contains(
                        e,
                    ) by {
                        if e.1 == v && e.0 == u {
                            assert(all@[prev.len() as int] == e);
                        } else {
                            assert(prev.contains(e));
                            let t = choose|t: int| 0 <= t < prev.len() && prev[t] == e;
                            assert(all@[t] == e);
                        }
                    }
                }
                u += 1;
            }
            v += 1;
        }
        proof {
            assert(all@.to_set() =~= self@.edges);
        }
        distinct_edges(all)
    }

    fn num_vertices(&self) -> (n: usize) {
        self.n
    }

    fn neighbors(&self, v: usize) -> (ns: Vec<usize>) {
        let n = self.n;
        let mut ns: Vec<usize> = Vec::new();
        if v < n {
            let mut i: usize = 0;
            while i < n
                invariant
                    self.matrix_wf(),
                    n == self.n,
                    v < n,
                    i <= n,
                    forall|t: int| 0 <= t < ns@.len() ==> #[trigger] ns@[t] < i && self@.adjacent(ns@[t], v),
                    forall|s: int, t: int| 0 <= s < t < ns@.len() ==> ns@[s] < ns@[t],
                    forall|u: usize| u < i && self@.adjacent(u, v) ==> ns@.contains(u),
                decreases n - i,
            {
                let idx = self.get_idx(i, v);
                let ghost prev = ns@;
                proof {
                    self.lemma_adjacent_cell(i, v);
                }
                if self.adj[idx] {
                    ns.push(i);
                    proof {
                        assert(ns@[prev.len() as int] == i);
                    }
                }
                proof {
                    assert forall|u: usize| u < i + 1 && self@.adjacent(u, v) implies ns@.contains(u) by {
                        if u < i {
                            assert(prev.contains(u));
                            let t = choose|t: int| 0 <= t < prev.len() && prev[t] == u;
                            assert(ns@[t] == u);
                        }
                    }
                }
                i += 1;
            }
        }
        proof {
            assert forall|u: usize| ns@.to_set().contains(u) <==> self@.neighbors(v).contains(u) by {
                self.lemma_adjacent_cell(u, v);
                if ns@.contains(u) {
                    let t = choose|t: int| 0 <= t < ns@.len() && ns@[t] == u;
                    assert(self@.adjacent(ns@[t], v));
                }
            }
            assert(ns@.to_set() =~= self@.neighbors(v));
        }
        ns
    }
}

impl FromGraph for AdjMatrix {
    /// The graph built has the vertices and the edges of `graph`.
    fn from_graph<G: StaticGraph>(graph: &G) -> (g: Self)
        ensures
            g@ == graph@,
    {
        let mut g = Self::with_capacity(graph.num_vertices());
        let es = graph.edges();
        proof {
            graph.lemma_view_wf();
        }
        let mut i: usize = 0;
        while i < es.len()
            invariant
                i <= es@.len(),
                g.wf(),
                graph@.wf(),
                es@.to_set() == graph@.edges,
                g@.edges == es@.take(i as int).to_set(),
                g@.order == graph@.order,
            decreases es.len() - i,
        {
            let (u, v) = es[i];
            proof {
                assert(es@.to_set().contains(es@[i as int]));
                assert(es@.take(i + 1) =~= es@.take(i as int).push(es@[i as int]));
                es@.take(i as int).lemma_push_to_set_commute(es@[i as int]);
                g.lemma_within_order(u, v);
            }
            g.add_edge(u, v);
            i += 1;
        }
        proof {
            assert(es@.take(es@.len() as int) =~= es@);
        }
        g
    }
}

} // verus!
