//! Graph data structure implemented as a growable adjacency matrix.

use vstd::prelude::*;
use super::contract::{FromGraph, StaticGraph};
use super::model::{
    canonical, lemma_pairs_below, lemma_pairs_below_monotone, pairs_below, GraphView,
};

verus! {

/// An undirected simple graph that holds one flag for each pair of its
/// vertices, in an array for the lower triangle of the adjacency matrix
/// alone. The array doubles its capacity when a vertex beyond it is
/// inserted. Vertices and edges cannot be removed.
///
/// Querying edges is its strength; enumerating neighbours goes through
/// every edge.
#[derive(Debug, Clone)]
pub struct GrowableAdjMatrix {
    adj: Vec<bool>,
    n: usize,
    cap: usize,
}

/// The place of the pair `(u, v)`, with `v < u`, in the array.
pub open spec fn triangle_index(u: usize, v: usize) -> nat {
    pairs_below(u as nat) + v as nat
}

/// The capacity after doubling `cap` until it exceeds `m`.
pub open spec fn grown_capacity(cap: nat, m: nat) -> nat
    decreases (if cap > m { 0 } else { m + 1 - cap }),
{
    if cap == 0 || cap > m {
        cap
    } else {
        grown_capacity(2 * cap, m)
    }
}

/// The pairs below `cap` have their places below `pairs_below(cap)`, and
/// no two of them share one.
pub proof fn lemma_triangle_index(cap: nat, u: usize, v: usize, a: usize, b: usize)
    requires
        v < u < cap,
        b < a < cap,
    ensures
        triangle_index(u, v) < pairs_below(cap),
        triangle_index(u, v) == triangle_index(a, b) ==> u == a && v == b,
{
    lemma_pairs_below_monotone((u + 1) as nat, cap);
    if u < a {
        lemma_pairs_below_monotone((u + 1) as nat, a as nat);
    } else if a < u {
        lemma_pairs_below_monotone((a + 1) as nat, u as nat);
    }
}

/// Doubling never shrinks a capacity, and leaves one that exceeds `m`.
pub proof fn lemma_grown_capacity(cap: nat, m: nat)
    requires
        cap >= 1,
    ensures
        grown_capacity(cap, m) >= cap,
        grown_capacity(cap, m) > m,
        cap <= m ==> grown_capacity(cap, m) == grown_capacity(2 * cap, m),
    decreases (if cap > m { 0 } else { m + 1 - cap }),
{
    if cap <= m {
        lemma_grown_capacity(2 * cap, m);
    }
}

impl View for GrowableAdjMatrix {
    type V = GraphView;

    closed spec fn view(&self) -> GraphView {
        GraphView {
            order: self.n as nat,
            edges: Set::new(
                |e: (usize, usize)|
                    e.0 < e.1 < self.cap && self.adj@[triangle_index(e.1, e.0) as int],
            ),
        }
    }
}

impl GrowableAdjMatrix {
    /// The number of vertices that the array has room for.
    pub closed spec fn spec_capacity(&self) -> nat {
        self.cap as nat
    }

    /// The capacity is at least one and holds every vertex; the array has
    /// room for the pairs below the capacity and one spare row; and a
    /// flag is set only for a pair of vertices.
    pub closed spec fn matrix_wf(&self) -> bool {
        &&& 1 <= self.cap
        &&& self.n <= self.cap
        &&& self.cap * (self.cap + 1) <= usize::MAX
        &&& self.adj@.len() == pairs_below((self.cap + 1) as nat)
        &&& forall|u: usize, v: usize|
            v < u <= self.cap && #[trigger] self.adj@[triangle_index(u, v) as int] ==> u < self.n
    }

    /// Constructs a new graph with room for 256 vertices, all of which
    /// exist from the start.
    pub fn new() -> (g: Self)
        ensures
            g.wf(),
            g@ == GraphView::empty(256),
            g.spec_capacity() == 256,
    {
        assert(Self::capacity_fits(256));
        Self::with_capacity(256)
    }

    /// Returns the index into the adjacency array of the pair `{u, v}`.
    fn get_idx(u: usize, v: usize) -> (idx: usize)
        requires
            u != v,
            u * u <= usize::MAX,
            v * v <= usize::MAX,
        ensures
            idx == if u < v {
                triangle_index(v, u)
            } else {
                triangle_index(u, v)
            },
    {
        let (hi, lo) = if u < v {
            (v, u)
        } else {
            (u, v)
        };
        proof {
            lemma_pairs_below(hi as nat);
            assert(hi * (hi - 1) <= hi * hi) by (nonlinear_arith)
                requires
                    hi >= 1,
            ;
            assert(hi * (hi - 1) + 2 * hi <= 2 * (hi * hi)) by (nonlinear_arith)
                requires
                    hi >= 1,
            ;
        }
        hi * (hi - 1) / 2 + lo
    }

    /// Returns the size of the array that holds `n` vertices.
    fn get_size(n: usize) -> (size: usize)
        requires
            n * (n + 1) <= usize::MAX,
        ensures
            size == pairs_below((n + 1) as nat),
    {
        proof {
            lemma_pairs_below((n + 1) as nat);
            assert((n + 1) * (n + 1 - 1) == n * (n + 1)) by (nonlinear_arith);
        }
        n * (n + 1) / 2
    }

    /// Resizes the array to hold `n` vertices, unless it holds more.
    fn resize(&mut self, n: usize)
        requires
            old(self).matrix_wf(),
            n * (n + 1) <= usize::MAX,
        ensures
            final(self).matrix_wf(),
            final(self)@ == old(self)@,
            final(self).cap == if n < old(self).cap {
                old(self).cap
            } else {
                n
            },
    {
        let new_size = Self::get_size(n);
        if n < self.cap {
            return;
        }
        let ghost before = *self;
        proof {
            lemma_pairs_below_monotone((before.cap + 1) as nat, (n + 1) as nat);
        }
        self.adj.resize(new_size, false);
        self.cap = n;
        proof {
            assert forall|i: int| 0 <= i < before.adj@.len() implies self.adj@[i] == before.adj@[i] by {
                assert(self.adj@.subrange(0, before.adj@.len() as int)[i] == self.adj@[i]);
            }
            assert forall|u: usize, v: usize| v < u <= self.cap implies (#[trigger] self.adj@[triangle_index(
                u,
                v,
            ) as int] == (u <= before.cap && before.adj@[triangle_index(u, v) as int])) by {
                lemma_triangle_index((self.cap + 1) as nat, u, v, u, v);
                if u <= before.cap {
                    lemma_triangle_index((before.cap + 1) as nat, u, v, u, v);
                } else {
                    lemma_pairs_below_monotone((before.cap + 1) as nat, u as nat);
                }
            }
            assert(self@.edges =~= before@.edges);
        }
    }

    /// Returns the number of vertices that the graph has room for before
    /// it grows.
    pub fn capacity(&self) -> (cap: usize)
        ensures
            cap == self.spec_capacity(),
    {
        self.cap
    }

    /// The square of a vertex below the capacity fits into `usize`.
    proof fn lemma_square_fits(&self, u: usize)
        requires
            self.matrix_wf(),
            u < self.cap,
        ensures
            u * u <= usize::MAX,
    {
        assert(u * u <= self.cap * (self.cap + 1)) by (nonlinear_arith)
            requires
                u < self.cap,
        ;
    }
}

impl StaticGraph for GrowableAdjMatrix {
    closed spec fn wf(&self) -> bool {
        self.matrix_wf()
    }

    open spec fn capacity_fits(n: usize) -> bool {
        n * (n + 1) <= usize::MAX
    }

    open spec fn edge_fits(&self, u: usize, v: usize) -> bool {
        let hi = if u < v { v } else { u };
        let cap = grown_capacity(self.spec_capacity(), hi as nat);
        u == v || cap * (cap + 1) <= usize::MAX
    }

    open spec fn stores(&self, u: usize, v: usize) -> bool {
        true
    }

    proof fn lemma_view_wf(&self) {
    }

    proof fn lemma_within_order(&self, u: usize, v: usize) {
        assert(self.stores(u, v));
        let hi = if u < v { v } else { u };
        assert(grown_capacity(self.spec_capacity(), hi as nat) == self.cap);
        assert(self.edge_fits(u, v));
    }

    /// The capacity is `n`, and 1 where `n` is 0.
    fn with_capacity(n: usize) -> (g: Self)
        ensures
            g.spec_capacity() == if n == 0 { 1 } else { n as nat },
    {
        assert(Self::capacity_fits(n));
        let cap = if n < 1 {
            1
        } else {
            n
        };
        let size = Self::get_size(cap);
        let g = Self { adj: vec![false; size], n, cap };
        proof {
            assert(g@.edges =~= Set::<(usize, usize)>::empty()) by {
                assert forall|e: (usize, usize)| !g@.edges.contains(e) by {
                    if e.0 < e.1 < g.cap {
                        lemma_triangle_index((g.cap + 1) as nat, e.1, e.0, e.1, e.0);
                    }
                }
            }
            assert forall|u: usize, v: usize|
                v < u <= g.cap && #[trigger] g.adj@[triangle_index(u, v) as int] implies u < g.n by {
                lemma_triangle_index((g.cap + 1) as nat, u, v, u, v);
            }
        }
        g
    }

    fn has_edge(&self, u: usize, v: usize) -> (b: bool) {
        if u == v || u >= self.cap || v >= self.cap {
            return false;
        }
        proof {
            self.lemma_square_fits(u);
            self.lemma_square_fits(v);
            let hi = if u < v { v } else { u };
            let lo = if u < v { u } else { v };
            lemma_triangle_index((self.cap + 1) as nat, hi, lo, hi, lo);
        }
        let idx = Self::get_idx(u, v);
        if idx >= self.adj.len() {
            return false;
        }
        self.adj[idx]
    }

    /// The capacity doubles until it exceeds both vertices.
    fn add_edge(&mut self, u: usize, v: usize)
        ensures
            final(self).spec_capacity() == if u == v {
                old(self).spec_capacity()
            } else {
                grown_capacity(old(self).spec_capacity(), (if u < v { v } else { u }) as nat)
            },
    {
        assert(old(self).stores(u, v));
        if u == v {
            return;
        }
        let ghost before = *self;
        let ghost hi = if u < v { v } else { u };
        let ghost lo = if u < v { u } else { v };
        let ghost target = grown_capacity(before.cap as nat, hi as nat);
        assert(old(self).edge_fits(u, v) ==> target * (target + 1) <= usize::MAX);
        proof {
            lemma_grown_capacity(before.cap as nat, hi as nat);
        }
        while u >= self.cap || v >= self.cap
            invariant
                self.matrix_wf(),
                self@ == before@,
                hi == if u < v { v } else { u },
                target == grown_capacity(self.cap as nat, hi as nat),
                target * (target + 1) <= usize::MAX,
                target > hi,
            decreases (if self.cap > hi { 0 } else { hi + 1 - self.cap }),
        {
            proof {
                lemma_grown_capacity(self.cap as nat, hi as nat);
                lemma_grown_capacity(2 * self.cap as nat, hi as nat);
                assert((2 * self.cap) * (2 * self.cap + 1) <= target * (target + 1)) by (nonlinear_arith)
                    requires
                        2 * self.cap <= target,
                ;
                assert(target <= target * (target + 1)) by (nonlinear_arith);
            }
            let size = 2 * self.cap;
            self.resize(size);
        }
        let ghost grown = *self;
        if self.n < u + 1 {
            self.n = u + 1;
        }
        if self.n < v + 1 {
            self.n = v + 1;
        }
        proof {
            self.lemma_square_fits(u);
            self.lemma_square_fits(v);
            lemma_triangle_index((self.cap + 1) as nat, hi, lo, hi, lo);
        }
        let idx1 = Self::get_idx(u, v);
        let idx2 = Self::get_idx(v, u);
        self.adj[idx1] = true;
        self.adj[idx2] = true;
        proof {
            assert forall|a: usize, b: usize| b < a <= self.cap implies (#[trigger] self.adj@[triangle_index(
                a,
                b,
            ) as int] == (grown.adj@[triangle_index(a, b) as int] || (a == hi && b == lo))) by {
                lemma_triangle_index((self.cap + 1) as nat, a, b, hi, lo);
            }
            assert forall|e: (usize, usize)|
                self@.edges.contains(e) <==> before@.edges.insert(canonical(u, v)).contains(e) by {
                if e.0 < e.1 < self.cap {
                    assert(self.adj@[triangle_index(e.1, e.0) as int] == (grown.adj@[triangle_index(
                        e.1,
                        e.0,
                    ) as int] || (e.1 == hi && e.0 == lo)));
                }
            }
            assert(self@.edges =~= before@.edges.insert(canonical(u, v)));
        }
    }

    fn edges(&self) -> (es: Vec<(usize, usize)>) {
        let mut es: Vec<(usize, usize)> = Vec::new();
        let mut i: usize = 0;
        let mut u: usize = 0;
        while u < self.cap
            invariant
                self.matrix_wf(),
                u <= self.cap,
                i == pairs_below(u as nat),
                forall|t: int| 0 <= t < es@.len() ==> self@.edges.contains(#[trigger] es@[t]) && es@[t].1 < u,
                forall|s: int, t: int| 0 <= s < t < es@.len() ==> es@[s] != es@[t],
                forall|e: (usize, usize)| self@.edges.contains(e) && e.1 < u ==> es@.contains(e),
            decreases self.cap - u,
        {
            let mut v: usize = 0;
            while v < u
                invariant
                    self.matrix_wf(),
                    u < self.cap,
                    v <= u,
                    i == pairs_below(u as nat) + v,
                    forall|t: int|
                        0 <= t < es@.len() ==> self@.edges.contains(#[trigger] es@[t]) && (es@[t].1 < u || (
                        es@[t].1 == u && es@[t].0 < v)),
                    forall|s: int, t: int| 0 <= s < t < es@.len() ==> es@[s] != es@[t],
                    forall|e: (usize, usize)|
                        self@.edges.contains(e) && (e.1 < u || (e.1 == u && e.0 < v)) ==> es@.contains(e),
                decreases u - v,
            {
                proof {
                    lemma_triangle_index((self.cap + 1) as nat, u, v, u, v);
                }
                let ghost prev = es@;
                if self.adj[i] {
                    es.push((v, u));
                    proof {
                        assert(es@[prev.len() as int] == (v, u));
                    }
                }
                proof {
                    assert forall|e: (usize, usize)|
                        self@.edges.contains(e) && (e.1 < u || (e.1 == u && e.0 < v + 1)) implies es@.contains(
                        e,
                    ) by {
                        if e.1 == u && e.0 == v {
                            assert(es@[prev.len() as int] == e);
                        } else {
                            assert(prev.contains(e));
                            let t = choose|t: int| 0 <= t < prev.len() && prev[t] == e;
                            assert(es@[t] == e);
                        }
                    }
                }
                proof {
                    lemma_pairs_below_monotone((u + 1) as nat, (self.cap + 1) as nat);
                    assert(self.adj.len() <= usize::MAX);
                }
                v += 1;
                i += 1;
            }
            u += 1;
        }
        proof {
            assert(es@.to_set() =~= self@.edges);
        }
        es
    }

    fn num_vertices(&self) -> (n: usize) {
        self.n
    }

    fn neighbors(&self, v: usize) -> (ns: Vec<usize>) {
        let es = self.edges();
        let mut ns: Vec<usize> = Vec::new();
        let ghost mut from: Seq<int> = Seq::empty();
        let mut i: usize = 0;
        while i < es.len()
            invariant
                self@.wf(),
                i <= es@.len(),
                es@.no_duplicates(),
                es@.to_set() == self@.edges,
                from.len() == ns@.len(),
                forall|t: int|
                    0 <= t < ns@.len() ==> 0 <= #[trigger] from[t] < i && es@[from[t]] == canonical(
                        ns@[t],
                        v,
                    ) && ns@[t] != v,
                forall|s: int, t: int| 0 <= s < t < from.len() ==> from[s] < from[t],
                forall|j: int|
                    0 <= j < i && ((#[trigger] es@[j]).0 == v || es@[j].1 == v) ==> ns@.contains(
                        if es@[j].0 == v {
                            es@[j].1
                        } else {
                            es@[j].0
                        },
                    ),
            decreases es.len() - i,
        {
            let (a, b) = es[i];
            let ghost prev = ns@;
            proof {
                assert(es@.to_set().contains(es@[i as int]));
            }
            if a == v || b == v {
                let other = if a == v {
                    b
                } else {
                    a
                };
                ns.push(other);
                proof {
                    from = from.push(i as int);
                    assert(ns@[prev.len() as int] == other);
                }
            }
            proof {
                assert forall|j: int|
                    0 <= j < i + 1 && ((#[trigger] es@[j]).0 == v || es@[j].1 == v) implies ns@.contains(
                    if es@[j].0 == v {
                        es@[j].1
                    } else {
                        es@[j].0
                    },
                ) by {
                    let x = if es@[j].0 == v {
                        es@[j].1
                    } else {
                        es@[j].0
                    };
                    if j < i {
                        assert(prev.contains(x));
                        let t = choose|t: int| 0 <= t < prev.len() && prev[t] == x;
                        assert(ns@[t] == x);
                    } else {
                        assert(ns@[prev.len() as int] == x);
                    }
                }
            }
            i += 1;
        }
        proof {
            assert forall|s: int, t: int| 0 <= s < t < ns@.len() implies ns@[s] != ns@[t] by {
                assert(from[s] < from[t]);
            }
            assert forall|u: usize| ns@.to_set().contains(u) <==> self@.neighbors(v).contains(u) by {
                if ns@.contains(u) {
                    let t = choose|t: int| 0 <= t < ns@.len() && ns@[t] == u;
                    assert(es@.to_set().contains(es@[from[t]]));
                }
                if self@.adjacent(u, v) {
                    self@.lemma_adjacent(u, v);
                    assert(es@.to_set().contains(canonical(u, v)));
                    let j = choose|j: int| 0 <= j < es@.len() && es@[j] == canonical(u, v);
                    assert(es@[j].0 == v || es@[j].1 == v);
                }
            }
            assert(ns@.to_set() =~= self@.neighbors(v));
        }
        ns
    }
}

impl FromGraph for GrowableAdjMatrix {
    /// The graph built has the vertices and the edges of `graph`.
    fn from_graph<G: StaticGraph>(graph: &G) -> (g: Self)
        ensures
            g@ == graph@,
    {
        let mut g = Self::with_capacity(graph.num_vertices());
        let es = graph.edges();
        proof {
            graph.lemma_view_wf();
        }
        let mut i: usize = 0;
        while i < es.len()
            invariant
                i <= es@.len(),
                g.wf(),
                graph@.wf(),
                es@.to_set() == graph@.edges,
                g@.edges == es@.take(i as int).to_set(),
                g@.order == graph@.order,
            decreases es.len() - i,
        {
            let (u, v) = es[i];
            proof {
                assert(es@.to_set().contains(es@[i as int]));
                assert(es@.take(i + 1) =~= es@.take(i as int).push(es@[i as int]));
                es@.take(i as int).lemma_push_to_set_commute(es@[i as int]);
                g.lemma_within_order(u, v);
            }
            g.add_edge(u, v);
            i += 1;
        }
        proof {
            assert(es@.take(es@.len() as int) =~= es@);
        }
        g
    }
}

} // verus!
