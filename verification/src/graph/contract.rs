//! The contract that every graph representation satisfies.

use vstd::prelude::*;
use super::model::GraphView;
use super::chance::{certain, draw, impossible};

verus! {

/// The pairs `(a, b)` with `a < b < n` that come before `(u, v)` when the
/// pairs are taken row by row.
pub open spec fn pairs_before(n: usize, u: usize, v: usize) -> Set<(usize, usize)> {
    Set::new(|e: (usize, usize)| e.0 < e.1 < n && (e.0 < u || (e.0 == u && e.1 < v)))
}

/// An undirected simple graph that grows by edge insertion only.
///
/// Vertices are the dense range `0..num_vertices()`: inserting an edge
/// brings every vertex up to its larger endpoint into existence. What a
/// graph holds is its view, a [`GraphView`].
pub trait StaticGraph: Sized + View<V = GraphView> {
    /// The representation invariant.
    spec fn wf(&self) -> bool;

    /// Whether the storage for a graph pre-sized for `n` vertices can be
    /// described within `usize`.
    spec fn capacity_fits(n: usize) -> bool;

    /// Whether the storage after inserting `{u, v}` can be described
    /// within `usize`.
    spec fn edge_fits(&self, u: usize, v: usize) -> bool;

    /// Whether an edge `{u, v}` is stored when inserted. A representation
    /// of fixed size drops an edge with an endpoint beyond its capacity.
    spec fn stores(&self, u: usize, v: usize) -> bool;

    /// A well-formed representation holds a well-formed graph whose order
    /// is a `usize`.
    proof fn lemma_view_wf(&self)
        requires
            self.wf(),
        ensures
            self@.wf(),
            self@.order <= usize::MAX,
    ;

    /// An edge between two existing vertices always fits and is always stored.
    proof fn lemma_within_order(&self, u: usize, v: usize)
        requires
            self.wf(),
            u < self@.order,
            v < self@.order,
        ensures
            self.edge_fits(u, v),
            self.stores(u, v),
    ;

    /// Constructs a graph with `n` vertices and no edges.
    fn with_capacity(n: usize) -> (g: Self)
        requires
            Self::capacity_fits(n),
        ensures
            g.wf(),
            g@ == GraphView::empty(n as nat),
    ;

    /// Queries whether the edge `{u, v}` exists in the graph.
    fn has_edge(&self, u: usize, v: usize) -> (b: bool)
        requires
            self.wf(),
        ensures
            b == self@.adjacent(u, v),
    ;

    /// Adds the edge `{u, v}` to the graph. Adding a self-loop or an edge
    /// that already exists has no effect.
    fn add_edge(&mut self, u: usize, v: usize)
        requires
            old(self).wf(),
            old(self).edge_fits(u, v),
        ensures
            final(self).wf(),
            final(self)@ == if old(self).stores(u, v) {
                old(self)@.with_edge(u, v)
            } else {
                old(self)@
            },
    ;

    /// Returns every edge of the graph exactly once, smaller endpoint first.
    fn edges(&self) -> (es: Vec<(usize, usize)>)
        requires
            self.wf(),
        ensures
            es@.no_duplicates(),
            es@.to_set() == self@.edges,
    ;

    /// Returns the number of vertices in the graph.
    fn num_vertices(&self) -> (n: usize)
        requires
            self.wf(),
        ensures
            n == self@.order,
    ;

    /// Returns every vertex joined to `v` exactly once; none for a vertex
    /// that does not exist.
    fn neighbors(&self, v: usize) -> (ns: Vec<usize>)
        requires
            self.wf(),
        ensures
            ns@.no_duplicates(),
            ns@.to_set() == self@.neighbors(v),
    ;

    /// Returns the vertices of the graph in increasing order.
    fn vertices(&self) -> (vs: Vec<usize>)
        requires
            self.wf(),
        ensures
            vs@ == Seq::new(self@.order, |i: int| i as usize),
    {
        let n = self.num_vertices();
        let mut vs: Vec<usize> = Vec::new();
        let mut v: usize = 0;
        while v < n
            invariant
                v <= n,
                n == self@.order,
                vs@ == Seq::new(v as nat, |i: int| i as usize),
            decreases n - v,
        {
            vs.push(v);
            v += 1;
            assert(vs@ =~= Seq::new(v as nat, |i: int| i as usize));
        }
        vs
    }

    /// Constructs a random graph with `n` vertices in which each of the
    /// possible edges occurs with probability `numerator / denominator`,
    /// independently of the others.
    fn random(n: usize, numerator: u32, denominator: u32) -> (g: Self)
        requires
            Self::capacity_fits(n),
        ensures
            g.wf(),
            g@.order == n,
            impossible(numerator, denominator) ==> g@ == GraphView::empty(n as nat),
            certain(numerator, denominator) ==> g@ == GraphView::complete(n as nat),
    {
        let mut g = Self::with_capacity(n);
        let ghost sure = certain(numerator, denominator);
        let ghost never = impossible(numerator, denominator);
        let mut u: usize = 0;
        while u < n
            invariant
                u <= n,
                g.wf(),
                g@.order == n,
                sure == certain(numerator, denominator),
                never == impossible(numerator, denominator),
                never ==> g@.edges == Set::<(usize, usize)>::empty(),
                sure ==> g@.edges == pairs_before(n, u, 0),
            decreases n - u,
        {
            let mut v: usize = u + 1;
            assert(pairs_before(n, u, 0) =~= pairs_before(n, u, v));
            while v < n
                invariant
                    u < v <= n,
                    g.wf(),
                    g@.order == n,
                    sure == certain(numerator, denominator),
                    never == impossible(numerator, denominator),
                    never ==> g@.edges == Set::<(usize, usize)>::empty(),
                    sure ==> g@.edges == pairs_before(n, u, v),
                decreases n - v,
            {
                if draw(numerator, denominator) {
                    proof {
                        g.lemma_within_order(u, v);
                    }
                    g.add_edge(u, v);
                    assert(pairs_before(n, u, v).insert((u, v)) =~= pairs_before(
                        n,
                        u,
                        (v + 1) as usize,
                    ));
                }
                v += 1;
            }
            assert(pairs_before(n, u, n) =~= pairs_before(n, (u + 1) as usize, 0));
            u += 1;
        }
        assert(pairs_before(n, n, 0) =~= GraphView::complete(n as nat).edges);
        g
    }

    /// Constructs the complete graph with `n` vertices.
    fn complete(n: usize) -> (g: Self)
        requires
            Self::capacity_fits(n),
        ensures
            g.wf(),
            g@ == GraphView::complete(n as nat),
    {
        let mut g = Self::with_capacity(n);
        let mut u: usize = 0;
        while u < n
            invariant
                u <= n,
                g.wf(),
                g@.order == n,
                g@.edges == pairs_before(n, u, 0),
            decreases n - u,
        {
            let mut v: usize = u + 1;
            assert(pairs_before(n, u, 0) =~= pairs_before(n, u, v));
            while v < n
                invariant
                    u < v <= n,
                    g.wf(),
                    g@.order == n,
                    g@.edges == pairs_before(n, u, v),
                decreases n - v,
            {
                proof {
                    g.lemma_within_order(u, v);
                }
                g.add_edge(u, v);
                assert(pairs_before(n, u, v).insert((u, v)) =~= pairs_before(
                    n,
                    u,
                    (v + 1) as usize,
                ));
                v += 1;
            }
            assert(pairs_before(n, u, n) =~= pairs_before(n, (u + 1) as usize, 0));
            u += 1;
        }
        assert(pairs_before(n, n, 0) =~= GraphView::complete(n as nat).edges);
        g
    }

    /// Returns the maximum degree of any vertex in the graph.
    fn max_degree(&self) -> (d: usize)
        requires
            self.wf(),
        ensures
            d == self@.max_degree(),
    {
        let n = self.num_vertices();
        let mut max: usize = 0;
        let mut u: usize = 0;
        while u < n
            invariant
                self.wf(),
                u <= n,
                n == self@.order,
                max == self@.max_degree_below(u as nat),
            decreases n - u,
        {
            let ns = self.neighbors(u);
            proof {
                ns@.unique_seq_to_set();
            }
            if ns.len() > max {
                max = ns.len();
            }
            u += 1;
        }
        max
    }
}

/// Conversion from any other representation.
pub trait FromGraph: StaticGraph {
    /// Constructs a graph with the edges of `graph`, by replaying its edge
    /// enumeration. A representation may leave out isolated vertices at
    /// the upper end.
    fn from_graph<G: StaticGraph>(graph: &G) -> (g: Self)
        requires
            graph.wf(),
            Self::capacity_fits(graph@.order as usize),
        ensures
            g.wf(),
            g@.edges == graph@.edges,
            g@.order <= graph@.order,
    ;
}

} // verus!
