//! Graph data structure implemented as a set of edges.

use vstd::prelude::*;
use super::contract::{FromGraph, StaticGraph};
use super::edgeset::Graph;
use super::model::GraphView;

verus! {

/// An undirected simple graph that holds its edges in a hash set, beside
/// an index of each vertex's neighbours, and counts its vertices.
/// Vertices and edges cannot be removed.
#[derive(Debug)]
pub struct EdgeList {
    set: Graph,
    n: usize,
}

impl View for EdgeList {
    type V = GraphView;

    closed spec fn view(&self) -> GraphView {
        GraphView { order: self.n as nat, edges: self.set@ }
    }
}

impl EdgeList {
    /// Constructs a new empty graph.
    pub fn new() -> (g: Self)
        ensures
            g.wf(),
            g@ == GraphView::empty(0),
    {
        EdgeList { set: Graph::new(), n: 0 }
    }
}

impl StaticGraph for EdgeList {
    closed spec fn wf(&self) -> bool {
        &&& self.set.wf()
        &&& forall|e: (usize, usize)| #[trigger] self.set@.contains(e) ==> e.0 < e.1 < self.n
    }

    open spec fn capacity_fits(n: usize) -> bool {
        true
    }

    open spec fn edge_fits(&self, u: usize, v: usize) -> bool {
        u == v || (u < usize::MAX && v < usize::MAX)
    }

    open spec fn stores(&self, u: usize, v: usize) -> bool {
        true
    }

    proof fn lemma_view_wf(&self) {
    }

    proof fn lemma_within_order(&self, u: usize, v: usize) {
        assert(self.stores(u, v));
        assert(self.edge_fits(u, v));
    }

    fn with_capacity(n: usize) -> (g: Self) {
        let mut set = Graph::new();
        set.reserve(n);
        EdgeList { set, n }
    }

    fn has_edge(&self, u: usize, v: usize) -> (b: bool) {
        self.set.has_edge(u, v)
    }

    fn add_edge(&mut self, u: usize, v: usize) {
        assert(old(self).edge_fits(u, v));
        assert(old(self).stores(u, v));
        if u == v {
            return;
        }
        if self.n < u + 1 {
            self.n = u + 1;
        }
        if self.n < v + 1 {
            self.n = v + 1;
        }
        self.set.add_edge(u, v);
    }

    fn edges(&self) -> (es: Vec<(usize, usize)>) {
        self.set.edges()
    }

    fn num_vertices(&self) -> (n: usize) {
        self.n
    }

    fn neighbors(&self, v: usize) -> (ns: Vec<usize>) {
        self.set.neighbors(v)
    }
}

impl FromGraph for EdgeList {
    /// The graph built has the edges of `graph` and as many vertices as
    /// they need: isolated vertices above the last edge are left out.
    fn from_graph<G: StaticGraph>(graph: &G) -> (g: Self)
        ensures
            g@.is_span(g@.order),
    {
        let mut g = Self::new();
        let es = graph.edges();
        proof {
            graph.lemma_view_wf();
        }
        let mut i: usize = 0;
        while i < es.len()
            invariant
                i <= es@.len(),
                g.wf(),
                graph@.wf(),
                graph@.order <= usize::MAX,
                es@.to_set() == graph@.edges,
                g@.edges == es@.take(i as int).to_set(),
                g@.order <= graph@.order,
                g@.is_span(g@.order),
            decreases es.len() - i,
        {
            let (u, v) = es[i];
            proof {
                assert(es@.to_set().contains(es@[i as int]));
                assert(es@.take(i + 1) =~= es@.take(i as int).push(es@[i as int]));
                es@.take(i as int).lemma_push_to_set_commute(es@[i as int]);
                g.lemma_view_wf();
                assert(g.edge_fits(u, v));
                assert(g.stores(u, v));
            }
            let ghost before = g@;
            g.add_edge(u, v);
            proof {
                assert(g@ == before.with_edge(u, v));
                assert(g@.edges.contains((u, v)));
                if g@.order > before.order {
                    assert(v + 1 == g@.order);
                } else if before.order > 0 {
                    let e = choose|e: (usize, usize)| #[trigger]
                        before.edges.contains(e) && e.1 + 1 == before.order;
                    assert(g@.edges.contains(e));
                }
            }
            i += 1;
        }
        proof {
            assert(es@.take(es@.len() as int) =~= es@);
        }
        g
    }
}

} // verus!
