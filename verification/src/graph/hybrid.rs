//! Graph data structure implemented as a set of edges beside an adjacency
//! list.

use vstd::prelude::*;
use super::adjlist::AdjList;
use super::contract::{FromGraph, StaticGraph};
use super::edgelist::EdgeList;
use super::model::GraphView;

verus! {

/// An undirected simple graph that holds every edge twice: in an
/// [`EdgeList`], which answers whether an edge exists, and in an
/// [`AdjList`], which enumerates neighbours. Vertices and edges cannot be
/// removed.
#[derive(Debug)]
pub struct Hybrid {
    el: EdgeList,
    al: AdjList,
}

impl View for Hybrid {
    type V = GraphView;

    closed spec fn view(&self) -> GraphView {
        self.el@
    }
}

impl Hybrid {
    /// Constructs a new empty graph.
    pub fn new() -> (g: Self)
        ensures
            g.wf(),
            g@ == GraphView::empty(0),
    {
        Hybrid { el: EdgeList::new(), al: AdjList::new() }
    }
}

impl StaticGraph for Hybrid {
    closed spec fn wf(&self) -> bool {
        &&& self.el.wf()
        &&& self.al.wf()
        &&& self.el@ == self.al@
    }

    open spec fn capacity_fits(n: usize) -> bool {
        true
    }

    open spec fn edge_fits(&self, u: usize, v: usize) -> bool {
        u == v || (u < usize::MAX && v < usize::MAX)
    }

    open spec fn stores(&self, u: usize, v: usize) -> bool {
        true
    }

    proof fn lemma_view_wf(&self) {
        self.el.lemma_view_wf();
    }

    proof fn lemma_within_order(&self, u: usize, v: usize) {
        self.el.lemma_view_wf();
        assert(self.stores(u, v));
        assert(self.edge_fits(u, v));
    }

    fn with_capacity(n: usize) -> (g: Self) {
        assert(EdgeList::capacity_fits(n));
        assert(AdjList::capacity_fits(n));
        Hybrid { el: EdgeList::with_capacity(n), al: AdjList::with_capacity(n) }
    }

    fn has_edge(&self, u: usize, v: usize) -> (b: bool) {
        self.el.has_edge(u, v)
    }

    fn add_edge(&mut self, u: usize, v: usize) {
        assert(old(self).edge_fits(u, v));
        assert(old(self).stores(u, v));
        assert(self.el.edge_fits(u, v));
        assert(self.al.edge_fits(u, v));
        assert(self.el.stores(u, v));
        assert(self.al.stores(u, v));
        self.el.add_edge(u, v);
        self.al.add_edge(u, v);
    }

    fn edges(&self) -> (es: Vec<(usize, usize)>) {
        self.el.edges()
    }

    fn num_vertices(&self) -> (n: usize) {
        self.el.num_vertices()
    }

    fn neighbors(&self, v: usize) -> (ns: Vec<usize>) {
        self.al.neighbors(v)
    }
}

impl FromGraph for Hybrid {
    /// The graph built has the edges of `graph` and as many vertices as
    /// they need: isolated vertices above the last edge are left out.
    fn from_graph<G: StaticGraph>(graph: &G) -> (g: Self)
        ensures
            g@.is_span(g@.order),
    {
        assert(EdgeList::capacity_fits(graph@.order as usize));
        assert(AdjList::capacity_fits(graph@.order as usize));
        let el = EdgeList::from_graph(graph);
        let al = AdjList::from_graph(graph);
        proof {
            el@.lemma_span_unique(al@);
        }
        Hybrid { el, al }
    }
}

} // verus!
