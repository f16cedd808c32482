//! Graph data structure implemented as an adjacency list.

use vstd::prelude::*;
use super::contract::{FromGraph, StaticGraph};
use super::model::{canonical, GraphView};
use super::unique::distinct_edges;

verus! {

/// An undirected simple graph that holds, for each vertex, the list of its
/// neighbours. Vertices and edges cannot be removed.
#[derive(Debug, Clone)]
pub struct AdjList {
    adj: Vec<Vec<usize>>,
    n: usize,
}

impl View for AdjList {
    type V = GraphView;

    closed spec fn view(&self) -> GraphView {
        GraphView {
            order: self.n as nat,
            edges: Set::new(
                |e: (usize, usize)|
                    e.0 < e.1 < self.adj@.len() && self.adj@[e.0 as int]@.contains(e.1),
            ),
        }
    }
}

impl AdjList {
    /// Every vertex has a list; a list holds no vertex twice, nor its own,
    /// nor one that does not exist; and `v` is in the list of `u` exactly
    /// if `u` is in the list of `v`.
    pub closed spec fn lists_wf(&self) -> bool {
        &&& self.adj@.len() == self.n
        &&& forall|u: int| 0 <= u < self.adj@.len() ==> (#[trigger] self.adj@[u])@.no_duplicates()
        &&& forall|u: int, i: int|
            0 <= u < self.adj@.len() && 0 <= i < self.adj@[u]@.len() ==> (#[trigger] self.adj@[u]@[i])
                < self.n && self.adj@[u]@[i] != u
        &&& forall|u: int, v: int|
            0 <= u < self.adj@.len() && 0 <= v < self.adj@.len() ==> (self.adj@[u]@.contains(
                v as usize,
            ) <==> self.adj@[v]@.contains(u as usize))
    }

    /// Constructs a graph without vertices.
    pub fn new() -> (g: Self)
        ensures
            g.wf(),
            g@ == GraphView::empty(0),
    {
        let g = Self { adj: Vec::new(), n: 0 };
        assert(g@.edges =~= Set::empty());
        g
    }

    /// Two vertices are adjacent exactly if one is in the list of the other.
    proof fn lemma_adjacent_listed(&self, u: usize, v: usize)
        requires
            self.lists_wf(),
        ensures
            self@.adjacent(u, v) <==> u < self.adj@.len() && self.adj@[u as int]@.contains(v),
    {
        if u < self.adj@.len() && self.adj@[u as int]@.contains(v) {
            let i = choose|i: int| 0 <= i < self.adj@[u as int]@.len() && self.adj@[u as int]@[i] == v;
            assert(self.adj@[u as int]@[i] < self.n);
            assert(self.adj@[v as int]@.contains(u));
        }
        if self@.adjacent(u, v) {
            if self@.edges.contains((v, u)) {
                let i = choose|i: int| 0 <= i < self.adj@[v as int]@.len() && self.adj@[v as int]@[i] == u;
                assert(self.adj@[v as int]@[i] < self.n);
            }
        }
    }

    /// Brings the vertices up to `u` into existence, without neighbours.
    fn reserve_vertex(&mut self, u: usize)
        requires
            old(self).lists_wf(),
            u < usize::MAX,
        ensures
            final(self).lists_wf(),
            final(self).n == if old(self).n > u { old(self).n } else { (u + 1) as usize },
            final(self)@.edges == old(self)@.edges,
    {
        let ghost before = *self;
        if self.n < u + 1 {
            self.n = u + 1;
        }
        while self.adj.len() <= u
            invariant
                u < self.n,
                self.n == if before.n > u { before.n } else { (u + 1) as usize },
                before.lists_wf(),
                before.adj@.len() <= self.adj@.len() <= self.n,
                self.adj@.len() > u ==> self.adj@.len() == self.n,
                forall|w: int| 0 <= w < before.adj@.len() ==> self.adj@[w] == before.adj@[w],
                forall|w: int|
                    before.adj@.len() <= w < self.adj@.len() ==> (#[trigger] self.adj@[w])@.len() == 0,
            decreases self.n - self.adj@.len(),
        {
            self.adj.push(Vec::new());
        }
        proof {
            assert forall|w: int| 0 <= w < self.adj@.len() implies (#[trigger] self.adj@[w])@.no_duplicates() by {
                if w < before.adj@.len() {
                    assert(before.adj@[w]@.no_duplicates());
                }
            }
            assert forall|a: int, b: int|
                0 <= a < self.adj@.len() && 0 <= b < self.adj@.len() implies (self.adj@[a]@.contains(
                b as usize,
            ) <==> self.adj@[b]@.contains(a as usize)) by {
                if self.adj@[a]@.contains(b as usize) {
                    let i = choose|i: int| 0 <= i < self.adj@[a]@.len() && self.adj@[a]@[i] == b as usize;
                    assert(before.adj@[a]@[i] < before.n);
                    assert(before.adj@[a]@.contains(b as usize));
                    assert(before.adj@[b]@.contains(a as usize));
                }
                if self.adj@[b]@.contains(a as usize) {
                    let i = choose|i: int| 0 <= i < self.adj@[b]@.len() && self.adj@[b]@[i] == a as usize;
                    assert(before.adj@[b]@[i] < before.n);
                    assert(before.adj@[b]@.contains(a as usize));
                    assert(before.adj@[a]@.contains(b as usize));
                }
            }
            assert forall|w: int, i: int|
                0 <= w < self.adj@.len() && 0 <= i < self.adj@[w]@.len() implies (#[trigger] self.adj@[w]@[i])
                < self.n && self.adj@[w]@[i] != w by {
                assert(before.adj@[w]@[i] < before.n);
            }
            assert forall|e: (usize, usize)| self@.edges.contains(e) implies before@.edges.contains(e) by {
                let i = choose|i: int|
                    0 <= i < self.adj@[e.0 as int]@.len() && self.adj@[e.0 as int]@[i] == e.1;
                assert(before.adj@[e.0 as int]@[i] < before.n);
            }
            assert(self@.edges =~= before@.edges);
        }
    }

    /// Appends `v` to the list of `u`.
    fn push_neighbor(&mut self, u: usize, v: usize)
        requires
            u < old(self).adj@.len(),
        ensures
            final(self).n == old(self).n,
            final(self).adj@.len() == old(self).adj@.len(),
            final(self).adj@[u as int]@ == old(self).adj@[u as int]@.push(v),
            forall|w: int|
                0 <= w < old(self).adj@.len() && w != u ==> final(self).adj@[w] == old(self).adj@[w],
    {
        let mut list: Vec<usize> = Vec::new();
        std::mem::swap(&mut list, &mut self.adj[u]);
        list.push(v);
        self.adj[u] = list;
    }
}

impl StaticGraph for AdjList {
    closed spec fn wf(&self) -> bool {
        self.lists_wf()
    }

    open spec fn capacity_fits(n: usize) -> bool {
        true
    }

    open spec fn edge_fits(&self, u: usize, v: usize) -> bool {
        u == v || (u < usize::MAX && v < usize::MAX)
    }

    open spec fn stores(&self, u: usize, v: usize) -> bool {
        true
    }

    proof fn lemma_view_wf(&self) {
        assert forall|e: (usize, usize)| #[trigger] self@.edges.contains(e) implies e.0 < e.1
            < self@.order by {
            let i = choose|i: int|
                0 <= i < self.adj@[e.0 as int]@.len() && self.adj@[e.0 as int]@[i] == e.1;
            assert(self.adj@[e.0 as int]@[i] < self.n);
        }
    }

    proof fn lemma_within_order(&self, u: usize, v: usize) {
        assert(self.stores(u, v));
        assert(self.edge_fits(u, v));
    }

    fn with_capacity(n: usize) -> (g: Self) {
        let mut adj: Vec<Vec<usize>> = Vec::new();
        let mut i: usize = 0;
        while i < n
            invariant
                i <= n,
                adj@.len() == i,
                forall|u: int| 0 <= u < adj@.len() ==> (#[trigger] adj@[u])@.len() == 0,
            decreases n - i,
        {
            adj.push(Vec::new());
            i += 1;
        }
        let g = Self { adj, n };
        assert(g@.edges =~= Set::empty());
        g
    }

    fn has_edge(&self, u: usize, v: usize) -> (b: bool) {
        proof {
            self.lemma_adjacent_listed(u, v);
        }
        if u >= self.adj.len() {
            return false;
        }
        let list = &self.adj[u];
        let mut i: usize = 0;
        while i < list.len()
            invariant
                i <= list@.len(),
                u < self.adj@.len(),
                list@ == self.adj@[u as int]@,
                self@.adjacent(u, v) <==> self.adj@[u as int]@.contains(v),
                forall|j: int| 0 <= j < i ==> list@[j] != v,
            decreases list.len() - i,
        {
            if v == list[i] {
                assert(list@[i as int] == v);
                return true;
            }
            i += 1;
        }
        false
    }

    fn add_edge(&mut self, u: usize, v: usize) {
        assert(old(self).edge_fits(u, v));
        assert(old(self).stores(u, v));
        if u == v {
            return;
        }
        let ghost before = *self;
        self.reserve_vertex(u);
        self.reserve_vertex(v);
        let ghost grown = *self;
        proof {
            grown.lemma_adjacent_listed(u, v);
        }
        if !self.has_edge(u, v) {
            self.push_neighbor(u, v);
            self.push_neighbor(v, u);
            proof {
                let lu = grown.adj@[u as int]@;
                let lv = grown.adj@[v as int]@;
                assert(self.adj@[u as int]@ == lu.push(v));
                assert(self.adj@[v as int]@ == lv.push(u));
                grown.lemma_adjacent_listed(v, u);
                assert(!lv.contains(u));
                assert forall|w: usize, x: usize| w < self.adj@.len() implies (self.adj@[w as int]@.contains(
                    x,
                ) <==> grown.adj@[w as int]@.contains(x) || (w == u && x == v) || (w == v && x == u)) by {
                    let old_list = grown.adj@[w as int]@;
                    let new_list = self.adj@[w as int]@;
                    if w == u || w == v {
                        let y = if w == u { v } else { u };
                        assert(new_list == old_list.push(y));
                        assert(new_list[old_list.len() as int] == y);
                        if old_list.contains(x) {
                            let i = choose|i: int| 0 <= i < old_list.len() && old_list[i] == x;
                            assert(new_list[i] == x);
                        }
                        if new_list.contains(x) {
                            let i = choose|i: int| 0 <= i < new_list.len() && new_list[i] == x;
                            if i < old_list.len() {
                                assert(old_list[i] == x);
                            }
                        }
                    }
                }
                assert(self.lists_wf()) by {
                    assert forall|w: int| 0 <= w < self.adj@.len() implies (#[trigger] self.adj@[w])@.no_duplicates() by {
                        if w == u {
                            assert(lu.push(v).no_duplicates());
                        } else if w == v {
                            assert(lv.push(u).no_duplicates());
                        } else {
                            assert(self.adj@[w] == grown.adj@[w]);
                        }
                    }
                    assert forall|w: int, i: int|
                        0 <= w < self.adj@.len() && 0 <= i < self.adj@[w]@.len() implies (#[trigger] self.adj@[w]@[i])
                        < self.n && self.adj@[w]@[i] != w by {
                        if w == u {
                            if i < lu.len() {
                                assert(self.adj@[w]@[i] == grown.adj@[w]@[i]);
                            }
                        } else if w == v {
                            if i < lv.len() {
                                assert(self.adj@[w]@[i] == grown.adj@[w]@[i]);
                            }
                        } else {
                            assert(self.adj@[w]@[i] == grown.adj@[w]@[i]);
                        }
                    }
                    assert forall|a: int, b: int|
                        0 <= a < self.adj@.len() && 0 <= b < self.adj@.len() implies (self.adj@[a]@.contains(
                        b as usize,
                    ) <==> self.adj@[b]@.contains(a as usize)) by {
                        assert(grown.adj@[a]@.contains(b as usize) <==> grown.adj@[b]@.contains(
                            a as usize,
                        ));
                    }
                }
                assert(self@.edges =~= before@.edges.insert(canonical(u, v)));
            }
        } else {
            proof {
                assert(before@.edges.insert(canonical(u, v)) =~= before@.edges);
            }
        }
    }

    fn edges(&self) -> (es: Vec<(usize, usize)>) {
        let mut all: Vec<(usize, usize)> = Vec::new();
        let mut u: usize = 0;
        while u < self.adj.len()
            invariant
                self.lists_wf(),
                u <= self.adj@.len(),
                forall|t: int| 0 <= t < all@.len() ==> self@.edges.contains(#[trigger] all@[t]),
                forall|e: (usize, usize)|
                    self@.edges.contains(e) && (e.0 < u || e.1 < u) ==> all@.contains(e),
            decreases self.adj.len() - u,
        {
            let list = &self.adj[u];
            let mut i: usize = 0;
            while i < list.len()
                invariant
                    self.lists_wf(),
                    u < self.adj@.len(),
                    list@ == self.adj@[u as int]@,
                    i <= list@.len(),
                    forall|t: int| 0 <= t < all@.len() ==> self@.edges.contains(#[trigger] all@[t]),
                    forall|e: (usize, usize)|
                        self@.edges.contains(e) && (e.0 < u || e.1 < u) ==> all@.contains(e),
                    forall|j: int| 0 <= j < i ==> all@.contains(canonical(u, #[trigger] list@[j])),
                decreases list.len() - i,
            {
                let v = list[i];
                let ghost prev = all@;
                proof {
                    assert(self.adj@[u as int]@[i as int] < self.n);
                    assert(self.adj@[u as int]@.contains(v));
                    self.lemma_adjacent_listed(u, v);
                }
                if u > v {
                    all.push((v, u));
                } else {
                    all.push((u, v));
                }
                proof {
                    assert(all@ == prev.push(canonical(u, v)));
                    assert(all@[prev.len() as int] == canonical(u, v));
                    assert forall|e: (usize, usize)|
                        self@.edges.contains(e) && (e.0 < u || e.1 < u) implies all@.contains(e) by {
                        assert(prev.contains(e));
                        let t = choose|t: int| 0 <= t < prev.len() && prev[t] == e;
                        assert(all@[t] == e);
                    }
                    assert forall|j: int| 0 <= j < i + 1 implies all@.contains(
                        canonical(u, #[trigger] list@[j]),
                    ) by {
                        if j < i {
                            assert(prev.contains(canonical(u, list@[j])));
                            let t = choose|t: int| 0 <= t < prev.len() && prev[t] == canonical(u, list@[j]);
                            assert(all@[t] == prev[t]);
                        }
                    }
                }
                i += 1;
            }
            proof {
                assert forall|e: (usize, usize)|
                    self@.edges.contains(e) && (e.0 < u + 1 || e.1 < u + 1) implies all@.contains(e) by {
                    if !(e.0 < u || e.1 < u) {
                        assert(e.0 == u);
                        let j = choose|j: int| 0 <= j < list@.len() && list@[j] == e.1;
                        assert(all@.contains(canonical(u, list@[j])));
                    }
                }
            }
            u += 1;
        }
        proof {
            assert(all@.to_set() =~= self@.edges);
        }
        distinct_edges(all)
    }

    fn num_vertices(&self) -> (n: usize) {
        self.n
    }

    fn neighbors(&self, v: usize) -> (ns: Vec<usize>) {
        let mut ns: Vec<usize> = Vec::new();
        if v < self.adj.len() {
            let list = &self.adj[v];
            let mut i: usize = 0;
            while i < list.len()
                invariant
                    i <= list@.len(),
                    ns@ == list@.take(i as int),
                decreases list.len() - i,
            {
                ns.push(list[i]);
                assert(list@.take(i + 1) =~= list@.take(i as int).push(list@[i as int]));
                i += 1;
            }
            assert(list@.take(list@.len() as int) =~= list@);
        }
        proof {
            assert forall|u: usize| ns@.to_set().contains(u) <==> self@.neighbors(v).contains(u) by {
                self.lemma_adjacent_listed(v, u);
                self.lemma_adjacent_listed(u, v);
                if self@.adjacent(u, v) {
                    self.lemma_view_wf();
                    self@.lemma_adjacent(u, v);
                }
            }
            assert(ns@.to_set() =~= self@.neighbors(v));
        }
        ns
    }
}

impl FromGraph for AdjList {
    /// The graph built has the edges of `graph` and as many vertices as
    /// they need: isolated vertices above the last edge are left out.
    fn from_graph<G: StaticGraph>(graph: &G) -> (g: Self)
        ensures
            g@.is_span(g@.order),
    {
        let mut g = Self::new();
        let es = graph.edges();
        proof {
            graph.lemma_view_wf();
        }
        let mut i: usize = 0;
        while i < es.len()
            invariant
                i <= es@.len(),
                g.wf(),
                graph@.wf(),
                graph@.order <= usize::MAX,
                es@.to_set() == graph@.edges,
                g@.edges == es@.take(i as int).to_set(),
                g@.order <= graph@.order,
                g@.is_span(g@.order),
            decreases es.len() - i,
        {
            let (u, v) = es[i];
            proof {
                assert(es@.to_set().contains(es@[i as int]));
                assert(es@.take(i + 1) =~= es@.take(i as int).push(es@[i as int]));
                es@.take(i as int).lemma_push_to_set_commute(es@[i as int]);
                g.lemma_view_wf();
            }
            let ghost before = g@;
            g.add_edge(u, v);
            proof {
                assert(g@ == before.with_edge(u, v));
                assert(g@.edges.contains((u, v)));
                if g@.order > before.order {
                    assert(v + 1 == g@.order);
                } else if before.order > 0 {
                    let e = choose|e: (usize, usize)| #[trigger] before.edges.contains(e) && e.1 + 1 == before.order;
                    assert(g@.edges.contains(e));
                }
            }
            i += 1;
        }
        proof {
            assert(es@.take(es@.len() as int) =~= es@);
        }
        g
    }
}

} // verus!
