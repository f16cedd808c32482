//! The mathematical model shared by every graph representation.

use vstd::prelude::*;

verus! {

/// An undirected simple graph on the vertices `0, 1, .., order - 1`.
///
/// Every edge is held once, as the pair of its endpoints with the smaller
/// one first.
pub struct GraphView {
    pub order: nat,
    pub edges: Set<(usize, usize)>,
}

/// The pair `{u, v}` with the smaller vertex first.
pub open spec fn canonical(u: usize, v: usize) -> (usize, usize) {
    if u <= v {
        (u, v)
    } else {
        (v, u)
    }
}

/// Whether `u` and `v` are joined by one of the edges.
pub open spec fn joined(edges: Set<(usize, usize)>, u: usize, v: usize) -> bool {
    edges.contains((u, v)) || edges.contains((v, u))
}

/// The vertices that one of the edges joins to `v`.
pub open spec fn neighborhood(edges: Set<(usize, usize)>, v: usize) -> Set<usize> {
    Set::new(|u: usize| joined(edges, u, v))
}

/// The vertices that one of the edges ends in.
pub open spec fn touched(edges: Set<(usize, usize)>) -> Set<usize> {
    Set::new(|v: usize| exists|u: usize| joined(edges, u, v))
}

impl GraphView {
    /// Every edge joins two distinct vertices below `order`, smaller one first.
    pub open spec fn wf(self) -> bool {
        forall|e: (usize, usize)| #[trigger] self.edges.contains(e) ==> e.0 < e.1 < self.order
    }

    /// The graph with `n` isolated vertices.
    pub open spec fn empty(n: nat) -> GraphView {
        GraphView { order: n, edges: Set::empty() }
    }

    /// The graph with `n` vertices in which every two distinct vertices are joined.
    pub open spec fn complete(n: nat) -> GraphView {
        GraphView { order: n, edges: Set::new(|e: (usize, usize)| e.0 < e.1 < n) }
    }

    /// Whether `u` and `v` are joined by an edge.
    pub open spec fn adjacent(self, u: usize, v: usize) -> bool {
        joined(self.edges, u, v)
    }

    /// The number of vertices needed to hold an edge between `u` and `v`
    /// besides what is there.
    pub open spec fn order_with(self, u: usize, v: usize) -> nat {
        let hi = if u <= v { v } else { u };
        if hi + 1 > self.order {
            (hi + 1) as nat
        } else {
            self.order
        }
    }

    /// The graph after inserting the edge `{u, v}`: a self-loop changes
    /// nothing, and an endpoint beyond `order` brings every vertex up
    /// to itself into existence.
    pub open spec fn with_edge(self, u: usize, v: usize) -> GraphView {
        if u == v {
            self
        } else {
            GraphView { order: self.order_with(u, v), edges: self.edges.insert(canonical(u, v)) }
        }
    }

    /// The vertices joined to `v`.
    pub open spec fn neighbors(self, v: usize) -> Set<usize> {
        neighborhood(self.edges, v)
    }

    /// The number of vertices joined to `v`.
    pub open spec fn degree(self, v: usize) -> nat {
        self.neighbors(v).len()
    }

    /// The largest degree among the vertices below `k`, and 0 if there is none.
    pub open spec fn max_degree_below(self, k: nat) -> nat
        decreases k,
    {
        if k == 0 {
            0
        } else {
            let rest = self.max_degree_below((k - 1) as nat);
            let d = self.degree((k - 1) as usize);
            if d > rest {
                d
            } else {
                rest
            }
        }
    }

    /// The largest degree of any vertex, and 0 for the graph without vertices.
    pub open spec fn max_degree(self) -> nat {
        self.max_degree_below(self.order)
    }

    /// Whether `k` is the least order that holds every edge: 0 without
    /// edges, else one more than the largest endpoint.
    pub open spec fn is_span(self, k: nat) -> bool {
        &&& forall|e: (usize, usize)| #[trigger] self.edges.contains(e) ==> e.1 < k
        &&& k == 0 || exists|e: (usize, usize)| #[trigger] self.edges.contains(e) && e.1 + 1 == k
    }
}

/// The number of pairs `(u, v)` with `v < u < k`.
pub open spec fn pairs_below(k: nat) -> nat
    decreases k,
{
    if k == 0 {
        0
    } else {
        pairs_below((k - 1) as nat) + (k - 1) as nat
    }
}

/// Twice the number of pairs below `k` is `k * (k - 1)`.
pub proof fn lemma_pairs_below(k: nat)
    ensures
        2 * pairs_below(k) == k * (k - 1),
    decreases k,
{
    if k > 0 {
        let j = (k - 1) as nat;
        lemma_pairs_below(j);
        assert(j * (j - 1) + 2 * j == (j + 1) * j) by (nonlinear_arith);
        assert(k * (k - 1) == (j + 1) * j);
    } else {
        assert(k * (k - 1) == 0) by (nonlinear_arith)
            requires
                k == 0,
        ;
    }
}

/// There are no more pairs below a smaller number.
pub proof fn lemma_pairs_below_monotone(a: nat, b: nat)
    requires
        a <= b,
    ensures
        pairs_below(a) <= pairs_below(b),
    decreases b,
{
    if a < b {
        lemma_pairs_below_monotone(a, (b - 1) as nat);
    }
}

/// The vertices below `n`.
pub open spec fn below(n: nat) -> Set<usize> {
    Set::new(|v: usize| v < n)
}

/// There are exactly `n` vertices below `n`.
pub proof fn lemma_below_len(n: nat)
    requires
        n <= usize::MAX + 1,
    ensures
        below(n).finite(),
        below(n).len() == n,
    decreases n,
{
    if n == 0 {
        assert(below(0) =~= Set::<usize>::empty());
    } else {
        lemma_below_len((n - 1) as nat);
        assert(below(n) =~= below((n - 1) as nat).insert((n - 1) as usize));
    }
}

impl GraphView {
    /// A vertex is joined to distinct vertices below `order` only, so to
    /// fewer than `order` of them.
    pub proof fn lemma_neighbors(self, v: usize)
        requires
            self.wf(),
            self.order <= usize::MAX + 1,
        ensures
            self.neighbors(v).finite(),
            self.neighbors(v).subset_of(below(self.order)),
            !self.neighbors(v).contains(v),
            v < self.order ==> self.degree(v) < self.order,
            v >= self.order ==> self.degree(v) == 0,
    {
        lemma_below_len(self.order);
        vstd::set_lib::lemma_set_subset_finite(below(self.order), self.neighbors(v));
        if v < self.order {
            let rest = below(self.order).remove(v);
            assert(self.neighbors(v).subset_of(rest));
            vstd::set_lib::lemma_len_subset(self.neighbors(v), rest);
        } else {
            assert(self.neighbors(v) =~= Set::<usize>::empty());
        }
    }

    /// Adjacency is symmetric, and holds between distinct vertices below `order` only.
    pub proof fn lemma_adjacent(self, u: usize, v: usize)
        requires
            self.wf(),
            self.adjacent(u, v),
        ensures
            self.adjacent(v, u),
            u != v,
            u < self.order,
            v < self.order,
            self.edges.contains(canonical(u, v)),
    {
    }

    /// No degree among the vertices below `k` exceeds `max_degree_below(k)`,
    /// which is itself the degree of one of them unless it is 0.
    pub proof fn lemma_max_degree_below(self, k: nat)
        ensures
            forall|v: usize| v < k ==> #[trigger] self.degree(v) <= self.max_degree_below(k),
            self.max_degree_below(k) == 0 || exists|v: usize|
                v < k && #[trigger] self.degree(v) == self.max_degree_below(k),
        decreases k,
    {
        if k > 0 {
            self.lemma_max_degree_below((k - 1) as nat);
            let d = self.degree((k - 1) as usize);
            let rest = self.max_degree_below((k - 1) as nat);
            if d <= rest && rest != 0 {
                let w = choose|v: usize| v < k - 1 && #[trigger] self.degree(v) == rest;
                assert(w < k && self.degree(w) == self.max_degree_below(k));
            } else if d > rest {
                let w = (k - 1) as usize;
                assert(w < k && self.degree(w) == self.max_degree_below(k));
            }
        }
    }

    /// Two graphs with the same edges have the same span.
    pub proof fn lemma_span_unique(self, other: GraphView)
        requires
            self.edges == other.edges,
            self.is_span(self.order),
            other.is_span(other.order),
        ensures
            self.order == other.order,
    {
        if self.order != 0 {
            let e = choose|e: (usize, usize)| #[trigger]
                self.edges.contains(e) && e.1 + 1 == self.order;
            assert(other.edges.contains(e));
        }
        if other.order != 0 {
            let e = choose|e: (usize, usize)| #[trigger]
                other.edges.contains(e) && e.1 + 1 == other.order;
            assert(self.edges.contains(e));
        }
    }
}

} // verus!
