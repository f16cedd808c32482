//! Graph data structure implemented as a set of edges with an index of
//! neighbours.

use std::collections::HashMap;
use std::collections::HashSet;
use vstd::prelude::*;
use super::chance::{certain, draw, impossible};
use super::contract::pairs_before;
use super::model::{canonical, joined, neighborhood, touched, GraphView};

verus! {

/// One more than the largest number that 64 bits hold.
pub const SHIFT: u128 = 0x1_0000_0000_0000_0000;

/// The key under which the edge `(u, v)` is kept: both vertices in one
/// number, `u` in the upper half.
pub open spec fn pack(u: usize, v: usize) -> u128 {
    (u * SHIFT + v) as u128
}

/// Whether `k` is the key of an edge with its smaller vertex first.
pub open spec fn is_key(k: u128) -> bool {
    k / SHIFT <= usize::MAX && k % SHIFT <= usize::MAX && k / SHIFT < k % SHIFT
}

/// The edge kept under the key `k`.
pub open spec fn unpack(k: u128) -> (usize, usize) {
    ((k / SHIFT) as usize, (k % SHIFT) as usize)
}

/// A key holds both of its vertices.
pub proof fn lemma_pack(u: usize, v: usize)
    ensures
        pack(u, v) == u * SHIFT + v,
        pack(u, v) / SHIFT == u,
        pack(u, v) % SHIFT == v,
        unpack(pack(u, v)) == (u, v),
{
    assert(usize::MAX <= 0xffff_ffff_ffff_ffff);
}

/// Whether `y` is in the set that the index holds for `x`.
pub open spec fn linked(index: Map<usize, HashSet<usize>>, x: usize, y: usize) -> bool {
    index.contains_key(x) && index[x]@.contains(y)
}

/// Whether no vertex has more than `d` neighbours and, unless `d` is 0,
/// some vertex has exactly `d`.
pub open spec fn is_max_degree(edges: Set<(usize, usize)>, d: nat) -> bool {
    &&& forall|v: usize| (#[trigger] neighborhood(edges, v)).len() <= d
    &&& d == 0 || exists|v: usize| (#[trigger] neighborhood(edges, v)).len() == d
}

/// An undirected simple graph held as a hash set of its edges, with the
/// set of the vertices that an edge ends in and, for each of them, the
/// set of its neighbours. Vertices and edges cannot be removed.
#[derive(Debug)]
pub struct Graph {
    edges: HashSet<u128>,
    vertices: HashSet<usize>,
    neighbors: HashMap<usize, HashSet<usize>>,
}

impl View for Graph {
    type V = Set<(usize, usize)>;

    /// The edges of the graph, each with its smaller vertex first.
    closed spec fn view(&self) -> Set<(usize, usize)> {
        Set::new(|e: (usize, usize)| e.0 < e.1 && self.edges@.contains(pack(e.0, e.1)))
    }
}

/// Returns the items of the set, in the order in which the set hands them
/// out.
pub(crate) fn set_to_vec(s: &HashSet<usize>) -> (v: Vec<usize>)
    ensures
        v@.no_duplicates(),
        v@.to_set() == s@,
{
    let mut v: Vec<usize> = Vec::new();
    for x in it: s.iter()
        invariant
            it.seq().unref().to_set() == s@,
            it.seq().unref().no_duplicates(),
            v@ == it.seq().unref().take(it.index() as int),
            it.index() == it.seq().len() ==> v@ == it.seq().unref(),
    {
        v.push(*x);
        proof {
            let all = it.seq().unref();
            assert(all.take(all.len() as int) =~= all);
        }
    }
    v
}

/// Adds `v` to the set that the index holds for `u`.
fn link(index: &mut HashMap<usize, HashSet<usize>>, u: usize, v: usize)
    ensures
        forall|x: usize, y: usize| #[trigger]
            linked(final(index)@, x, y) <==> linked(old(index)@, x, y) || (x == u && y == v),
{
    let ghost before = index@;
    let mut set = match index.remove(&u) {
        Some(set) => set,
        None => HashSet::new(),
    };
    let ghost had = set@;
    set.insert(v);
    index.insert(u, set);
    proof {
        assert forall|x: usize, y: usize| #[trigger]
            linked(index@, x, y) <==> linked(before, x, y) || (x == u && y == v) by {
            if x == u {
                assert(index@[u]@ == had.insert(v));
                if before.contains_key(u) {
                    assert(had == before[u]@);
                }
            } else {
                assert(index@.contains_key(x) == before.contains_key(x));
                if before.contains_key(x) {
                    assert(index@[x] == before[x]);
                }
            }
        }
    }
}

impl Graph {
    /// Every key is that of an edge with its smaller vertex first; the
    /// set of vertices holds the ends of the edges; and the index holds
    /// for each vertex the vertices joined to it.
    pub closed spec fn wf(&self) -> bool {
        &&& forall|k: u128| #[trigger] self.edges@.contains(k) ==> is_key(k)
        &&& forall|v: usize| #[trigger] self.vertices@.contains(v) <==> touched(self@).contains(v)
        &&& forall|x: usize, y: usize| #[trigger]
            linked(self.neighbors@, x, y) <==> joined(self@, x, y)
    }

    /// Constructs a new empty graph.
    pub fn new() -> (g: Self)
        ensures
            g.wf(),
            g@ == Set::<(usize, usize)>::empty(),
    {
        let g = Graph { edges: HashSet::new(), vertices: HashSet::new(), neighbors: HashMap::new() };
        assert(g@ =~= Set::<(usize, usize)>::empty());
        g
    }

    /// Makes room for `n` more vertices.
    pub(crate) fn reserve(&mut self, n: usize)
        requires
            old(self).wf(),
        ensures
            final(self).wf(),
            final(self)@ == old(self)@,
    {
        let ghost before = *self;
        self.vertices.reserve(n);
        proof {
            assert(self@ =~= before@);
            assert forall|v: usize| #[trigger]
                self.vertices@.contains(v) <==> touched(self@).contains(v) by {
                assert(before.vertices@.contains(v) <==> touched(before@).contains(v));
            }
            assert forall|x: usize, y: usize| #[trigger]
                linked(self.neighbors@, x, y) <==> joined(self@, x, y) by {
                assert(linked(before.neighbors@, x, y) <==> joined(before@, x, y));
            }
        }
    }

    /// Returns the key of the edge `(u, v)`.
    fn key(u: usize, v: usize) -> (k: u128)
        ensures
            k == pack(u, v),
    {
        proof {
            lemma_pack(u, v);
        }
        (u as u128) * SHIFT + (v as u128)
    }

    /// Constructs a random graph on the vertices below `n` in which each
    /// of the possible edges occurs with probability
    /// `numerator / denominator`, independently of the others.
    pub fn random(n: usize, numerator: u32, denominator: u32) -> (g: Self)
        ensures
            g.wf(),
            g@.subset_of(GraphView::complete(n as nat).edges),
            impossible(numerator, denominator) ==> g@ == Set::<(usize, usize)>::empty(),
            certain(numerator, denominator) ==> g@ == GraphView::complete(n as nat).edges,
    {
        let mut g = Graph::new();
        let ghost sure = certain(numerator, denominator);
        let ghost never = impossible(numerator, denominator);
        let mut u: usize = 0;
        while u < n
            invariant
                u <= n,
                g.wf(),
                sure == certain(numerator, denominator),
                never == impossible(numerator, denominator),
                g@.subset_of(pairs_before(n, u, 0)),
                never ==> g@ == Set::<(usize, usize)>::empty(),
                sure ==> g@ == pairs_before(n, u, 0),
            decreases n - u,
        {
            let mut v: usize = u + 1;
            assert(pairs_before(n, u, 0) =~= pairs_before(n, u, v));
            while v < n
                invariant
                    u < v <= n,
                    g.wf(),
                    sure == certain(numerator, denominator),
                    never == impossible(numerator, denominator),
                    g@.subset_of(pairs_before(n, u, v)),
                    never ==> g@ == Set::<(usize, usize)>::empty(),
                    sure ==> g@ == pairs_before(n, u, v),
                decreases n - v,
            {
                if draw(numerator, denominator) {
                    g.add_edge(u, v);
                }
                assert(pairs_before(n, u, v).insert((u, v)) =~= pairs_before(n, u, (v + 1) as usize));
                v += 1;
            }
            assert(pairs_before(n, u, n) =~= pairs_before(n, (u + 1) as usize, 0));
            u += 1;
        }
        assert(pairs_before(n, n, 0) =~= GraphView::complete(n as nat).edges);
        g
    }

    /// Adds the edge `{u, v}` to the graph; `add_edge(u, v)` has the same
    /// effect as `add_edge(v, u)`. Adding a self-loop or an edge that
    /// already exists has no effect.
    pub fn add_edge(&mut self, u: usize, v: usize)
        requires
            old(self).wf(),
        ensures
            final(self).wf(),
            final(self)@ == if u == v {
                old(self)@
            } else {
                old(self)@.insert(canonical(u, v))
            },
    {
        if u == v {
            return;
        }
        let ghost before = *self;
        let (a, b) = if u > v {
            (v, u)
        } else {
            (u, v)
        };
        self.edges.insert(Self::key(a, b));
        self.vertices.insert(a);
        self.vertices.insert(b);
        link(&mut self.neighbors, a, b);
        link(&mut self.neighbors, b, a);
        proof {
            lemma_pack(a, b);
            assert forall|e: (usize, usize)| self@.contains(e) <==> before@.insert((a, b)).contains(e) by {
                lemma_pack(e.0, e.1);
            }
            assert(self@ =~= before@.insert((a, b)));
            assert forall|k: u128| #[trigger] self.edges@.contains(k) implies is_key(k) by {
                if k != pack(a, b) {
                    assert(before.edges@.contains(k));
                }
            }
            assert forall|x: usize, y: usize| #[trigger]
                joined(self@, x, y) <==> joined(before@, x, y) || (x == a && y == b) || (x == b && y
                    == a) by {}
            assert forall|x: usize| #[trigger]
                self.vertices@.contains(x) <==> touched(self@).contains(x) by {
                assert(before.vertices@.contains(x) <==> touched(before@).contains(x));
                if touched(self@).contains(x) {
                    let w = choose|w: usize| joined(self@, w, x);
                    if joined(before@, w, x) {
                        assert(touched(before@).contains(x));
                    }
                }
                if before.vertices@.contains(x) {
                    let w = choose|w: usize| joined(before@, w, x);
                    assert(joined(self@, w, x));
                }
                if x == a {
                    assert(joined(self@, b, a));
                }
                if x == b {
                    assert(joined(self@, a, b));
                }
            }
            assert forall|x: usize, y: usize| #[trigger]
                linked(self.neighbors@, x, y) <==> joined(self@, x, y) by {
                assert(linked(before.neighbors@, x, y) <==> joined(before@, x, y));
            }
        }
    }

    /// Queries whether the edge `{u, v}` exists in the graph.
    pub fn has_edge(&self, u: usize, v: usize) -> (b: bool)
        requires
            self.wf(),
        ensures
            b == joined(self@, u, v),
    {
        let (a, b) = if u > v {
            (v, u)
        } else {
            (u, v)
        };
        proof {
            lemma_pack(a, b);
            if self.edges@.contains(pack(a, b)) {
                assert(is_key(pack(a, b)));
            }
        }
        self.edges.contains(&Self::key(a, b))
    }

    /// Returns every edge of the graph exactly once, smaller vertex first.
    pub fn edges(&self) -> (es: Vec<(usize, usize)>)
        requires
            self.wf(),
        ensures
            es@.no_duplicates(),
            es@.to_set() == self@,
    {
        let mut es: Vec<(usize, usize)> = Vec::new();
        for k in it: self.edges.iter()
            invariant
                self.wf(),
                it.seq().unref().to_set() == self.edges@,
                it.seq().unref().no_duplicates(),
                es@.len() == it.index(),
                forall|i: int| 0 <= i < es@.len() ==> es@[i] == unpack(#[trigger] it.seq().unref()[i]),
                it.index() == it.seq().len() ==> es@.no_duplicates() && es@.to_set() == self@,
        {
            assert(is_key(*k)) by {
                let keys = it.seq().unref();
                assert(keys[it.index() as int] == *k);
                assert(keys.to_set().contains(*k));
            }
            let hi: usize = (*k / SHIFT) as usize;
            let lo: usize = (*k % SHIFT) as usize;
            es.push((hi, lo));
            assert(it.index() + 1 == it.seq().len() ==> es@.no_duplicates() && es@.to_set() == self@) by {
                let keys = it.seq().unref();
                assert(keys[it.index() as int] == *k);
                if it.index() + 1 == keys.len() {
                    assert forall|i: int, j: int| 0 <= i < j < es@.len() implies es@[i] != es@[j] by {
                        assert(keys.to_set().contains(keys[i]));
                        assert(keys.to_set().contains(keys[j]));
                        assert(is_key(keys[i]) && is_key(keys[j]));
                        assert(keys[i] != keys[j]);
                    }
                    assert forall|e: (usize, usize)| es@.to_set().contains(e) <==> self@.contains(e) by {
                        lemma_pack(e.0, e.1);
                        if es@.contains(e) {
                            let i = choose|i: int| 0 <= i < es@.len() && es@[i] == e;
                            assert(keys.to_set().contains(keys[i]));
                            assert(is_key(keys[i]));
                            assert(keys[i] == pack(e.0, e.1));
                        }
                        if self@.contains(e) {
                            assert(keys.to_set().contains(pack(e.0, e.1)));
                            let i = choose|i: int| 0 <= i < keys.len() && keys[i] == pack(e.0, e.1);
                            assert(es@[i] == e);
                        }
                    }
                    assert(es@.to_set() =~= self@);
                }
            }
        }
        es
    }

    /// Returns every vertex that an edge ends in, exactly once.
    pub fn vertices(&self) -> (vs: Vec<usize>)
        requires
            self.wf(),
        ensures
            vs@.no_duplicates(),
            vs@.to_set() == touched(self@),
    {
        let vs = set_to_vec(&self.vertices);
        assert(vs@.to_set() =~= touched(self@));
        vs
    }

    /// Returns every vertex joined to `v` exactly once; none for a vertex
    /// that no edge ends in.
    pub fn neighbors(&self, v: usize) -> (ns: Vec<usize>)
        requires
            self.wf(),
        ensures
            ns@.no_duplicates(),
            ns@.to_set() == neighborhood(self@, v),
    {
        let ns = match self.neighbors.get(&v) {
            Some(set) => set_to_vec(set),
            None => Vec::new(),
        };
        proof {
            assert forall|u: usize| ns@.to_set().contains(u) <==> neighborhood(self@, v).contains(u) by {
                assert(linked(self.neighbors@, v, u) <==> joined(self@, v, u));
            }
            assert(ns@.to_set() =~= neighborhood(self@, v));
        }
        ns
    }

    /// Returns the maximum degree of any vertex in the graph: the largest
    /// number of neighbours that any vertex has.
    pub fn max_degree(&self) -> (max: usize)
        requires
            self.wf(),
        ensures
            is_max_degree(self@, max as nat),
    {
        let vs = self.vertices();
        let mut max: usize = 0;
        let mut i: usize = 0;
        while i < vs.len()
            invariant
                self.wf(),
                i <= vs@.len(),
                forall|j: int| 0 <= j < i ==> (#[trigger] neighborhood(self@, vs@[j])).len() <= max,
                max == 0 || exists|v: usize| (#[trigger] neighborhood(self@, v)).len() == max,
            decreases vs.len() - i,
        {
            let ns = self.neighbors(vs[i]);
            proof {
                ns@.unique_seq_to_set();
            }
            if ns.len() > max {
                max = ns.len();
            }
            i += 1;
        }
        proof {
            assert forall|v: usize| (#[trigger] neighborhood(self@, v)).len() <= max by {
                if touched(self@).contains(v) {
                    assert(vs@.to_set().contains(v));
                    let j = choose|j: int| 0 <= j < vs@.len() && vs@[j] == v;
                    assert(neighborhood(self@, vs@[j]).len() <= max);
                } else {
                    assert(neighborhood(self@, v) =~= Set::<usize>::empty());
                }
            }
        }
        max
    }
}

} // verus!
