use graml::graph::{
    AdjList, AdjMatrix, EdgeList, FromGraph, GrowableAdjMatrix, Hybrid, StaticGraph,
};
use std::collections::HashSet;

fn creation_empty<G: StaticGraph>() {
    let g = G::with_capacity(0);
    assert!(!g.has_edge(0, 1));
}

fn creation_empty_selfedge<G: StaticGraph>() {
    let g = G::with_capacity(0);
    assert!(!g.has_edge(0, 0));
}

fn creation_empty_with_capacity<G: StaticGraph>() {
    let g = G::with_capacity(200);
    assert!(!g.has_edge(0, 0));
}

fn insertion_1<G: StaticGraph>() {
    let mut g = G::with_capacity(2);
    g.add_edge(0, 1);
    assert!(!g.has_edge(0, 0));
    assert!(g.has_edge(0, 1));
    assert!(g.has_edge(1, 0));
}

fn insertion_out_of_bounds<G: StaticGraph>() {
    let mut g = G::with_capacity(0);
    g.add_edge(0, 1);
}

fn insertion_1_duplicate<G: StaticGraph>() {
    let mut g = G::with_capacity(2);
    g.add_edge(0, 1);
    g.add_edge(0, 1);
    g.add_edge(1, 0);
    assert!(!g.has_edge(0, 0));
    assert!(g.has_edge(0, 1));
    assert!(g.has_edge(1, 0));
}

fn insertion_selfedge<G: StaticGraph>() {
    let mut g = G::with_capacity(2);
    g.add_edge(0, 0);
    g.add_edge(1, 1);
    assert!(!g.has_edge(0, 0));
    assert!(!g.has_edge(0, 1));
    assert!(!g.has_edge(1, 0));
    assert!(!g.has_edge(1, 1));
}

fn insertion_1_test_nonexistent<G: StaticGraph>() {
    let mut g = G::with_capacity(2);
    g.add_edge(0, 1);
    assert!(!g.has_edge(0, 0));
    assert!(!g.has_edge(1, 1));
    assert!(!g.has_edge(1, 2));
}

fn insertion_large_all<G: StaticGraph>() {
    let n = 100;
    let mut g = G::with_capacity(n);

    for u in 0..n {
        for v in (u + 1)..n {
            g.add_edge(u, v);
        }
    }

    assert!(g.has_edge(40, 11));
    assert_eq!(g.edges().iter().count(), n * (n - 1) / 2);
}

fn insertion_large_with_duplicates<G: StaticGraph>() {
    let n = 100;
    let mut g = G::with_capacity(n);

    for u in 0..n {
        for v in 0..n {
            g.add_edge(u, v);
        }
    }

    assert!(g.has_edge(40, 11));
    assert_eq!(g.edges().iter().count(), n * (n - 1) / 2);
}

fn edges_listed<G: StaticGraph>() {
    let mut g = G::with_capacity(3);
    g.add_edge(0, 1);
    g.add_edge(0, 2);

    assert!(g.edges().iter().any(|&x| x == (0, 1)));
    assert!(g.edges().iter().any(|&x| x == (0, 2)));
    assert!(!g.edges().iter().any(|&x| x == (1, 2)));
    assert_eq!(g.edges().iter().count(), 2);
}

fn edges_empty<G: StaticGraph>() {
    let g = G::with_capacity(100);

    assert_eq!(g.edges().iter().count(), 0);
}

fn neighbors_listed<G: StaticGraph>() {
    let mut g = G::with_capacity(5);

    g.add_edge(1, 2);
    g.add_edge(1, 3);

    assert!(g.neighbors(1).iter().any(|&x| x == 2));
    assert!(g.neighbors(1).iter().any(|&x| x == 3));
    assert!(g.neighbors(2).iter().any(|&x| x == 1));
    assert!(g.neighbors(3).iter().any(|&x| x == 1));
    assert_eq!(g.neighbors(1).iter().count(), 2);
    assert_eq!(g.neighbors(2).iter().count(), 1);
    assert_eq!(g.neighbors(3).iter().count(), 1);

    assert!(!g.neighbors(1).iter().any(|&x| x == 1));
    assert!(!g.neighbors(2).iter().any(|&x| x == 2));
    assert!(!g.neighbors(2).iter().any(|&x| x == 3));
}

fn neighbors_none<G: StaticGraph>() {
    let mut g = G::with_capacity(5);

    g.add_edge(1, 2);
    g.add_edge(1, 3);

    assert!(!g.neighbors(5).iter().any(|&x| x == 1));
    assert_eq!(g.neighbors(5).iter().count(), 0);
}

fn largest_degree<G: StaticGraph>() {
    let mut g = G::with_capacity(5);

    g.add_edge(1, 2);
    g.add_edge(1, 3);
    g.add_edge(1, 1);
    g.add_edge(1, 2);

    assert_eq!(g.max_degree(), 2);

    g.add_edge(2, 3);
    g.add_edge(2, 4);

    assert_eq!(g.max_degree(), 3);
}

fn random_half<G: StaticGraph>() {
    let g = G::random(100, 1, 2);

    let num_edges = g.edges().iter().count();

    assert!(num_edges > 2000);
    assert!(num_edges < 3000);
}

fn random_all<G: StaticGraph>() {
    let g = G::random(100, 1, 1);

    let num_edges = g.edges().iter().count();

    assert_eq!(num_edges, (100 * 99) / 2);
}

fn random_none<G: StaticGraph>() {
    let g = G::random(100, 0, 1);

    let num_edges = g.edges().iter().count();

    assert_eq!(num_edges, 0);
}

fn complete_graph<G: StaticGraph>() {
    let n = 50;
    let g = G::complete(n);

    assert_eq!(g.edges().iter().count(), n * (n - 1) / 2);
}

fn run<G: StaticGraph>() {
    creation_empty::<G>();
    creation_empty_selfedge::<G>();
    creation_empty_with_capacity::<G>();
    insertion_1::<G>();
    insertion_out_of_bounds::<G>();
    insertion_1_duplicate::<G>();
    insertion_selfedge::<G>();
    insertion_1_test_nonexistent::<G>();
    insertion_large_all::<G>();
    insertion_large_with_duplicates::<G>();
    edges_listed::<G>();
    edges_empty::<G>();
    neighbors_listed::<G>();
    neighbors_none::<G>();
    largest_degree::<G>();
    random_half::<G>();
    random_all::<G>();
    random_none::<G>();
    complete_graph::<G>();
}

fn from_graph_forth<G1: StaticGraph, G2: FromGraph>() {
    let g1 = G1::random(100, 1, 2);
    let g2 = G2::from_graph(&g1);

    let edges1 = g1.edges().into_iter().collect::<HashSet<(usize, usize)>>();
    let edges2 = g2.edges().into_iter().collect::<HashSet<(usize, usize)>>();

    assert_eq!(edges1, edges2);
}

fn run_interop<G1: FromGraph, G2: FromGraph>() {
    from_graph_forth::<G1, G2>();
    from_graph_forth::<G2, G1>();
}

#[test]
fn test_edgelist() {
    run::<EdgeList>();
}

#[test]
fn test_adjmatrix() {
    run::<AdjMatrix>();
}

#[test]
fn test_growableadjmatrix() {
    run::<GrowableAdjMatrix>();
}

#[test]
fn test_adjlist() {
    run::<AdjList>();
}

#[test]
fn test_hybrid() {
    run::<Hybrid>();
}

#[test]
fn test_el_adj() {
    run_interop::<EdgeList, AdjMatrix>();
}

#[test]
fn test_el_gadj() {
    run_interop::<EdgeList, GrowableAdjMatrix>();
}

#[test]
fn test_adj_gadj() {
    run_interop::<AdjMatrix, GrowableAdjMatrix>();
}

#[test]
fn test_hybrid_el() {
    run_interop::<Hybrid, EdgeList>();
}

#[test]
fn test_hybrid_al() {
    run_interop::<Hybrid, AdjList>();
}

#[test]
fn test_hybrid_am() {
    run_interop::<Hybrid, AdjMatrix>();
}

fn vertices_are_dense<G: StaticGraph>() {
    let mut g = G::with_capacity(3);
    assert_eq!(g.num_vertices(), 3);
    assert_eq!(g.vertices(), vec![0, 1, 2]);

    g.add_edge(1, 1);
    g.add_edge(2, 0);
    assert_eq!(g.num_vertices(), 3);
    assert_eq!(g.edges(), vec![(0, 2)]);
    assert_eq!(g.neighbors(0), vec![2]);
    assert_eq!(g.neighbors(2), vec![0]);
    assert_eq!(g.max_degree(), 1);
}

fn insertion_is_commutative_and_idempotent<G: StaticGraph>() {
    let mut one = G::with_capacity(6);
    let mut other = G::with_capacity(6);
    one.add_edge(4, 2);
    other.add_edge(2, 4);
    other.add_edge(4, 2);
    other.add_edge(2, 4);

    assert_eq!(one.edges(), vec![(2, 4)]);
    assert_eq!(other.edges(), vec![(2, 4)]);
    assert_eq!(one.num_vertices(), other.num_vertices());
}

fn grows_with_its_edges<G: StaticGraph>() {
    let mut g = G::with_capacity(2);
    g.add_edge(0, 5);

    assert!(g.has_edge(5, 0));
    assert_eq!(g.num_vertices(), 6);
    assert_eq!(g.vertices(), vec![0, 1, 2, 3, 4, 5]);
    assert_eq!(g.neighbors(5), vec![0]);
    assert_eq!(g.neighbors(3).len(), 0);
}

#[test]
fn contract_on_every_representation() {
    vertices_are_dense::<AdjList>();
    vertices_are_dense::<AdjMatrix>();
    vertices_are_dense::<EdgeList>();
    vertices_are_dense::<GrowableAdjMatrix>();
    vertices_are_dense::<Hybrid>();
    insertion_is_commutative_and_idempotent::<AdjList>();
    insertion_is_commutative_and_idempotent::<AdjMatrix>();
    insertion_is_commutative_and_idempotent::<EdgeList>();
    insertion_is_commutative_and_idempotent::<GrowableAdjMatrix>();
    insertion_is_commutative_and_idempotent::<Hybrid>();
}

#[test]
fn growing_representations_extend_the_vertices() {
    grows_with_its_edges::<AdjList>();
    grows_with_its_edges::<EdgeList>();
    grows_with_its_edges::<GrowableAdjMatrix>();
    grows_with_its_edges::<Hybrid>();
}

#[test]
fn adjmatrix_drops_edges_beyond_its_capacity() {
    let mut g = AdjMatrix::with_capacity(2);
    g.add_edge(0, 5);
    g.add_edge(2, 1);
    g.add_edge(1, 0);

    assert!(!g.has_edge(0, 5));
    assert!(!g.has_edge(1, 2));
    assert!(g.has_edge(0, 1));
    assert_eq!(g.num_vertices(), 2);
    assert_eq!(g.edges(), vec![(0, 1)]);
}

#[test]
fn growableadjmatrix_doubles_its_capacity() {
    let mut g = GrowableAdjMatrix::new();
    assert_eq!(g.capacity(), 256);
    assert_eq!(g.num_vertices(), 256);

    g.add_edge(255, 3);
    assert_eq!(g.capacity(), 256);

    g.add_edge(1024, 3);
    assert_eq!(g.capacity(), 2048);
    assert_eq!(g.num_vertices(), 1025);
    assert!(g.has_edge(3, 255));
    assert!(g.has_edge(3, 1024));
    assert!(!g.has_edge(255, 1024));
    assert_eq!(g.edges(), vec![(3, 255), (3, 1024)]);

    assert_eq!(GrowableAdjMatrix::with_capacity(0).capacity(), 1);
    assert_eq!(GrowableAdjMatrix::with_capacity(7).capacity(), 7);
}

#[test]
fn new_graphs_are_empty() {
    assert_eq!(AdjList::new().num_vertices(), 0);
    assert_eq!(EdgeList::new().num_vertices(), 0);
    assert_eq!(Hybrid::new().num_vertices(), 0);
    assert_eq!(AdjList::new().edges().len(), 0);
    assert_eq!(EdgeList::new().edges().len(), 0);
    assert_eq!(Hybrid::new().edges().len(), 0);
    assert_eq!(GrowableAdjMatrix::new().edges().len(), 0);
    assert_eq!(AdjList::new().max_degree(), 0);
}

#[test]
fn from_graph_keeps_the_edges() {
    let mut g = AdjMatrix::with_capacity(9);
    g.add_edge(5, 1);
    g.add_edge(1, 2);

    let list = AdjList::from_graph(&g);
    let set = EdgeList::from_graph(&g);
    let both = Hybrid::from_graph(&g);
    let grown = GrowableAdjMatrix::from_graph(&g);
    let fixed = AdjMatrix::from_graph(&list);

    assert_eq!(list.edges(), vec![(1, 2), (1, 5)]);
    assert_eq!(set.edges().len(), 2);
    assert_eq!(both.edges().len(), 2);
    assert_eq!(grown.edges(), vec![(1, 2), (1, 5)]);
    assert_eq!(fixed.edges(), vec![(1, 2), (1, 5)]);
    assert_eq!(list.num_vertices(), 6);
    assert_eq!(set.num_vertices(), 6);
    assert_eq!(both.num_vertices(), 6);
    assert_eq!(grown.num_vertices(), 9);
    assert_eq!(fixed.num_vertices(), 6);
}

#[test]
fn complete_graph_has_every_edge() {
    let g = Hybrid::complete(5);

    assert_eq!(g.edges().len(), 5 * 4 / 2);
    assert_eq!(g.max_degree(), 4);
    for u in 0..5 {
        for v in 0..5 {
            assert_eq!(g.has_edge(u, v), u != v);
        }
    }
    assert_eq!(AdjList::complete(0).edges().len(), 0);
    assert_eq!(AdjList::complete(1).edges().len(), 0);
}

#[test]
fn random_draws_are_certain_at_both_ends() {
    assert_eq!(AdjList::random(20, 0, 0).edges().len(), 0);
    assert_eq!(AdjList::random(20, 0, 7).edges().len(), 0);
    assert_eq!(AdjList::random(20, 7, 7).edges().len(), 190);
    assert_eq!(AdjList::random(20, 9, 7).edges().len(), 190);
    assert_eq!(AdjList::random(20, 1, 0).edges().len(), 190);
    assert_eq!(AdjList::random(20, 1, 2).num_vertices(), 20);
}

#[test]
fn distinct_edges_keeps_the_first_of_each() {
    let edges = vec![(0, 1), (2, 3), (0, 1), (1, 2), (2, 3), (0, 1)];

    assert_eq!(graml::graph::unique::distinct_edges(edges), vec![(0, 1), (2, 3), (1, 2)]);
    assert_eq!(graml::graph::unique::distinct_edges(vec![]), vec![]);
}

#[test]
fn random_index_stays_below_its_bound() {
    assert_eq!(graml::graph::chance::random_index(0), None);
    for _ in 0..50 {
        assert_eq!(graml::graph::chance::random_index(1), Some(0));
        assert!(graml::graph::chance::random_index(7).unwrap() < 7);
    }
}

#[test]
fn draw_is_certain_at_both_ends() {
    for _ in 0..50 {
        assert!(!graml::graph::chance::draw(0, 5));
        assert!(graml::graph::chance::draw(5, 5));
        assert!(graml::graph::chance::draw(6, 5));
        assert!(graml::graph::chance::draw(1, 0));
        assert!(!graml::graph::chance::draw(0, 0));
    }
    let hits = (0..1000).filter(|_| graml::graph::chance::draw(1, 2)).count();
    assert!(hits > 300);
    assert!(hits < 700);
}
