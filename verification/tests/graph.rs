use graml::graph::Graph;

#[test]
fn creation() {
    let g = Graph::new();

    assert!(!g.has_edge(0, 1));
}

#[test]
fn insertion() {
    let mut g = Graph::new();
    g.add_edge(1, 2);

    assert!(g.has_edge(1, 2));
    assert!(!g.has_edge(1, 3));
}

#[test]
fn insertion_reversed() {
    let mut g = Graph::new();
    g.add_edge(1, 2);

    assert!(g.has_edge(2, 1));
    assert!(!g.has_edge(1, 3));
}

#[test]
fn insertion_large() {
    let mut g = Graph::new();

    for u in 0..100 {
        for v in u..100 {
            g.add_edge(u, v);
        }
    }

    assert!(g.has_edge(40, 11));
}

#[test]
fn edges() {
    let mut g = Graph::new();
    g.add_edge(1, 2);
    g.add_edge(1, 3);

    assert!(g.edges().iter().any(|&x| x == (1, 3)));
    assert!(g.edges().iter().any(|&x| x == (1, 2)));
    assert!(!g.edges().iter().any(|&x| x == (2, 3)));
}

#[test]
fn neighbors() {
    let mut g = Graph::new();

    g.add_edge(1, 2);
    g.add_edge(1, 3);

    assert!(g.neighbors(1).iter().any(|&x| x == 2));
    assert!(g.neighbors(1).iter().any(|&x| x == 3));
    assert!(g.neighbors(2).iter().any(|&x| x == 1));
    assert!(g.neighbors(3).iter().any(|&x| x == 1));

    assert!(!g.neighbors(1).iter().any(|&x| x == 1));
    assert!(!g.neighbors(2).iter().any(|&x| x == 3));
}

#[test]
fn neighbors_empty() {
    let mut g = Graph::new();

    g.add_edge(1, 2);
    g.add_edge(1, 3);

    assert!(!g.neighbors(5).iter().any(|&x| x == 1));
}

#[test]
fn max_degree() {
    let mut g = Graph::new();

    g.add_edge(1, 2);
    g.add_edge(1, 3);
    g.add_edge(1, 1);
    g.add_edge(1, 2);

    assert_eq!(g.max_degree(), 2);

    g.add_edge(2, 3);
    g.add_edge(2, 4);

    assert_eq!(g.max_degree(), 3);
}

#[test]
fn random() {
    let g = Graph::random(100, 1, 2);

    let num_edges = g.edges().iter().count();

    assert!(num_edges > 2000);
    assert!(num_edges < 3000);
}

#[test]
fn random_full() {
    let g = Graph::random(100, 1, 1);

    let num_edges = g.edges().iter().count();

    assert_eq!(num_edges, (100 * 99) / 2);
}

#[test]
fn random_empty() {
    let g = Graph::random(100, 0, 1);

    let num_edges = g.edges().iter().count();

    assert_eq!(num_edges, 0);
}

#[test]
fn vertices_are_the_ends_of_edges() {
    let mut g = Graph::new();
    assert!(g.vertices().is_empty());

    g.add_edge(7, 3);
    g.add_edge(3, 3);

    let mut vs = g.vertices();
    vs.sort();
    assert_eq!(vs, vec![3, 7]);
    assert_eq!(g.edges(), vec![(3, 7)]);
}

#[test]
fn edge_keys_keep_large_vertices_apart() {
    let mut g = Graph::new();
    let big = usize::MAX - 1;
    g.add_edge(big, 1);
    g.add_edge(0, big);

    assert!(g.has_edge(1, big));
    assert!(g.has_edge(big, 0));
    assert!(!g.has_edge(0, 1));
    assert!(!g.has_edge(big, big));

    let mut es = g.edges();
    es.sort();
    assert_eq!(es, vec![(0, big), (1, big)]);
    assert_eq!(g.max_degree(), 2);
}
