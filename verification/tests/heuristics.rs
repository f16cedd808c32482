use graml::coloring::connected::connected_sequence;
use graml::coloring::largest_first::{degrees, largest_first_order};
use graml::coloring::repair::{crossover, sort_by_colors};
use graml::coloring::smallest_last::elimination_order;
use graml::coloring::{
    all_colorings, check_coloring, color, cs_coloring, fix_coloring, genetic_coloring,
    greedy_coloring, lf_coloring, num_colors, repeat_coloring, rs_coloring, sdo_coloring,
    sl_coloring, two_coloring, Coloring,
};
use graml::graph::{AdjList, AdjMatrix, EdgeList, GrowableAdjMatrix, Hybrid, StaticGraph};

fn path(n: usize) -> AdjList {
    let mut g = AdjList::with_capacity(n);
    for i in 1..n {
        g.add_edge(i - 1, i);
    }
    g
}

fn cycle(n: usize) -> AdjList {
    let mut g = path(n);
    g.add_edge(n - 1, 0);
    g
}

fn prism<G: StaticGraph>() -> G {
    let mut g = G::with_capacity(6);
    for &(u, v) in &[(0, 1), (0, 2), (1, 2), (0, 3), (1, 4), (2, 5), (3, 4), (3, 5), (4, 5)] {
        g.add_edge(u, v);
    }
    g
}

fn heuristics_agree_with_the_bound<G: StaticGraph>(g: &G) {
    let bound = g.max_degree() + 1;
    for c in [rs_coloring(g), cs_coloring(g), lf_coloring(g), sl_coloring(g), sdo_coloring(g), color(g)] {
        assert!(check_coloring(g, &c));
        assert!(num_colors(&c) <= bound);
    }
}

#[test]
fn greedy_follows_the_order_given() {
    let g = path(4);

    assert_eq!(greedy_coloring(&g, &vec![0, 1, 2, 3]), vec![0, 1, 0, 1]);
    assert_eq!(greedy_coloring(&g, &vec![0, 3, 1, 2]), vec![0, 1, 2, 0]);
    assert_eq!(greedy_coloring(&g, &vec![3, 2, 1, 0]), vec![1, 0, 1, 0]);
}

#[test]
fn rs_colors_in_vertex_order() {
    let mut g = AdjList::new();
    g.add_edge(0, 3);
    g.add_edge(1, 2);
    g.add_edge(2, 3);

    assert_eq!(rs_coloring(&g), vec![0, 0, 1, 2]);
}

#[test]
fn connected_sequence_is_breadth_first_then_the_rest() {
    let mut g = AdjList::with_capacity(7);
    g.add_edge(0, 2);
    g.add_edge(0, 4);
    g.add_edge(2, 1);
    g.add_edge(5, 6);

    assert_eq!(connected_sequence(&g), vec![0, 2, 4, 1, 3, 5, 6]);
    assert_eq!(cs_coloring(&g), vec![0, 0, 1, 0, 1, 0, 1]);
}

#[test]
fn largest_first_order_is_stable() {
    let mut g = AdjList::with_capacity(6);
    g.add_edge(1, 2);
    g.add_edge(1, 3);
    g.add_edge(4, 3);
    g.add_edge(4, 5);
    g.add_edge(4, 2);

    assert_eq!(degrees(&g), vec![0, 2, 2, 2, 3, 1]);
    assert_eq!(largest_first_order(&g), vec![4, 1, 2, 3, 5, 0]);
    assert_eq!(lf_coloring(&g), vec![0, 0, 1, 1, 0, 1]);
}

#[test]
fn elimination_takes_the_least_remaining_degree() {
    let mut g = AdjList::with_capacity(5);
    g.add_edge(0, 1);
    g.add_edge(0, 2);
    g.add_edge(1, 2);
    g.add_edge(2, 3);
    g.add_edge(3, 4);

    let k = elimination_order(&g);
    assert_eq!(k[0], 4);
    assert_eq!(k[1], 3);
    let mut rest = k[2..].to_vec();
    rest.sort();
    assert_eq!(rest, vec![0, 1, 2]);

    let c = sl_coloring(&g);
    assert!(check_coloring(&g, &c));
    assert_eq!(num_colors(&c), 3);
    assert!(c[3] <= 1);
    assert!(c[4] <= 1);
}

#[test]
fn saturation_order_prefers_seen_colors_then_degree() {
    let mut g = AdjList::with_capacity(5);
    g.add_edge(0, 1);
    g.add_edge(1, 2);
    g.add_edge(1, 3);
    g.add_edge(2, 3);
    g.add_edge(3, 4);

    let c = sdo_coloring(&g);
    assert!(check_coloring(&g, &c));
    assert_eq!(num_colors(&c), 3);
    assert_eq!(c[1] + c[3], 1);
    assert_eq!(c[2], 2);
    assert_eq!(c[0], 1 - c[1]);
    assert_eq!(c[4], 1 - c[3]);
}

#[test]
fn heuristics_colour_graphs_in_pieces() {
    let mut g = AdjList::with_capacity(9);
    g.add_edge(1, 2);
    g.add_edge(4, 5);
    g.add_edge(5, 6);
    g.add_edge(6, 4);

    heuristics_agree_with_the_bound(&g);
    assert_eq!(sdo_coloring(&g).len(), 9);
    assert_eq!(num_colors(&sdo_coloring(&g)), 3);
}

#[test]
fn heuristics_colour_the_graph_without_vertices() {
    let g = AdjList::new();

    assert_eq!(rs_coloring(&g), Coloring::new());
    assert_eq!(cs_coloring(&g), Coloring::new());
    assert_eq!(lf_coloring(&g), Coloring::new());
    assert_eq!(sl_coloring(&g), Coloring::new());
    assert_eq!(sdo_coloring(&g), Coloring::new());
    assert_eq!(color(&g), Coloring::new());
    assert_eq!(two_coloring(&g), Some(Coloring::new()));
    assert_eq!(genetic_coloring(&g), Coloring::new());
    assert_eq!(all_colorings(&g), vec![0, 0, 0, 0, 0]);
}

#[test]
fn heuristics_on_every_representation() {
    heuristics_agree_with_the_bound(&prism::<AdjList>());
    heuristics_agree_with_the_bound(&prism::<AdjMatrix>());
    heuristics_agree_with_the_bound(&prism::<EdgeList>());
    heuristics_agree_with_the_bound(&prism::<GrowableAdjMatrix>());
    heuristics_agree_with_the_bound(&prism::<Hybrid>());
    heuristics_agree_with_the_bound(&AdjMatrix::complete(7));
    heuristics_agree_with_the_bound(&EdgeList::random(40, 1, 3));
    heuristics_agree_with_the_bound(&Hybrid::random(40, 2, 3));
    heuristics_agree_with_the_bound(&GrowableAdjMatrix::random(40, 1, 2));
}

#[test]
fn prism_takes_three_or_four_colors() {
    let g = prism::<AdjList>();

    for c in [rs_coloring(&g), cs_coloring(&g), lf_coloring(&g), sl_coloring(&g), sdo_coloring(&g)] {
        assert!(check_coloring(&g, &c));
        assert!(num_colors(&c) >= 3);
        assert!(num_colors(&c) <= 4);
    }
}

#[test]
fn color_returns_the_first_of_the_fewest() {
    let mut g = AdjList::new();
    g.add_edge(0, 3);
    g.add_edge(1, 2);
    g.add_edge(2, 3);

    assert_eq!(num_colors(&rs_coloring(&g)), 3);
    assert_eq!(cs_coloring(&g), vec![0, 1, 0, 1]);
    assert_eq!(color(&g), cs_coloring(&g));
    assert_eq!(all_colorings(&g), vec![3, 2, 2, 2, 2]);
}

#[test]
fn all_colorings_counts_each_heuristic() {
    assert_eq!(all_colorings(&cycle(9)), vec![3, 3, 3, 3, 3]);
    assert_eq!(all_colorings(&cycle(10)), vec![2, 2, 2, 2, 2]);
    assert_eq!(all_colorings(&AdjList::complete(6)), vec![6, 6, 6, 6, 6]);
}

#[test]
fn repeat_coloring_runs_the_method() {
    let g = cycle(7);

    let once = repeat_coloring(&g, |graph: &AdjList| sl_coloring(graph), 0);
    let often = repeat_coloring(&g, |graph: &AdjList| sl_coloring(graph), 5);
    let fixed = repeat_coloring(&g, |graph: &AdjList| rs_coloring(graph), 3);

    assert!(check_coloring(&g, &once));
    assert!(check_coloring(&g, &often));
    assert_eq!(num_colors(&once), 3);
    assert_eq!(num_colors(&often), 3);
    assert_eq!(fixed, rs_coloring(&g));
}

#[test]
fn two_coloring_reaches_the_part_of_vertex_zero_only() {
    let mut g = AdjList::new();
    g.add_edge(0, 1);
    g.add_edge(2, 3);
    g.add_edge(3, 4);
    g.add_edge(4, 2);

    let c = two_coloring(&g).unwrap();

    assert_eq!(c, vec![0, 1, 0, 0, 0]);
    assert!(!check_coloring(&g, &c));
}

#[test]
fn two_coloring_alternates_along_a_cycle() {
    assert_eq!(two_coloring(&cycle(6)), Some(vec![0, 1, 0, 1, 0, 1]));
    assert_eq!(two_coloring(&cycle(5)), None);
    assert_eq!(two_coloring(&path(1)), Some(vec![0]));
}

#[test]
fn fix_coloring_resolves_conflicts_edge_by_edge() {
    let g = path(3);
    let mut c = vec![0, 0, 0];

    fix_coloring(&g, &mut c);

    assert_eq!(c, vec![0, 1, 0]);
    assert!(check_coloring(&g, &c));
}

#[test]
fn fix_coloring_gives_the_smaller_offer() {
    let mut g = AdjList::with_capacity(4);
    g.add_edge(0, 1);
    g.add_edge(1, 2);
    g.add_edge(1, 3);
    let mut c = vec![7, 7, 0, 1];

    fix_coloring(&g, &mut c);

    assert_eq!(c, vec![0, 7, 0, 1]);
}

#[test]
fn fix_coloring_leaves_a_proper_coloring_alone() {
    let g = cycle(5);
    let mut c = vec![4, 9, 4, 9, 2];

    fix_coloring(&g, &mut c);

    assert_eq!(c, vec![4, 9, 4, 9, 2]);
}

#[test]
fn crossover_cuts_at_the_split() {
    let mom = vec![1, 2, 3, 4];
    let dad = vec![5, 6, 7, 8];

    assert_eq!(crossover(&mom, &dad, 0), vec![5, 6, 7, 8]);
    assert_eq!(crossover(&mom, &dad, 1), vec![1, 6, 7, 8]);
    assert_eq!(crossover(&mom, &dad, 3), vec![1, 2, 3, 8]);
    assert_eq!(crossover(&mom, &dad, 9), vec![1, 2, 3, 4]);
}

#[test]
fn sort_by_colors_is_stable() {
    let mut colorings = vec![vec![0, 1, 2], vec![5, 5, 5], vec![0, 1, 0], vec![9, 9, 9], vec![3, 4, 3]];

    sort_by_colors(&mut colorings);

    assert_eq!(
        colorings,
        vec![vec![5, 5, 5], vec![9, 9, 9], vec![0, 1, 0], vec![3, 4, 3], vec![0, 1, 2]]
    );
}

#[test]
fn genetic_coloring_is_no_worse_than_smallest_last() {
    let g = AdjList::random(30, 1, 3);

    let c = genetic_coloring(&g);

    assert_eq!(c.len(), g.num_vertices());
    assert!(num_colors(&c) <= g.max_degree() + 1);

    let tree = path(12);
    let c = genetic_coloring(&tree);
    assert_eq!(c.len(), 12);
    assert!(num_colors(&c) <= 2);
}

#[test]
fn checks_and_counts_are_repeatable() {
    let g = prism::<Hybrid>();
    let good = sl_coloring(&g);
    let bad = vec![0; 6];

    assert_eq!(check_coloring(&g, &good), check_coloring(&g, &good));
    assert_eq!(check_coloring(&g, &bad), check_coloring(&g, &bad));
    assert!(!check_coloring(&g, &bad));
    assert_eq!(num_colors(&good), num_colors(&good));
    assert_eq!(num_colors(&bad), 1);
    assert_eq!(num_colors(&Coloring::new()), 0);
}
