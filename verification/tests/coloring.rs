use graml::coloring::{
    check_coloring, compatible_coloring, cs_coloring, lf_coloring, num_colors, rs_coloring,
    sdo_coloring, sl_coloring, two_coloring, Coloring,
};
use graml::graph::{AdjList, AdjMatrix, StaticGraph};

#[test]
fn coloring_creation_empty() {
    let g = AdjList::new();
    let c = Coloring::new();

    assert!(check_coloring(&g, &c));
}

#[test]
fn coloring_creation_fail() {
    let mut g = AdjList::new();
    let c = Coloring::new();

    g.add_edge(0, 1);

    assert!(!check_coloring(&g, &c));
    assert!(!compatible_coloring(&g, &c));
}

#[test]
fn coloring_creation_success() {
    let mut g = AdjList::new();

    g.add_edge(0, 1);

    let c = vec![0, 1];

    assert!(check_coloring(&g, &c));
}

#[test]
fn coloring_creation_large() {
    let n = 100;
    let mut g = AdjList::new();
    let mut c = vec![0; n];

    for u in 0..n {
        for v in u..n {
            g.add_edge(u, v);
        }
    }

    for u in 0..100 {
        c[u] = u;
    }

    assert!(compatible_coloring(&g, &c));
    assert!(check_coloring(&g, &c));

    c[4] = 5;

    assert!(compatible_coloring(&g, &c));
    assert!(!check_coloring(&g, &c));
}

#[test]
fn test_num_colors() {
    let n = 100;
    let mut c = vec![0; n];

    for u in 0..100 {
        c[u] = u % 11;
    }

    assert_eq!(num_colors(&c), 11);
}

#[test]
fn rs_color() {
    let mut g = AdjList::new();

    g.add_edge(0, 1);

    let c = rs_coloring(&g);

    assert!(check_coloring(&g, &c));
    assert_eq!(num_colors(&c), 2);
}

#[test]
fn rs_color2() {
    let mut g = AdjList::new();

    g.add_edge(0, 1);
    g.add_edge(0, 2);

    let c = rs_coloring(&g);

    assert!(check_coloring(&g, &c));
    assert_eq!(num_colors(&c), 2);
}

#[test]
fn rs_line() {
    let mut g = AdjList::new();

    for i in 0..10 {
        g.add_edge(i, i + 1);
    }

    let c = rs_coloring(&g);

    assert!(check_coloring(&g, &c));

    assert!(num_colors(&c) <= 3);
    assert!(num_colors(&c) <= g.max_degree() + 1);
}

#[test]
fn rs_random() {
    let g = AdjList::random(100, 1, 2);

    let c = rs_coloring(&g);

    assert!(check_coloring(&g, &c));
    assert!(num_colors(&c) <= g.vertices().iter().count());
    assert!(num_colors(&c) >= 2);
    assert!(num_colors(&c) <= g.max_degree() + 1);
}

#[test]
fn cs_color() {
    let mut g = AdjList::new();

    g.add_edge(0, 1);

    let c = cs_coloring(&g);

    assert!(check_coloring(&g, &c));
    assert_eq!(num_colors(&c), 2);
}

#[test]
fn cs_color2() {
    let mut g = AdjList::new();

    g.add_edge(0, 1);
    g.add_edge(0, 2);

    let c = cs_coloring(&g);

    assert!(check_coloring(&g, &c));
    assert_eq!(num_colors(&c), 2);
}

#[test]
fn cs_line() {
    let mut g = AdjList::new();

    for i in 0..10 {
        g.add_edge(i, i + 1);
    }

    let c = cs_coloring(&g);

    assert!(check_coloring(&g, &c));

    assert!(num_colors(&c) == 2);
}

#[test]
fn cs_random() {
    let g = AdjList::random(100, 1, 2);

    let c = cs_coloring(&g);

    assert!(check_coloring(&g, &c));
    assert!(num_colors(&c) <= g.vertices().iter().count());
    assert!(num_colors(&c) >= 2);
    assert!(num_colors(&c) <= g.max_degree() + 1);
}

#[test]
fn lf_color() {
    let mut g = AdjList::new();

    g.add_edge(0, 1);

    let c = lf_coloring(&g);

    assert!(check_coloring(&g, &c));
    assert_eq!(num_colors(&c), 2);
}

#[test]
fn lf_color2() {
    let mut g = AdjList::new();

    g.add_edge(0, 1);
    g.add_edge(0, 2);

    let c = lf_coloring(&g);

    assert!(check_coloring(&g, &c));
    assert_eq!(num_colors(&c), 2);
}

#[test]
fn lf_line() {
    let mut g = AdjList::new();

    for i in 0..10 {
        g.add_edge(i, i + 1);
    }

    let c = lf_coloring(&g);

    assert!(check_coloring(&g, &c));

    assert!(num_colors(&c) <= 3);
    assert!(num_colors(&c) <= g.max_degree() + 1);
}

#[test]
fn lf_random() {
    let g = AdjList::random(100, 1, 2);

    let c = lf_coloring(&g);

    assert!(check_coloring(&g, &c));
    assert!(num_colors(&c) <= g.vertices().iter().count());
    assert!(num_colors(&c) >= 2);
    assert!(num_colors(&c) <= g.max_degree() + 1);
}

#[test]
fn sl_color() {
    let mut g = AdjList::new();

    g.add_edge(0, 1);

    let c = sl_coloring(&g);

    assert!(check_coloring(&g, &c));
    assert_eq!(num_colors(&c), 2);
}

#[test]
fn sl_color2() {
    let mut g = AdjList::new();

    g.add_edge(0, 1);
    g.add_edge(0, 2);

    let c = sl_coloring(&g);

    assert!(check_coloring(&g, &c));
    assert_eq!(num_colors(&c), 2);
}

#[test]
fn sl_line() {
    let mut g = AdjList::new();

    for i in 0..10 {
        g.add_edge(i, i + 1);
    }

    let c = sl_coloring(&g);

    assert!(check_coloring(&g, &c));

    assert!(num_colors(&c) == 2);
}

#[test]
fn sl_random() {
    let g = AdjList::random(100, 1, 2);

    let c = sl_coloring(&g);

    assert!(check_coloring(&g, &c));
    assert!(num_colors(&c) <= g.vertices().iter().count());
    assert!(num_colors(&c) >= 2);
    assert!(num_colors(&c) <= g.max_degree() + 1);
}

#[test]
fn sdo_color() {
    let mut g = AdjList::new();

    g.add_edge(0, 1);

    let c = sdo_coloring(&g);

    assert!(check_coloring(&g, &c));
    assert_eq!(num_colors(&c), 2);
}

#[test]
fn sdo_color2() {
    let mut g = AdjList::new();

    g.add_edge(0, 1);
    g.add_edge(0, 2);

    let c = sdo_coloring(&g);

    assert!(check_coloring(&g, &c));
    assert_eq!(num_colors(&c), 2);
}

#[test]
fn sdo_line() {
    let mut g = AdjList::new();

    for i in 0..10 {
        g.add_edge(i, i + 1);
    }

    let c = sdo_coloring(&g);

    assert!(check_coloring(&g, &c));

    assert_eq!(num_colors(&c), 2);
}

#[test]
fn sdo_random() {
    let g = AdjList::random(100, 1, 2);

    let c = sdo_coloring(&g);

    assert!(check_coloring(&g, &c));
    assert!(num_colors(&c) <= g.vertices().iter().count());
    assert!(num_colors(&c) >= 2);
    assert!(num_colors(&c) <= g.max_degree() + 1);
}

#[test]
fn tree_coloring() {
    let mut g = AdjList::new();

    for i in 0..127 {
        g.add_edge(i, 2 * i + 1);
        g.add_edge(i, 2 * i + 2);
    }

    let c = rs_coloring(&g);
    let c1 = lf_coloring(&g);
    let c2 = sl_coloring(&g);
    let c3 = two_coloring(&g).unwrap();
    let c4 = cs_coloring(&g);
    let c5 = sdo_coloring(&g);

    assert!(check_coloring(&g, &c));
    assert!(check_coloring(&g, &c1));
    assert!(check_coloring(&g, &c2));
    assert!(check_coloring(&g, &c3));
    assert!(check_coloring(&g, &c4));
    assert!(check_coloring(&g, &c5));

    assert!(num_colors(&c) <= 4);
    assert!(num_colors(&c1) <= 4);
    assert!(num_colors(&c2) == 2);
    assert_eq!(num_colors(&c3), 2);
    assert_eq!(num_colors(&c4), 2);
    assert_eq!(num_colors(&c5), 2);
}

#[test]
fn even_cycle_coloring() {
    let mut g = AdjList::new();

    let n = 128;
    for i in 0..n {
        g.add_edge(i, (i + 1) % n);
    }

    let c = rs_coloring(&g);
    let c1 = lf_coloring(&g);
    let c2 = sl_coloring(&g);
    let c3 = two_coloring(&g);
    let c4 = cs_coloring(&g);
    let c5 = sdo_coloring(&g);

    assert!(c3.is_some());
    let c3 = c3.unwrap();

    assert!(check_coloring(&g, &c));
    assert!(check_coloring(&g, &c1));
    assert!(check_coloring(&g, &c2));
    assert!(check_coloring(&g, &c3));
    assert!(check_coloring(&g, &c4));
    assert!(check_coloring(&g, &c5));

    assert!(num_colors(&c) >= 2 && num_colors(&c) <= 3);
    assert!(num_colors(&c1) >= 2 && num_colors(&c) <= 3);
    assert_eq!(num_colors(&c2), 2);
    assert_eq!(num_colors(&c3), 2);
    assert_eq!(num_colors(&c4), 2);
    assert_eq!(num_colors(&c5), 2);
}

#[test]
fn odd_cycle_coloring() {
    let mut g = AdjList::new();

    let n = 127;
    for i in 0..n {
        g.add_edge(i, (i + 1) % n);
    }

    let c = rs_coloring(&g);
    let c1 = lf_coloring(&g);
    let c2 = sl_coloring(&g);
    let c3 = two_coloring(&g);
    let c4 = cs_coloring(&g);
    let c5 = sdo_coloring(&g);

    assert!(c3.is_none());

    assert!(check_coloring(&g, &c));
    assert!(check_coloring(&g, &c1));
    assert!(check_coloring(&g, &c2));
    assert!(check_coloring(&g, &c4));
    assert!(check_coloring(&g, &c5));

    assert_eq!(num_colors(&c), 3);
    assert_eq!(num_colors(&c1), 3);
    assert_eq!(num_colors(&c2), 3);
    assert_eq!(num_colors(&c4), 3);
    assert_eq!(num_colors(&c5), 3);
}

#[test]
fn prism_coloring() {
    let mut g = AdjList::new();

    g.add_edge(0, 1);
    g.add_edge(0, 2);
    g.add_edge(1, 2);
    g.add_edge(0, 3);
    g.add_edge(1, 4);
    g.add_edge(2, 5);
    g.add_edge(3, 4);
    g.add_edge(3, 5);
    g.add_edge(4, 5);

    let c = rs_coloring(&g);
    let c1 = lf_coloring(&g);
    let c2 = sl_coloring(&g);
    let c3 = cs_coloring(&g);
    let c4 = sdo_coloring(&g);

    assert!(check_coloring(&g, &c));
    assert!(check_coloring(&g, &c1));
    assert!(check_coloring(&g, &c2));
    assert!(check_coloring(&g, &c3));
    assert!(check_coloring(&g, &c4));

    assert!(num_colors(&c) <= 4);
    assert!(num_colors(&c1) <= 4);
    assert!(num_colors(&c2) <= 4);
    assert!(num_colors(&c3) <= 4);
    assert!(num_colors(&c4) <= 4);

    assert!(num_colors(&c) >= 3);
    assert!(num_colors(&c1) >= 3);
    assert!(num_colors(&c2) >= 3);
    assert!(num_colors(&c3) >= 3);
    assert!(num_colors(&c4) >= 3);
}

#[test]
fn two_color() {
    let mut g = AdjList::new();

    g.add_edge(0, 1);

    let c = two_coloring(&g);

    assert!(c.is_some());
    let c = c.unwrap();

    assert!(check_coloring(&g, &c));
    assert_eq!(num_colors(&c), 2);
}

#[test]
fn two_color2() {
    let mut g = AdjList::new();

    g.add_edge(0, 1);
    g.add_edge(0, 2);

    let c = two_coloring(&g);

    assert!(c.is_some());
    let c = c.unwrap();

    assert!(check_coloring(&g, &c));
    assert_eq!(num_colors(&c), 2);
}

#[test]
fn two_line() {
    let mut g = AdjList::new();

    for i in 0..10 {
        g.add_edge(i, i + 1);
    }

    let c = two_coloring(&g);

    assert!(c.is_some());
    let c = c.unwrap();

    assert!(check_coloring(&g, &c));

    assert_eq!(num_colors(&c), 2);
}

#[test]
fn two_fail() {
    let mut g = AdjList::new();

    g.add_edge(0, 1);
    g.add_edge(1, 2);
    g.add_edge(2, 0);

    let c = two_coloring(&g);

    assert!(c.is_none());
}

#[test]
fn random_coloring() {
    let g1 = AdjList::random(100, 1, 2);
    let g2 = AdjMatrix::random(100, 1, 2);

    let c = rs_coloring(&g1);
    let c1 = lf_coloring(&g1);
    let c2 = sl_coloring(&g1);
    let c3 = cs_coloring(&g1);

    assert!(check_coloring(&g1, &c));
    assert!(check_coloring(&g1, &c1));
    assert!(check_coloring(&g1, &c2));
    assert!(check_coloring(&g1, &c3));

    let c = rs_coloring(&g2);
    let c1 = lf_coloring(&g2);
    let c2 = sl_coloring(&g2);
    let c3 = cs_coloring(&g2);

    assert!(check_coloring(&g2, &c));
    assert!(check_coloring(&g2, &c1));
    assert!(check_coloring(&g2, &c2));
    assert!(check_coloring(&g2, &c3));
}
