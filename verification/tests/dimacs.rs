use graml::graph::dimacs::{parse_number, split};
use graml::graph::{load_graph, LoadError, StaticGraph};

fn bytes(text: &str) -> Vec<u8> {
    text.as_bytes().to_vec()
}

#[test]
fn load_small_graph() {
    let g = load_graph(&bytes("c a triangle and a tail\np edge 5 4\ne 1 2\ne 2 3\ne 3 1\ne 3 4\n"))
        .unwrap();

    assert_eq!(g.num_vertices(), 5);
    assert!(g.has_edge(0, 1));
    assert!(g.has_edge(1, 2));
    assert!(g.has_edge(2, 0));
    assert!(g.has_edge(2, 3));
    assert!(!g.has_edge(3, 4));
    assert_eq!(g.edges().len(), 4);
    assert_eq!(g.neighbors(4).len(), 0);
}

#[test]
fn load_without_final_newline_and_with_carriage_returns() {
    let g = load_graph(&bytes("p edge 2 1\r\ne 2 1")).unwrap();

    assert_eq!(g.num_vertices(), 2);
    assert_eq!(g.edges(), vec![(0, 1)]);
}

#[test]
fn load_edges_in_any_order_and_beyond_the_declared_size() {
    let g = load_graph(&bytes("p edge 2 3\ne 4 1\ne 2 1\ne 1 4\n")).unwrap();

    assert_eq!(g.num_vertices(), 4);
    assert!(g.has_edge(0, 3));
    assert!(g.has_edge(0, 1));
    assert_eq!(g.edges().len(), 2);
}

#[test]
fn load_second_problem_line_starts_again() {
    let g = load_graph(&bytes("p edge 3 1\ne 1 2\np edge 4 0\n")).unwrap();

    assert_eq!(g.num_vertices(), 4);
    assert_eq!(g.edges().len(), 0);
}

#[test]
fn load_refuses_unexpected_line() {
    assert_eq!(load_graph(&bytes("p edge 2 1\nx 1 2\n")).err(), Some(LoadError::UnexpectedLine));
    assert_eq!(load_graph(&bytes("p edge 2 1\n\ne 1 2\n")).err(), Some(LoadError::UnexpectedLine));
    assert_eq!(load_graph(&bytes("p edge 2 1\ne 1 2\r")).err(), Some(LoadError::InvalidNumber));
}

#[test]
fn load_refuses_missing_field() {
    assert_eq!(load_graph(&bytes("p edge\n")).err(), Some(LoadError::MissingField));
    assert_eq!(load_graph(&bytes("p edge 3\n")).err(), Some(LoadError::MissingField));
    assert_eq!(load_graph(&bytes("p edge 3 1\ne 1\n")).err(), Some(LoadError::MissingField));
    assert_eq!(load_graph(&bytes("e\n")).err(), Some(LoadError::MissingField));
}

#[test]
fn load_refuses_invalid_number() {
    assert_eq!(load_graph(&bytes("p edge three 1\n")).err(), Some(LoadError::InvalidNumber));
    assert_eq!(load_graph(&bytes("p edge 3 -1\n")).err(), Some(LoadError::InvalidNumber));
    assert_eq!(load_graph(&bytes("p edge 3 1\ne 1  2\n")).err(), Some(LoadError::InvalidNumber));
    assert_eq!(
        load_graph(&bytes("p edge 3 1\ne 1 99999999999999999999999999\n")).err(),
        Some(LoadError::InvalidNumber)
    );
}

#[test]
fn load_refuses_edge_before_problem_line() {
    assert_eq!(load_graph(&bytes("c none yet\ne 1 2\np edge 2 1\n")).err(), Some(LoadError::EdgeBeforeProblem));
    assert_eq!(load_graph(&bytes("e 0 2\n")).err(), Some(LoadError::EdgeBeforeProblem));
}

#[test]
fn load_refuses_vertex_zero() {
    assert_eq!(load_graph(&bytes("p edge 2 1\ne 0 1\n")).err(), Some(LoadError::VertexZero));
    assert_eq!(load_graph(&bytes("p edge 2 1\ne 1 0\n")).err(), Some(LoadError::VertexZero));
}

#[test]
fn load_refuses_text_without_problem_line() {
    assert_eq!(load_graph(&bytes("")).err(), Some(LoadError::NoProblemLine));
    assert_eq!(load_graph(&bytes("c only a comment\n")).err(), Some(LoadError::NoProblemLine));
}

#[test]
fn load_stops_at_the_first_refused_line() {
    assert_eq!(load_graph(&bytes("p edge 2 1\ne 0 1\nx\n")).err(), Some(LoadError::VertexZero));
    assert_eq!(load_graph(&bytes("x\ne 0 1\n")).err(), Some(LoadError::UnexpectedLine));
}

#[test]
fn split_keeps_empty_pieces() {
    assert_eq!(split(&bytes("a b  c"), b' '), vec![bytes("a"), bytes("b"), bytes(""), bytes("c")]);
    assert_eq!(split(&bytes(""), b' '), vec![bytes("")]);
    assert_eq!(split(&bytes(" "), b' '), vec![bytes(""), bytes("")]);
    assert_eq!(split(&bytes("ab"), b' '), vec![bytes("ab")]);
}

#[test]
fn parse_number_reads_decimal_digits() {
    assert_eq!(parse_number(&bytes("0")), Some(0));
    assert_eq!(parse_number(&bytes("007")), Some(7));
    assert_eq!(parse_number(&bytes("+12")), Some(12));
    assert_eq!(parse_number(&bytes("450")), Some(450));
    assert_eq!(parse_number(&bytes(usize::MAX.to_string().as_str())), Some(usize::MAX));
}

#[test]
fn parse_number_refuses_what_is_no_number() {
    assert_eq!(parse_number(&bytes("")), None);
    assert_eq!(parse_number(&bytes("+")), None);
    assert_eq!(parse_number(&bytes("-1")), None);
    assert_eq!(parse_number(&bytes("1 ")), None);
    assert_eq!(parse_number(&bytes("12a")), None);
    assert_eq!(parse_number(&bytes("++1")), None);
    assert_eq!(parse_number(&bytes("18446744073709551616")), None);
    assert_eq!(parse_number(&bytes("99999999999999999999")), None);
}
