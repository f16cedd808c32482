//! Reading a graph from text in the DIMACS `.col` format.
//!
//! A line starts with `c`, `p` or `e`. A `c` line is a comment. The line
//! `p edge n m` gives the number of vertices `n` and the number of edges
//! `m`, and comes before any `e` line. A line `e u v` is an edge between
//! the vertices `u` and `v`, which are counted from 1.

use vstd::prelude::*;
use super::adjlist::AdjList;
use super::contract::StaticGraph;
use super::model::GraphView;

verus! {

/// Why a text is no graph in DIMACS format.
#[derive(Debug, Clone, Copy, PartialEq, Eq)]
pub enum LoadError {
    /// A line starts with none of `c`, `p` and `e`.
    UnexpectedLine,
    /// A `p` line or an `e` line has too few fields.
    MissingField,
    /// A field that should hold a number does not, or the number is too
    /// large.
    InvalidNumber,
    /// An `e` line comes before the `p` line.
    EdgeBeforeProblem,
    /// An `e` line names the vertex 0, though vertices are counted from 1.
    VertexZero,
    /// The text has no `p` line.
    NoProblemLine,
}

/// The byte that ends a line.
pub const NEWLINE: u8 = 10;

/// The byte that may stand before the end of a line.
pub const CARRIAGE_RETURN: u8 = 13;

/// The byte that separates the fields of a line.
pub const SPACE: u8 = 32;

/// The pieces into which the occurrences of `sep` cut `s`, one more
/// piece than there are occurrences: an empty text is one empty piece, a
/// `sep` begins a new piece, and any other byte goes on with the last
/// piece.
pub open spec fn pieces_of(s: Seq<u8>, sep: u8) -> Seq<Seq<u8>>
    decreases s.len(),
{
    if s.len() == 0 {
        seq![Seq::<u8>::empty()]
    } else {
        let before = pieces_of(s.drop_last(), sep);
        if s.last() == sep {
            before.push(Seq::<u8>::empty())
        } else {
            before.drop_last().push(before.last().push(s.last()))
        }
    }
}

/// The line without a carriage return at its end.
pub open spec fn strip_cr(s: Seq<u8>) -> Seq<u8> {
    if s.len() > 0 && s.last() == CARRIAGE_RETURN {
        s.drop_last()
    } else {
        s
    }
}

/// The lines of the text: each ends before a newline, without the
/// carriage return that may precede it; what follows the last newline is
/// a line unless it is empty.
pub open spec fn lines(text: Seq<u8>) -> Seq<Seq<u8>> {
    let pieces = pieces_of(text, NEWLINE);
    let ended = pieces.drop_last().map_values(|p: Seq<u8>| strip_cr(p));
    if pieces.last().len() == 0 {
        ended
    } else {
        ended.push(pieces.last())
    }
}

/// The number that the decimal digits in `s` stand for.
pub open spec fn digits_value(s: Seq<u8>) -> nat
    decreases s.len(),
{
    if s.len() == 0 {
        0
    } else {
        10 * digits_value(s.drop_last()) + (s.last() - 48) as nat
    }
}

/// Whether `s` holds decimal digits only, and at least one.
pub open spec fn is_digits(s: Seq<u8>) -> bool {
    s.len() > 0 && forall|i: int| 0 <= i < s.len() ==> 48 <= #[trigger] s[i] <= 57
}

/// The number that the field stands for: decimal digits, after a `+`
/// perhaps, with a value that a `usize` holds.
pub open spec fn number(s: Seq<u8>) -> Option<usize> {
    let digits = if s.len() > 0 && s[0] == 43 {
        s.skip(1)
    } else {
        s
    };
    if is_digits(digits) && digits_value(digits) <= usize::MAX {
        Some(digits_value(digits) as usize)
    } else {
        None
    }
}

/// What a `p` line makes of the fields of the line.
pub open spec fn problem_line(fields: Seq<Seq<u8>>) -> Result<Option<GraphView>, LoadError> {
    if fields.len() <= 2 {
        Err(LoadError::MissingField)
    } else if number(fields[2]) is None {
        Err(LoadError::InvalidNumber)
    } else if fields.len() <= 3 {
        Err(LoadError::MissingField)
    } else if number(fields[3]) is None {
        Err(LoadError::InvalidNumber)
    } else {
        Ok(Some(GraphView::empty(number(fields[2])->0 as nat)))
    }
}

/// What an `e` line makes of the graph read so far.
pub open spec fn edge_line(graph: Option<GraphView>, fields: Seq<Seq<u8>>) -> Result<
    Option<GraphView>,
    LoadError,
> {
    if fields.len() <= 1 {
        Err(LoadError::MissingField)
    } else if number(fields[1]) is None {
        Err(LoadError::InvalidNumber)
    } else if fields.len() <= 2 {
        Err(LoadError::MissingField)
    } else if number(fields[2]) is None {
        Err(LoadError::InvalidNumber)
    } else if graph is None {
        Err(LoadError::EdgeBeforeProblem)
    } else if number(fields[1])->0 == 0 || number(fields[2])->0 == 0 {
        Err(LoadError::VertexZero)
    } else {
        Ok(
            Some(
                graph->0.with_edge(
                    (number(fields[1])->0 - 1) as usize,
                    (number(fields[2])->0 - 1) as usize,
                ),
            ),
        )
    }
}

/// What one line makes of the graph read so far, if any.
pub open spec fn read_line(graph: Option<GraphView>, line: Seq<u8>) -> Result<
    Option<GraphView>,
    LoadError,
> {
    if line.len() == 0 {
        Err(LoadError::UnexpectedLine)
    } else if line[0] == 99 {
        Ok(graph)
    } else if line[0] == 112 {
        problem_line(pieces_of(line, SPACE))
    } else if line[0] == 101 {
        edge_line(graph, pieces_of(line, SPACE))
    } else {
        Err(LoadError::UnexpectedLine)
    }
}

/// What the first `k` lines make of no graph.
pub open spec fn read_lines(ls: Seq<Seq<u8>>, k: nat) -> Result<Option<GraphView>, LoadError>
    decreases k,
{
    if k == 0 {
        Ok(None)
    } else {
        match read_lines(ls, (k - 1) as nat) {
            Err(e) => Err(e),
            Ok(graph) => read_line(graph, ls[k - 1]),
        }
    }
}

/// The graph that the text describes, or the first reason why it
/// describes none.
pub open spec fn parsed(text: Seq<u8>) -> Result<GraphView, LoadError> {
    match read_lines(lines(text), lines(text).len()) {
        Err(e) => Err(e),
        Ok(None) => Err(LoadError::NoProblemLine),
        Ok(Some(graph)) => Ok(graph),
    }
}

/// The bytes by their views.
pub open spec fn piece_views(pieces: Seq<Vec<u8>>) -> Seq<Seq<u8>> {
    pieces.map_values(|p: Vec<u8>| p@)
}

/// Returns the pieces into which the occurrences of `sep` cut `s`.
pub fn split(s: &Vec<u8>, sep: u8) -> (pieces: Vec<Vec<u8>>)
    ensures
        piece_views(pieces@) == pieces_of(s@, sep),
        pieces@.len() > 0,
{
    let mut pieces: Vec<Vec<u8>> = Vec::new();
    let mut piece: Vec<u8> = Vec::new();
    let mut i: usize = 0;
    assert(s@.take(0) =~= Seq::<u8>::empty());
    assert(piece_views(pieces@).push(piece@) =~= pieces_of(s@.take(0), sep));
    while i < s.len()
        invariant
            i <= s@.len(),
            piece_views(pieces@).push(piece@) == pieces_of(s@.take(i as int), sep),
        decreases s.len() - i,
    {
        let ghost before = pieces_of(s@.take(i as int), sep);
        proof {
            assert(s@.take(i + 1).drop_last() =~= s@.take(i as int));
            assert(before.last() == piece@);
            assert(before.drop_last() =~= piece_views(pieces@));
        }
        if s[i] == sep {
            proof {
                assert(piece_views(pieces@.push(piece)) =~= piece_views(pieces@).push(piece@));
            }
            pieces.push(piece);
            piece = Vec::new();
        } else {
            piece.push(s[i]);
        }
        i += 1;
    }
    proof {
        assert(s@.take(s@.len() as int) =~= s@);
        assert(piece_views(pieces@.push(piece)) =~= piece_views(pieces@).push(piece@));
    }
    pieces.push(piece);
    pieces
}

/// A digit more makes the value no smaller.
proof fn lemma_digits_grow(s: Seq<u8>, k: int)
    requires
        0 <= k <= s.len(),
        forall|i: int| 0 <= i < s.len() ==> 48 <= #[trigger] s[i] <= 57,
    ensures
        digits_value(s.take(k)) <= digits_value(s),
    decreases s.len() - k,
{
    if k < s.len() {
        lemma_digits_grow(s, k + 1);
        assert(s.take(k + 1).drop_last() =~= s.take(k));
    } else {
        assert(s.take(k) =~= s);
    }
}

/// Returns the number that the field stands for, if it stands for one.
pub fn parse_number(field: &Vec<u8>) -> (value: Option<usize>)
    ensures
        value == number(field@),
{
    let first: usize = if field.len() > 0 && field[0] == 43 {
        1
    } else {
        0
    };
    let ghost digits = if first == 1 {
        field@.skip(1)
    } else {
        field@
    };
    if first == field.len() {
        return None;
    }
    assert(field@.skip(0) =~= field@);
    let mut value: usize = 0;
    let mut i: usize = first;
    while i < field.len()
        invariant
            first <= i <= field@.len(),
            first == if field@.len() > 0 && field@[0] == 43 { 1int } else { 0int },
            digits == field@.skip(first as int),
            digits == if field@.len() > 0 && field@[0] == 43 { field@.skip(1) } else { field@ },
            forall|j: int| 0 <= j < i - first ==> 48 <= #[trigger] digits[j] <= 57,
            value == digits_value(digits.take(i - first)),
        decreases field.len() - i,
    {
        let b = field[i];
        assert(digits[i - first] == b);
        if b < 48 || b > 57 {
            assert(!is_digits(digits));
            return None;
        }
        let d = (b - 48) as usize;
        proof {
            assert(digits.take(i - first + 1).drop_last() =~= digits.take(i - first));
            assert(digits.take(i - first + 1).last() == b);
            assert(digits_value(digits.take(i - first + 1)) == 10 * value + d);
            if value > (usize::MAX - d) / 10 {
                if is_digits(digits) {
                    lemma_digits_grow(digits, i - first + 1);
                }
            }
        }
        if value > (usize::MAX - d) / 10 {
            return None;
        }
        value = value * 10 + d;
        i += 1;
    }
    assert(digits.take(i - first) =~= digits);
    Some(value)
}

/// Whether the graph read so far holds what the model says.
pub open spec fn holds(graph: Option<AdjList>, model: Option<GraphView>) -> bool {
    match (graph, model) {
        (Some(g), Some(view)) => g.wf() && g@ == view,
        (None, None) => true,
        _ => false,
    }
}

/// Whether the outcome of reading is what the model says.
pub open spec fn outcome_holds(
    outcome: Result<Option<AdjList>, LoadError>,
    model: Result<Option<GraphView>, LoadError>,
) -> bool {
    match (outcome, model) {
        (Ok(graph), Ok(view)) => holds(graph, view),
        (Err(e), Err(f)) => e == f,
        _ => false,
    }
}

/// Reads one line into the graph read so far.
fn read(graph: Option<AdjList>, line: &Vec<u8>, Ghost(model): Ghost<Option<GraphView>>) -> (outcome:
    Result<Option<AdjList>, LoadError>)
    requires
        holds(graph, model),
    ensures
        outcome_holds(outcome, read_line(model, line@)),
{
    if line.len() == 0 {
        return Err(LoadError::UnexpectedLine);
    }
    if line[0] == 99 {
        return Ok(graph);
    }
    if line[0] == 112 {
        let splits = split(line, SPACE);
        let ghost fields = piece_views(splits@);
        if splits.len() <= 2 {
            return Err(LoadError::MissingField);
        }
        assert(fields[2] == splits@[2]@);
        let n = match parse_number(&splits[2]) {
            Some(n) => n,
            None => {
                return Err(LoadError::InvalidNumber);
            },
        };
        if splits.len() <= 3 {
            return Err(LoadError::MissingField);
        }
        assert(fields[3] == splits@[3]@);
        if parse_number(&splits[3]).is_none() {
            return Err(LoadError::InvalidNumber);
        }
        assert(AdjList::capacity_fits(n));
        return Ok(Some(AdjList::with_capacity(n)));
    }
    if line[0] == 101 {
        let splits = split(line, SPACE);
        let ghost fields = piece_views(splits@);
        if splits.len() <= 1 {
            return Err(LoadError::MissingField);
        }
        assert(fields[1] == splits@[1]@);
        let u = match parse_number(&splits[1]) {
            Some(u) => u,
            None => {
                return Err(LoadError::InvalidNumber);
            },
        };
        if splits.len() <= 2 {
            return Err(LoadError::MissingField);
        }
        assert(fields[2] == splits@[2]@);
        let v = match parse_number(&splits[2]) {
            Some(v) => v,
            None => {
                return Err(LoadError::InvalidNumber);
            },
        };
        let mut graph = match graph {
            Some(graph) => graph,
            None => {
                return Err(LoadError::EdgeBeforeProblem);
            },
        };
        if u == 0 || v == 0 {
            return Err(LoadError::VertexZero);
        }
        assert(graph.edge_fits((u - 1) as usize, (v - 1) as usize));
        assert(graph.stores((u - 1) as usize, (v - 1) as usize));
        graph.add_edge(u - 1, v - 1);
        return Ok(Some(graph));
    }
    Err(LoadError::UnexpectedLine)
}

/// Returns the line without a carriage return at its end.
fn without_cr(piece: &Vec<u8>) -> (line: Vec<u8>)
    ensures
        line@ == strip_cr(piece@),
{
    let mut end = piece.len();
    if end > 0 && piece[end - 1] == CARRIAGE_RETURN {
        end -= 1;
    }
    let mut line: Vec<u8> = Vec::new();
    let mut i: usize = 0;
    while i < end
        invariant
            i <= end <= piece@.len(),
            line@ == piece@.take(i as int),
        decreases end - i,
    {
        line.push(piece[i]);
        assert(piece@.take(i + 1) =~= piece@.take(i as int).push(piece@[i as int]));
        i += 1;
    }
    assert(piece@.take(piece@.len() as int) =~= piece@);
    assert(piece@.take(piece@.len() - 1) =~= piece@.drop_last());
    line
}

/// Loads a graph from text in DIMACS `.col` format: the graph has the
/// vertices that the `p` line declares, and more where an edge needs them,
/// and the edges of the `e` lines. The first line that does not fit the
/// format decides the error.
pub fn load_graph(text: &Vec<u8>) -> (result: Result<AdjList, LoadError>)
    ensures
        match (result, parsed(text@)) {
            (Ok(g), Ok(view)) => g.wf() && g@ == view,
            (Err(e), Err(f)) => e == f,
            _ => false,
        },
{
    let pieces = split(text, NEWLINE);
    let ghost ls = lines(text@);
    let ghost parts = piece_views(pieces@);
    let mut graph: Option<AdjList> = None;
    let ghost mut model: Option<GraphView> = None;
    let last = pieces.len() - 1;
    let mut k: usize = 0;
    while k < last
        invariant
            k <= last,
            last == pieces@.len() - 1,
            parts == piece_views(pieces@),
            parts == pieces_of(text@, NEWLINE),
            ls == lines(text@),
            holds(graph, model),
            read_lines(ls, k as nat) == Ok::<Option<GraphView>, LoadError>(model),
        decreases last - k,
    {
        let line = without_cr(&pieces[k]);
        proof {
            assert(parts[k as int] == pieces@[k as int]@);
            assert(parts.drop_last()[k as int] == parts[k as int]);
            assert(ls[k as int] == line@);
        }
        match read(graph, &line, Ghost(model)) {
            Err(e) => {
                proof {
                    lemma_error_stays(ls, (k + 1) as nat, ls.len(), e);
                }
                return Err(e);
            },
            Ok(next) => {
                proof {
                    model = read_line(model, line@)->Ok_0;
                }
                graph = next;
            },
        }
        k += 1;
    }
    if pieces[last].len() > 0 {
        proof {
            assert(parts[last as int] == pieces@[last as int]@);
            assert(ls[last as int] == pieces@[last as int]@);
            assert(ls.len() == last + 1);
        }
        match read(graph, &pieces[last], Ghost(model)) {
            Err(e) => {
                return Err(e);
            },
            Ok(next) => {
                proof {
                    model = read_line(model, pieces@[last as int]@)->Ok_0;
                }
                graph = next;
            },
        }
    } else {
        proof {
            assert(parts[last as int] == pieces@[last as int]@);
            assert(ls.len() == last);
        }
    }
    match graph {
        Some(g) => Ok(g),
        None => Err(LoadError::NoProblemLine),
    }
}

/// Once a line is refused, the lines after it change nothing.
proof fn lemma_error_stays(ls: Seq<Seq<u8>>, k: nat, m: nat, e: LoadError)
    requires
        k <= m,
        read_lines(ls, k) == Err::<Option<GraphView>, LoadError>(e),
    ensures
        read_lines(ls, m) == Err::<Option<GraphView>, LoadError>(e),
    decreases m - k,
{
    if k < m {
        lemma_error_stays(ls, k, (m - 1) as nat, e);
    }
}

} // verus!
