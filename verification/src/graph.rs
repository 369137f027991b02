//! The relation graph: one node for each person, one undirected edge for
//! each pair of related persons, kept in compressed rows by `petgraph`.

use crate::model::RelationStrength;
use petgraph::csr::Csr;
use petgraph::visit::EdgeRef;
use petgraph::Undirected;
use vstd::prelude::*;

verus! {

/// `petgraph::csr::Csr`, a graph in compressed rows. What is inside a graph
/// is known through `graph_rows` alone.
#[verifier::external_type_specification]
#[verifier::external_body]
#[verifier::reject_recursive_types(N)]
#[verifier::reject_recursive_types(E)]
#[verifier::reject_recursive_types(Ty)]
#[verifier::reject_recursive_types(Ix)]
pub struct ExCsr<N, E, Ty, Ix>(Csr<N, E, Ty, Ix>);

/// `petgraph::Undirected`, the mark of a graph whose edges have no
/// direction. It has no values.
#[verifier::external_type_specification]
#[verifier::external_body]
pub struct ExUndirected(Undirected);

/// The graph of relations between persons, by dense index.
pub type RelationGraph = Csr<(), RelationStrength, Undirected, u32>;

/// The edges of one node: the other endpoint and the strength.
pub type Row = Seq<(u32, RelationStrength)>;

/// What a graph holds: for each node its edges, in the order in which
/// `petgraph` keeps and yields them. Nothing is known of it but what
/// `graph_with_nodes`, `graph_add_edge`, `graph_edges` and `graph_clone`
/// say.
pub uninterp spec fn graph_rows(g: RelationGraph) -> Seq<Row>;

/// The row has an edge to `b`.
pub open spec fn row_has(row: Row, b: u32) -> bool {
    exists|j: int| 0 <= j < row.len() && (#[trigger] row[j]).0 == b
}

/// The endpoints of the row ascend strictly.
pub open spec fn row_ascending(row: Row) -> bool {
    forall|i: int, j: int| 0 <= i < j < row.len() ==> (#[trigger] row[i]).0 < (#[trigger] row[j]).0
}

/// The number of the row's edges to endpoints below `b`.
pub open spec fn row_rank(row: Row, b: u32) -> int
    decreases row.len(),
{
    if row.len() == 0 {
        0
    } else {
        row_rank(row.drop_last(), b) + if row.last().0 < b {
            1int
        } else {
            0int
        }
    }
}

/// The row with an edge to `b` at its place among the endpoints.
pub open spec fn row_insert(row: Row, b: u32, weight: RelationStrength) -> Row {
    row.insert(row_rank(row, b), (b, weight))
}

/// The rows with an undirected edge between `a` and `b`; unchanged where
/// `a` has an edge to `b` already.
pub open spec fn rows_add_edge(rows: Seq<Row>, a: u32, b: u32, weight: RelationStrength) -> Seq<
    Row,
> {
    if row_has(rows[a as int], b) {
        rows
    } else {
        let forth = rows.update(a as int, row_insert(rows[a as int], b, weight));
        if a == b {
            forth
        } else {
            forth.update(b as int, row_insert(forth[b as int], a, weight))
        }
    }
}

/// Every edge leads to a node of the graph, no node has two edges to one
/// endpoint, each row ascends, and every edge stands in the rows of both
/// its endpoints.
pub open spec fn rows_wf(rows: Seq<Row>) -> bool {
    &&& forall|a: int| 0 <= a < rows.len() ==> row_ascending(#[trigger] rows[a])
    &&& forall|a: int, j: int|
        0 <= a < rows.len() && 0 <= j < rows[a].len() ==> (#[trigger] rows[a][j]).0 < rows.len()
    &&& forall|a: int, j: int|
        0 <= a < rows.len() && 0 <= j < rows[a].len() ==> row_has(
            rows[(#[trigger] rows[a][j]).0 as int],
            a as u32,
        )
}

/// The rows of a graph with `n` nodes and no edge.
pub open spec fn rows_empty(n: nat) -> Seq<Row> {
    Seq::new(n, |a: int| Seq::<(u32, RelationStrength)>::empty())
}

/// In an ascending row the rank of `b` parts the endpoints below `b` from
/// the others.
pub proof fn lemma_row_rank(row: Row, b: u32)
    requires
        row_ascending(row),
    ensures
        0 <= row_rank(row, b) <= row.len(),
        forall|i: int| 0 <= i < row_rank(row, b) ==> (#[trigger] row[i]).0 < b,
        forall|i: int| row_rank(row, b) <= i < row.len() ==> (#[trigger] row[i]).0 >= b,
    decreases row.len(),
{
    if row.len() > 0 {
        let t = row.drop_last();
        let n = row.len() - 1;
        assert forall|i: int, j: int| 0 <= i < j < t.len() implies (#[trigger] t[i]).0 < (
        #[trigger] t[j]).0 by {
            assert(row[i].0 < row[j].0);
        }
        lemma_row_rank(t, b);
        if row[n].0 < b {
            if row_rank(t, b) < n {
                let k = row_rank(t, b);
                assert(t[k].0 >= b);
                assert(row[k].0 < row[n].0);
            }
        }
        assert forall|i: int| 0 <= i < row_rank(row, b) implies (#[trigger] row[i]).0 < b by {
            if i < n {
                assert(row[i] == t[i]);
            }
        }
        assert forall|i: int| row_rank(row, b) <= i < row.len() implies (#[trigger] row[i]).0
            >= b by {
            if i < n {
                assert(row[i] == t[i]);
            }
        }
    }
}

/// An ascending row with a new edge at its place ascends, has that edge, and
/// keeps the edges it had.
pub proof fn lemma_row_insert(row: Row, b: u32, weight: RelationStrength)
    requires
        row_ascending(row),
        !row_has(row, b),
    ensures
        row_ascending(row_insert(row, b, weight)),
        row_insert(row, b, weight).len() == row.len() + 1,
        forall|c: u32| row_has(row_insert(row, b, weight), c) <==> (c == b || row_has(row, c)),
        forall|j: int|
            0 <= j < row.len() + 1 ==> (#[trigger] row_insert(row, b, weight)[j]).0 == b || (
            exists|i: int| 0 <= i < row.len() && row[i] == row_insert(row, b, weight)[j]),
{
    let r = row_rank(row, b);
    let p = row_insert(row, b, weight);
    lemma_row_rank(row, b);
    assert forall|i: int| r <= i < row.len() implies (#[trigger] row[i]).0 > b by {
        assert(row[i].0 >= b);
    }
    assert forall|i: int, j: int| 0 <= i < j < p.len() implies (#[trigger] p[i]).0 < (
    #[trigger] p[j]).0 by {
        let oi = if i < r { i } else { i - 1 };
        let oj = if j < r { j } else { j - 1 };
        if i == r {
            assert(row[oj].0 > b);
        } else if j == r {
            assert(row[oi].0 < b);
        } else {
            assert(row[oi].0 < row[oj].0);
        }
    }
    assert forall|c: u32| row_has(p, c) <==> (c == b || row_has(row, c)) by {
        if c == b {
            assert(p[r].0 == b);
        }
        if row_has(row, c) {
            let i = choose|i: int| 0 <= i < row.len() && (#[trigger] row[i]).0 == c;
            let pi = if i < r { i } else { i + 1 };
            assert(p[pi] == row[i]);
        }
        if row_has(p, c) && c != b {
            let j = choose|j: int| 0 <= j < p.len() && (#[trigger] p[j]).0 == c;
            let oj = if j < r { j } else { j - 1 };
            assert(p[j] == row[oj]);
        }
    }
    assert forall|j: int| 0 <= j < row.len() + 1 implies (#[trigger] p[j]).0 == b || (exists|
        i: int,
    | 0 <= i < row.len() && row[i] == p[j]) by {
        if j != r {
            let oj = if j < r { j } else { j - 1 };
            assert(row[oj] == p[j]);
        }
    }
}

/// A row that ascends over endpoints below `n` has at most `n` edges.
pub proof fn lemma_row_len(row: Row, n: int)
    requires
        0 <= n,
        row_ascending(row),
        forall|j: int| 0 <= j < row.len() ==> (#[trigger] row[j]).0 < n,
    ensures
        row.len() <= n,
{
    if row.len() > 0 {
        lemma_row_at_least(row, row.len() - 1);
        assert(row[row.len() - 1].0 < n);
    }
}

/// In an ascending row the endpoint at `j` is at least `j`.
proof fn lemma_row_at_least(row: Row, j: int)
    requires
        row_ascending(row),
        0 <= j < row.len(),
    ensures
        row[j].0 >= j,
    decreases j,
{
    if j > 0 {
        lemma_row_at_least(row, j - 1);
        assert(row[j - 1].0 < row[j].0);
    }
}

/// Adding an edge between two nodes of a well-formed graph leaves it
/// well-formed.
pub proof fn lemma_add_edge_wf(rows: Seq<Row>, a: u32, b: u32, weight: RelationStrength)
    requires
        rows_wf(rows),
        a < rows.len(),
        b < rows.len(),
    ensures
        rows_wf(rows_add_edge(rows, a, b, weight)),
        rows_add_edge(rows, a, b, weight).len() == rows.len(),
{
    let out = rows_add_edge(rows, a, b, weight);
    if !row_has(rows[a as int], b) {
        let row_a = row_insert(rows[a as int], b, weight);
        lemma_row_insert(rows[a as int], b, weight);
        let forth = rows.update(a as int, row_a);
        if a != b {
            if row_has(rows[b as int], a) {
                let j = choose|j: int|
                    0 <= j < rows[b as int].len() && (#[trigger] rows[b as int][j]).0 == a;
                assert(row_has(rows[rows[b as int][j].0 as int], b));
            }
            lemma_row_insert(rows[b as int], a, weight);
        }
        assert forall|x: int| 0 <= x < out.len() implies row_ascending(#[trigger] out[x]) by {
            assert(row_ascending(rows[x]));
        }
        // Every old edge is still there.
        assert forall|x: int, c: u32| 0 <= x < rows.len() && row_has(rows[x], c) implies row_has(
            out[x],
            c,
        ) by {}
        assert forall|x: int, j: int| 0 <= x < out.len() && 0 <= j < out[x].len() implies (
        #[trigger] out[x][j]).0 < out.len() && row_has(out[out[x][j].0 as int], x as u32) by {
            let y = out[x][j].0;
            let is_new = (x == a && y == b) || (x == b && y == a);
            if !is_new {
                let i = choose|i: int| 0 <= i < rows[x].len() && rows[x][i] == out[x][j];
                assert(rows[x][i].0 < rows.len());
                assert(row_has(rows[rows[x][i].0 as int], x as u32));
            }
        }
    }
}

/// A row with a new edge at its place holds that edge and the edges it
/// held.
pub proof fn lemma_row_insert_holds(row: Row, b: u32, weight: RelationStrength)
    requires
        row_ascending(row),
    ensures
        forall|e: (u32, RelationStrength)|
            #[trigger] row_insert(row, b, weight).contains(e) <==> (e == (b, weight)
                || row.contains(e)),
{
    let r = row_rank(row, b);
    let p = row_insert(row, b, weight);
    lemma_row_rank(row, b);
    assert forall|e: (u32, RelationStrength)| #[trigger] p.contains(e) <==> (e == (b, weight)
        || row.contains(e)) by {
        if e == (b, weight) {
            assert(p[r] == e);
        }
        if row.contains(e) {
            let i = choose|i: int| 0 <= i < row.len() && row[i] == e;
            let pi = if i < r { i } else { i + 1 };
            assert(p[pi] == e);
        }
        if p.contains(e) && e != (b, weight) {
            let j = choose|j: int| 0 <= j < p.len() && p[j] == e;
            let oj = if j < r { j } else { j - 1 };
            assert(row[oj] == e);
        }
    }
}

/// After an edge is added, every row holds what it held, and the rows of
/// the two endpoints hold the new edge where there was none between them.
pub proof fn lemma_add_edge_holds(rows: Seq<Row>, a: u32, b: u32, weight: RelationStrength)
    requires
        rows_wf(rows),
        a < rows.len(),
        b < rows.len(),
    ensures
        forall|x: int, e: (u32, RelationStrength)|
            0 <= x < rows.len() ==> (#[trigger] rows_add_edge(rows, a, b, weight)[x].contains(e)
                <==> (rows[x].contains(e) || (!row_has(rows[a as int], b) && ((x == a && e == (
                b,
                weight,
            )) || (x == b && e == (a, weight)))))),
{
    let out = rows_add_edge(rows, a, b, weight);
    if !row_has(rows[a as int], b) {
        assert(row_ascending(rows[a as int]));
        assert(row_ascending(rows[b as int]));
        lemma_row_insert_holds(rows[a as int], b, weight);
        lemma_row_insert_holds(rows[b as int], a, weight);
        assert forall|x: int, e: (u32, RelationStrength)| 0 <= x < rows.len() implies (
        #[trigger] out[x].contains(e) <==> (rows[x].contains(e) || (x == a && e == (b, weight))
            || (x == b && e == (a, weight)))) by {
            if x == a {
                assert(out[x] == row_insert(rows[a as int], b, weight));
            } else if x == b {
                assert(out[x] == row_insert(rows[b as int], a, weight));
            } else {
                assert(out[x] == rows[x]);
            }
        }
    }
}

/// A graph with `n` nodes and no edge.
///
/// Trusted: `Csr::with_nodes` makes a graph of `n` nodes whose rows are
/// all empty. It counts one row more than nodes, which the largest `usize`
/// does not allow.
#[verifier::external_body]
pub(crate) fn graph_with_nodes(n: usize) -> (g: RelationGraph)
    requires
        n < usize::MAX,
    ensures
        graph_rows(g) == rows_empty(n as nat),
{
    Csr::with_nodes(n)
}

/// Adds an undirected edge, and says whether it did.
///
/// Trusted: `Csr::add_edge` looks for `b` in the row of `a`; where it finds
/// it, it changes nothing and returns `false`; else it puts the edge at its
/// place in the row of `a`, and for two different nodes in the row of `b`
/// too, and returns `true`. Its search takes the rows to ascend, it panics
/// for a node that the graph has not, and a build with assertions panics
/// where the row of `b` has the edge that the row of `a` lacks.
#[verifier::external_body]
pub(crate) fn graph_add_edge(
    g: &mut RelationGraph,
    a: u32,
    b: u32,
    weight: RelationStrength,
) -> (added: bool)
    requires
        rows_wf(graph_rows(*old(g))),
        a < graph_rows(*old(g)).len(),
        b < graph_rows(*old(g)).len(),
    ensures
        graph_rows(*final(g)) == rows_add_edge(graph_rows(*old(g)), a, b, weight),
        added == !row_has(graph_rows(*old(g))[a as int], b),
{
    g.add_edge(a, b, weight)
}

/// The edges of a node, by ascending endpoint.
///
/// Trusted: `Csr::edges` walks the row of `a` from its start to its end and
/// yields each edge's other endpoint and weight. It is documented to panic
/// for a node that the graph has not.
#[verifier::external_body]
pub(crate) fn graph_edges(g: &RelationGraph, a: u32) -> (r: Vec<(u32, RelationStrength)>)
    requires
        a < graph_rows(*g).len(),
    ensures
        r@ == graph_rows(*g)[a as int],
{
    g.edges(a).map(|e| (e.target(), *e.weight())).collect()
}

/// A copy of the graph.
///
/// Trusted: `Csr::clone` copies the columns, the weights and the starts of
/// the rows, so the copy holds the same rows.
#[verifier::external_body]
pub(crate) fn graph_clone(g: &RelationGraph) -> (r: RelationGraph)
    ensures
        graph_rows(r) == graph_rows(*g),
{
    g.clone()
}

} // verus!
