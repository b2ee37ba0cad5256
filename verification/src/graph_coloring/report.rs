//! The text in which a search result is reported.
//!
//! ```text
//! s col <K>                       on success, then for each vertex i from 1:
//! l <i> <colour>
//! No Solution.                    on failure
//! <N> branching nodes explored.   always, last
//! ```

use vstd::prelude::*;
use vstd::string::StringExecFns;
use crate::graph_coloring::model::GraphView;
use crate::graph_coloring::state::Graph;
use crate::text::{decimal, push_decimal, texts};

verus! {

/// The line that gives vertex `v` (counted from 0) its colour.
pub open spec fn vertex_line(v: nat, color: nat) -> Seq<char> {
    "l "@ + decimal(v + 1) + " "@ + decimal(color)
}

/// The lines of a solution: the header with the number of colours, then one
/// line for each of the first `upto` vertices.
pub open spec fn solution_lines(g: GraphView, upto: nat) -> Seq<Seq<char>>
    decreases upto,
{
    if upto == 0 {
        seq!["s col "@ + decimal(g.palette)]
    } else {
        solution_lines(g, (upto - 1) as nat).push(
            vertex_line((upto - 1) as nat, g.colors[upto - 1] as nat),
        )
    }
}

/// The last line of every report.
pub open spec fn count_line(explored: nat) -> Seq<char> {
    decimal(explored) + " branching nodes explored."@
}

/// The whole report of a search on `g` that explored `explored` nodes.
pub open spec fn report_lines(g: GraphView, explored: nat, solved: bool) -> Seq<Seq<char>> {
    if solved {
        solution_lines(g, g.n()).push(count_line(explored))
    } else {
        seq!["No Solution."@, count_line(explored)]
    }
}

/// Writes the report of a search: the colouring found, vertex by vertex, or
/// that there is none, and then the number of branching nodes explored.
pub fn report(graph: &Graph, solved: bool) -> (lines: Vec<String>)
    requires
        graph.wf(),
    ensures
        texts(lines@) == report_lines(graph@, graph.explored_nodes(), solved),
{
    proof {
        graph.lemma_view_well_formed();
    }
    let mut lines: Vec<String> = Vec::new();
    if solved {
        let mut header = "s col ".to_owned();
        push_decimal(&mut header, graph.color_count());
        lines.push(header);
        assert(texts(lines@) =~= solution_lines(graph@, 0));
        let n = graph.vertex_count();
        let mut v: usize = 0;
        while v < n
            invariant
                graph.wf(),
                n == graph@.n(),
                graph@.colors.len() == n,
                v <= n,
                texts(lines@) == solution_lines(graph@, v as nat),
            decreases n - v,
        {
            let mut line = "l ".to_owned();
            push_decimal(&mut line, v + 1);
            line.append(" ");
            push_decimal(&mut line, graph.color_of(v));
            let ghost before = texts(lines@);
            lines.push(line);
            assert(texts(lines@) =~= before.push(
                vertex_line(v as nat, graph@.colors[v as int] as nat),
            ));
            v += 1;
        }
    } else {
        lines.push("No Solution.".to_owned());
        assert(texts(lines@) =~= seq!["No Solution."@]);
    }
    let mut last = String::new();
    push_decimal(&mut last, graph.explored_count());
    last.append(" branching nodes explored.");
    let ghost before = texts(lines@);
    lines.push(last);
    assert(texts(lines@) =~= before.push(count_line(graph.explored_nodes())));
    lines
}

/// The text of one directed edge, its source counted from 1 and its target as
/// the graph stores it, from 0.
pub open spec fn arc_text(source: nat, target: nat) -> Seq<char> {
    "("@ + decimal(source) + "->"@ + decimal(target) + ")"@
}

/// The text of the first `upto` entries of the neighbour list `row` of the
/// vertex with number `source`.
pub open spec fn row_text(source: nat, row: Seq<usize>, upto: nat) -> Seq<char>
    decreases upto,
{
    if upto == 0 {
        Seq::empty()
    } else {
        row_text(source, row, (upto - 1) as nat) + arc_text(source, row[upto - 1] as nat)
    }
}

/// The text of the neighbour lists of the first `upto` vertices.
pub open spec fn adjacency_text(adjacency: Seq<Seq<usize>>, upto: nat) -> Seq<char>
    decreases upto,
{
    if upto == 0 {
        Seq::empty()
    } else {
        adjacency_text(adjacency, (upto - 1) as nat) + row_text(
            upto,
            adjacency[upto - 1],
            adjacency[upto - 1].len(),
        )
    }
}

/// The graph as text: every neighbour-list entry as `(source->target)`, vertex
/// by vertex.
pub fn describe(graph: &Graph) -> (out: String)
    requires
        graph.wf(),
    ensures
        out@ == adjacency_text(graph@.adjacency, graph@.n()),
{
    proof {
        graph.lemma_view_well_formed();
    }
    let mut out = String::new();
    let n = graph.vertex_count();
    let mut v: usize = 0;
    while v < n
        invariant
            graph.wf(),
            n == graph@.n(),
            v <= n,
            out@ == adjacency_text(graph@.adjacency, v as nat),
        decreases n - v,
    {
        let row = graph.neighbors_of(v);
        let ghost start = out@;
        let mut j: usize = 0;
        while j < row.len()
            invariant
                v < n,
                j <= row.len(),
                row@ == graph@.adjacency[v as int],
                out@ == start + row_text((v + 1) as nat, row@, j as nat),
            decreases row.len() - j,
        {
            let ghost before = out@;
            out.append("(");
            push_decimal(&mut out, v + 1);
            out.append("->");
            push_decimal(&mut out, row[j]);
            out.append(")");
            assert(out@ =~= before + arc_text((v + 1) as nat, row[j as int] as nat));
            assert(out@ =~= start + row_text((v + 1) as nat, row@, j as nat + 1));
            j += 1;
        }
        v += 1;
    }
    out
}

} // verus!
