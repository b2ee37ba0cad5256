//! The problem text: one directive per line.
//!
//! ```text
//! c <comment text>        ignored
//! p edge <V> <E>          V vertices, E edges announced
//! e <U> <V>               an edge between the vertices U and V, counted from 1
//! ```

use vstd::prelude::*;
use crate::graph_coloring::model::GraphView;
use crate::graph_coloring::state::{Algorithm, Graph};
use crate::text::{number, parse_usize, same_text, split_words, texts, words};

verus! {

/// The strategy that a name on the command line stands for: `dfs`, `fc` or
/// `mcv`.
pub open spec fn algorithm_of(name: Seq<char>) -> Option<Algorithm> {
    if name == "dfs"@ {
        Some(Algorithm::DepthFirst)
    } else if name == "fc"@ {
        Some(Algorithm::ForwardCheck)
    } else if name == "mcv"@ {
        Some(Algorithm::MostConstrained)
    } else {
        None
    }
}

/// Reads the name of a strategy; `None` for a name that is none.
pub fn algorithm_named(name: &str) -> (algorithm: Option<Algorithm>)
    ensures
        algorithm == algorithm_of(name@),
{
    if same_text(name, "dfs") {
        Some(Algorithm::DepthFirst)
    } else if same_text(name, "fc") {
        Some(Algorithm::ForwardCheck)
    } else if same_text(name, "mcv") {
        Some(Algorithm::MostConstrained)
    } else {
        None
    }
}

/// What a line of the problem text says.
pub enum Directive {
    /// A line without a word.
    Blank,
    /// A comment line.
    Comment,
    /// The problem line: the number of vertices and the announced number of edges.
    Problem { verts: usize, edges: usize },
    /// An edge line: its two vertices, counted from 1.
    Edge { n1: usize, n2: usize },
    /// A problem line without a format.
    MissingFormat,
    /// A problem line whose format is not `edge`: the word found.
    BadFormat(String),
    /// A problem or edge line that lacks a number or holds a word that is none.
    Malformed,
    /// A line that begins with an unknown directive: the word found.
    Unknown(String),
}

/// The abstract value of a directive.
pub enum DirectiveView {
    Blank,
    Comment,
    Problem { verts: usize, edges: usize },
    Edge { n1: usize, n2: usize },
    MissingFormat,
    BadFormat(Seq<char>),
    Malformed,
    Unknown(Seq<char>),
}

impl View for Directive {
    type V = DirectiveView;

    open spec fn view(&self) -> DirectiveView {
        match self {
            Directive::Blank => DirectiveView::Blank,
            Directive::Comment => DirectiveView::Comment,
            Directive::Problem { verts, edges } => DirectiveView::Problem {
                verts: *verts,
                edges: *edges,
            },
            Directive::Edge { n1, n2 } => DirectiveView::Edge { n1: *n1, n2: *n2 },
            Directive::MissingFormat => DirectiveView::MissingFormat,
            Directive::BadFormat(word) => DirectiveView::BadFormat(word@),
            Directive::Malformed => DirectiveView::Malformed,
            Directive::Unknown(word) => DirectiveView::Unknown(word@),
        }
    }
}

/// What the words of a line say.
pub open spec fn directive_of(w: Seq<Seq<char>>) -> DirectiveView {
    if w.len() == 0 {
        DirectiveView::Blank
    } else if w[0] == "c"@ {
        DirectiveView::Comment
    } else if w[0] == "p"@ {
        if w.len() < 2 {
            DirectiveView::MissingFormat
        } else if w[1] != "edge"@ {
            DirectiveView::BadFormat(w[1])
        } else if w.len() >= 4 && number(w[2]) is Some && number(w[3]) is Some {
            DirectiveView::Problem { verts: number(w[2])->0, edges: number(w[3])->0 }
        } else {
            DirectiveView::Malformed
        }
    } else if w[0] == "e"@ {
        if w.len() >= 3 && number(w[1]) is Some && number(w[2]) is Some {
            DirectiveView::Edge { n1: number(w[1])->0, n2: number(w[2])->0 }
        } else {
            DirectiveView::Malformed
        }
    } else {
        DirectiveView::Unknown(w[0])
    }
}

/// Reads the directive that the words of a line spell.
pub fn interpret(words: &Vec<String>) -> (directive: Directive)
    ensures
        directive@ == directive_of(texts(words@)),
{
    if words.len() == 0 {
        return Directive::Blank;
    }
    let head = words[0].as_str();
    if same_text(head, "c") {
        Directive::Comment
    } else if same_text(head, "p") {
        if words.len() < 2 {
            return Directive::MissingFormat;
        }
        if !same_text(words[1].as_str(), "edge") {
            return Directive::BadFormat(words[1].clone());
        }
        if words.len() < 4 {
            return Directive::Malformed;
        }
        match (parse_usize(words[2].as_str()), parse_usize(words[3].as_str())) {
            (Some(verts), Some(edges)) => Directive::Problem { verts, edges },
            _ => Directive::Malformed,
        }
    } else if same_text(head, "e") {
        if words.len() < 3 {
            return Directive::Malformed;
        }
        match (parse_usize(words[1].as_str()), parse_usize(words[2].as_str())) {
            (Some(n1), Some(n2)) => Directive::Edge { n1, n2 },
            _ => Directive::Malformed,
        }
    } else {
        Directive::Unknown(words[0].clone())
    }
}

/// Reads the directive of one line of the problem text.
pub fn parse_line(line: &str) -> (directive: Directive)
    ensures
        directive@ == directive_of(words(line@)),
{
    let words = split_words(line);
    interpret(&words)
}

/// Why a problem text cannot be taken: an edge line names what is no edge of
/// the graph.
#[derive(Debug, PartialEq, Eq, Structural, Copy, Clone)]
pub enum Fault {
    /// An edge names a vertex outside `1..=V`.
    NoSuchVertex { n1: usize, n2: usize },
    /// An edge joins a vertex to itself.
    Loop { vertex: usize },
}

/// What a directive does to the graph: the problem line starts it over, an
/// edge line adds an edge or, where it names no edge of the graph, is a fault;
/// every other line leaves the graph alone.
pub open spec fn step(g: GraphView, d: DirectiveView) -> (GraphView, Option<Fault>) {
    match d {
        DirectiveView::Problem { verts, edges } => (
            g.with_vertices(verts as nat).with_declared_edges(edges as nat),
            None,
        ),
        DirectiveView::Edge { n1, n2 } => if !(1 <= n1 <= g.n() && 1 <= n2 <= g.n()) {
            (g, Some(Fault::NoSuchVertex { n1, n2 }))
        } else if n1 == n2 {
            (g, Some(Fault::Loop { vertex: n1 }))
        } else {
            (g.link(n1 - 1, n2 - 1), None)
        },
        _ => (g, None),
    }
}

/// Applies one directive to the graph. An edge line that names a vertex
/// outside the graph, or one vertex twice, is a fault and leaves the graph as
/// it was.
pub fn apply(graph: &mut Graph, directive: &Directive) -> (fault: Option<Fault>)
    requires
        old(graph).wf(),
    ensures
        final(graph).wf(),
        (final(graph)@, fault) == step(old(graph)@, directive@),
        final(graph).explored_nodes() == old(graph).explored_nodes(),
{
    match directive {
        Directive::Problem { verts, edges } => {
            graph.verts(*verts).edges(*edges);
            None
        },
        Directive::Edge { n1, n2 } => {
            let n = graph.vertex_count();
            if *n1 < 1 || *n1 > n || *n2 < 1 || *n2 > n {
                Some(Fault::NoSuchVertex { n1: *n1, n2: *n2 })
            } else if *n1 == *n2 {
                Some(Fault::Loop { vertex: *n1 })
            } else {
                graph.connect(*n1 - 1, *n2 - 1);
                None
            }
        },
        _ => None,
    }
}

/// The directives of a list of lines.
pub open spec fn directives_of(lines: Seq<String>) -> Seq<DirectiveView> {
    Seq::new(lines.len(), |i: int| directive_of(words(lines[i]@)))
}

/// The graph that the first `upto` directives build, and the fault at which
/// they stop, if they do: after a fault nothing more is applied.
pub open spec fn loaded(ds: Seq<DirectiveView>, upto: nat) -> (GraphView, Option<Fault>)
    decreases upto,
{
    if upto == 0 {
        (GraphView::empty(), None)
    } else {
        let before = loaded(ds, (upto - 1) as nat);
        if before.1 is Some {
            before
        } else {
            step(before.0, ds[upto - 1])
        }
    }
}

/// Whether a directive is reported to the user: the line was not understood
/// and is skipped.
pub open spec fn is_skipped(d: DirectiveView) -> bool {
    d is MissingFormat || d is BadFormat || d is Malformed || d is Unknown
}

/// The lines among the first `upto` that are not understood: the number of
/// each, counted from 1, and what it was read as.
pub open spec fn skipped_upto(ds: Seq<DirectiveView>, upto: nat) -> Seq<(usize, DirectiveView)>
    decreases upto,
{
    if upto == 0 {
        Seq::empty()
    } else {
        let before = skipped_upto(ds, (upto - 1) as nat);
        if is_skipped(ds[upto - 1]) {
            before.push((upto as usize, ds[upto - 1]))
        } else {
            before
        }
    }
}

/// The abstract value of a list of numbered directives.
pub open spec fn numbered_views(list: Seq<(usize, Directive)>) -> Seq<(usize, DirectiveView)> {
    Seq::new(list.len(), |i: int| (list[i].0, list[i].1@))
}

/// What reading a problem text yields.
pub struct Reading {
    /// The graph built from the lines before the fault, if there is one.
    pub graph: Graph,
    /// The lines that were not understood and skipped: the number of each,
    /// counted from 1, and what it was read as.
    pub skipped: Vec<(usize, Directive)>,
    /// The fault at which reading stopped, with the number of its line.
    pub fault: Option<(usize, Fault)>,
}

/// Builds the graph of a problem text, line by line. Lines that are not
/// understood are skipped and listed; the first edge line that names no edge
/// of the graph so far stops the reading.
pub fn read_graph(lines: &Vec<String>) -> (reading: Reading)
    ensures
        reading.graph.wf(),
        reading.graph.explored_nodes() == 0,
        reading.graph@ == loaded(directives_of(lines@), lines.len() as nat).0,
        match reading.fault {
            None => {
                &&& loaded(directives_of(lines@), lines.len() as nat).1 is None
                &&& numbered_views(reading.skipped@) == skipped_upto(
                    directives_of(lines@),
                    lines.len() as nat,
                )
            },
            Some((line, fault)) => {
                &&& 1 <= line <= lines.len()
                &&& loaded(directives_of(lines@), (line - 1) as nat).1 is None
                &&& loaded(directives_of(lines@), line as nat).1 == Some(fault)
                &&& loaded(directives_of(lines@), lines.len() as nat).1 == Some(fault)
                &&& numbered_views(reading.skipped@) == skipped_upto(
                    directives_of(lines@),
                    (line - 1) as nat,
                )
            },
        },
{
    let mut graph = Graph::new();
    let mut skipped: Vec<(usize, Directive)> = Vec::new();
    let ghost ds = directives_of(lines@);
    let mut i: usize = 0;
    assert(numbered_views(skipped@) =~= skipped_upto(ds, 0));
    while i < lines.len()
        invariant
            ds == directives_of(lines@),
            i <= lines.len(),
            graph.wf(),
            graph.explored_nodes() == 0,
            (graph@, None::<Fault>) == loaded(ds, i as nat),
            numbered_views(skipped@) == skipped_upto(ds, i as nat),
        decreases lines.len() - i,
    {
        let directive = parse_line(lines[i].as_str());
        assert(directive@ == ds[i as int]);
        let fault = apply(&mut graph, &directive);
        match fault {
            Some(f) => {
                proof {
                    lemma_loaded_stays(ds, i as nat + 1, lines.len() as nat);
                }
                return Reading { graph, skipped, fault: Some((i + 1, f)) };
            },
            None => {},
        }
        let ghost before = numbered_views(skipped@);
        match directive {
            Directive::MissingFormat | Directive::BadFormat(_) | Directive::Malformed
            | Directive::Unknown(_) => {
                skipped.push((i + 1, directive));
                assert(numbered_views(skipped@) =~= before.push(((i + 1) as usize, ds[i as int])));
            },
            _ => {},
        }
        i += 1;
    }
    Reading { graph, skipped, fault: None }
}

/// Once a fault has stopped the reading, what was loaded stays.
proof fn lemma_loaded_stays(ds: Seq<DirectiveView>, at: nat, upto: nat)
    requires
        at <= upto,
        loaded(ds, at).1 is Some,
    ensures
        loaded(ds, upto) == loaded(ds, at),
    decreases upto,
{
    if at < upto {
        lemma_loaded_stays(ds, at, (upto - 1) as nat);
    }
}

} // verus!
