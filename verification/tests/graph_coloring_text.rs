use ai_algorithms::graph_coloring::input::{
    algorithm_named, apply, interpret, parse_line, read_graph, Directive, Fault,
};
use ai_algorithms::graph_coloring::report::{describe, report};
use ai_algorithms::graph_coloring::state::{Algorithm, Graph};

fn lines(text: &[&str]) -> Vec<String> {
    text.iter().map(|l| String::from(*l)).collect()
}

#[test]
fn strategy_names() {
    assert_eq!(algorithm_named("dfs"), Some(Algorithm::DepthFirst));
    assert_eq!(algorithm_named("fc"), Some(Algorithm::ForwardCheck));
    assert_eq!(algorithm_named("mcv"), Some(Algorithm::MostConstrained));
    assert_eq!(algorithm_named("bfs"), None);
    assert_eq!(algorithm_named(""), None);
}

#[test]
fn lines_are_read_as_directives() {
    assert!(matches!(parse_line(""), Directive::Blank));
    assert!(matches!(parse_line("   "), Directive::Blank));
    assert!(matches!(parse_line("c anything at all"), Directive::Comment));
    assert!(matches!(parse_line("p edge 4 3"), Directive::Problem { verts: 4, edges: 3 }));
    assert!(matches!(parse_line("p edge 4 3 extra"), Directive::Problem { verts: 4, edges: 3 }));
    assert!(matches!(parse_line("  e 1   2"), Directive::Edge { n1: 1, n2: 2 }));
    assert!(matches!(parse_line("p"), Directive::MissingFormat));
    assert!(matches!(parse_line("p edge"), Directive::Malformed));
    assert!(matches!(parse_line("p edge four 3"), Directive::Malformed));
    assert!(matches!(parse_line("e 1"), Directive::Malformed));
    assert!(matches!(parse_line("e 1 -2"), Directive::Malformed));
    match parse_line("p cnf 4 3") {
        Directive::BadFormat(word) => assert_eq!(word, "cnf"),
        _ => panic!("expected a bad format"),
    }
    match parse_line("x 1 2") {
        Directive::Unknown(word) => assert_eq!(word, "x"),
        _ => panic!("expected an unknown directive"),
    }
    let words = vec![String::from("e"), String::from("3"), String::from("1")];
    assert!(matches!(interpret(&words), Directive::Edge { n1: 3, n2: 1 }));
}

#[test]
fn edges_are_counted_from_one() {
    let mut graph = Graph::new();
    assert_eq!(apply(&mut graph, &Directive::Problem { verts: 3, edges: 2 }), None);
    assert_eq!(graph.vertex_count(), 3);
    assert_eq!(graph.edge_count(), 2);
    assert_eq!(apply(&mut graph, &Directive::Edge { n1: 1, n2: 3 }), None);
    assert_eq!(graph.neighbors_of(0), vec![2]);
    assert_eq!(graph.neighbors_of(2), vec![0]);
    assert_eq!(apply(&mut graph, &Directive::Comment), None);
    assert_eq!(
        apply(&mut graph, &Directive::Edge { n1: 0, n2: 1 }),
        Some(Fault::NoSuchVertex { n1: 0, n2: 1 })
    );
    assert_eq!(
        apply(&mut graph, &Directive::Edge { n1: 2, n2: 4 }),
        Some(Fault::NoSuchVertex { n1: 2, n2: 4 })
    );
    assert_eq!(apply(&mut graph, &Directive::Edge { n1: 2, n2: 2 }), Some(Fault::Loop { vertex: 2 }));
    assert_eq!(graph.neighbors_of(1), Vec::<usize>::new());
}

#[test]
fn problem_text_builds_the_graph() {
    let text = lines(&[
        "c a path on four vertices",
        "p edge 4 3",
        "e 1 2",
        "e 2 3",
        "",
        "q what",
        "e 3 4",
        "p tree 1 1",
        "e x y",
    ]);
    let mut reading = read_graph(&text);
    assert_eq!(reading.fault, None);
    assert_eq!(reading.graph.vertex_count(), 4);
    assert_eq!(reading.graph.edge_count(), 3);
    assert_eq!(reading.graph.neighbors_of(1), vec![0, 2]);
    assert_eq!(reading.graph.neighbors_of(3), vec![2]);
    let skipped: Vec<usize> = reading.skipped.iter().map(|entry| entry.0).collect();
    assert_eq!(skipped, vec![6, 8, 9]);
    assert!(matches!(reading.skipped[0].1, Directive::Unknown(_)));
    assert!(matches!(reading.skipped[1].1, Directive::BadFormat(_)));
    assert!(matches!(reading.skipped[2].1, Directive::Malformed));
    reading.graph.colors(2);
    assert!(reading.graph.colorify(Algorithm::ForwardCheck));
    assert_eq!(reading.graph.coloring(), vec![1, 2, 1, 2]);
}

#[test]
fn edge_outside_the_graph_stops_the_reading() {
    let text = lines(&["p edge 2 2", "e 1 2", "zz", "e 2 3", "e 1 2", "more"]);
    let reading = read_graph(&text);
    assert_eq!(reading.fault, Some((4, Fault::NoSuchVertex { n1: 2, n2: 3 })));
    assert_eq!(reading.graph.neighbors_of(0), vec![1]);
    assert_eq!(reading.skipped.len(), 1);
    assert_eq!(reading.skipped[0].0, 3);
    let reading = read_graph(&lines(&["e 1 2"]));
    assert_eq!(reading.fault, Some((1, Fault::NoSuchVertex { n1: 1, n2: 2 })));
    let reading = read_graph(&lines(&["p edge 2 1", "e 2 2"]));
    assert_eq!(reading.fault, Some((2, Fault::Loop { vertex: 2 })));
}

#[test]
fn report_of_a_solution() {
    let mut graph = Graph::new();
    graph.verts(3).edges(2);
    graph.connect(0, 1);
    graph.connect(1, 2);
    graph.colors(2);
    let solved = graph.colorify(Algorithm::DepthFirst);
    assert_eq!(
        report(&graph, solved),
        vec!["s col 2", "l 1 1", "l 2 2", "l 3 1", "4 branching nodes explored."]
    );
}

#[test]
fn report_of_a_failure() {
    let mut graph = Graph::new();
    graph.verts(3).edges(3);
    graph.connect(0, 1);
    graph.connect(1, 2);
    graph.connect(0, 2);
    graph.colors(2);
    let solved = graph.colorify(Algorithm::DepthFirst);
    assert_eq!(report(&graph, solved), vec!["No Solution.", "10 branching nodes explored."]);
}

#[test]
fn report_of_the_empty_graph() {
    let mut graph = Graph::new();
    graph.colors(5);
    let solved = graph.colorify(Algorithm::MostConstrained);
    assert_eq!(report(&graph, solved), vec!["s col 5", "0 branching nodes explored."]);
}

#[test]
fn graph_as_text() {
    let mut graph = Graph::new();
    graph.verts(3);
    graph.connect(0, 2);
    graph.connect(2, 1);
    assert_eq!(describe(&graph), "(1->2)(2->2)(3->0)(3->1)");
    assert_eq!(describe(&Graph::new()), "");
}
