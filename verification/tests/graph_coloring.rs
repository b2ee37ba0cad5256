use ai_algorithms::graph_coloring::state::{findmcv, Algorithm, Graph, Node};

fn build(n: usize, edges: &[(usize, usize)], k: usize) -> Graph {
    let mut graph = Graph::new();
    graph.verts(n).edges(edges.len());
    for &(u, v) in edges {
        graph.connect(u, v);
    }
    graph.colors(k);
    graph
}

fn strategies() -> Vec<Algorithm> {
    vec![Algorithm::DepthFirst, Algorithm::ForwardCheck, Algorithm::MostConstrained]
}

fn is_proper(graph: &Graph, edges: &[(usize, usize)], k: usize) -> bool {
    let colors = graph.coloring();
    colors.iter().all(|&c| 1 <= c && c <= k) && edges.iter().all(|&(u, v)| colors[u] != colors[v])
}

/// Whether some assignment of colours `1..=k` to `n` vertices is proper.
fn brute_force(n: usize, edges: &[(usize, usize)], k: usize) -> bool {
    let mut colors = vec![1usize; n];
    if n > 0 && k == 0 {
        return false;
    }
    loop {
        if edges.iter().all(|&(u, v)| colors[u] != colors[v]) {
            return true;
        }
        let mut pos = 0;
        loop {
            if pos == n {
                return false;
            }
            if colors[pos] < k {
                colors[pos] += 1;
                break;
            }
            colors[pos] = 1;
            pos += 1;
        }
    }
}

#[test]
fn triangle_two_colors_fails_under_every_strategy() {
    let edges = [(0, 1), (1, 2), (0, 2)];
    for alg in strategies() {
        let mut graph = build(3, &edges, 2);
        assert!(!graph.colorify(alg));
    }
}

#[test]
fn triangle_three_colors_gets_distinct_colors() {
    let edges = [(0, 1), (1, 2), (0, 2)];
    for alg in strategies() {
        let mut graph = build(3, &edges, 3);
        assert!(graph.colorify(alg));
        let mut colors = graph.coloring();
        colors.sort();
        assert_eq!(colors, vec![1, 2, 3]);
    }
}

#[test]
fn path_of_four_alternates_with_two_colors() {
    let edges = [(0, 1), (1, 2), (2, 3)];
    for alg in strategies() {
        let mut graph = build(4, &edges, 2);
        assert!(graph.colorify(alg));
        let colors = graph.coloring();
        assert!(colors == vec![1, 2, 1, 2] || colors == vec![2, 1, 2, 1]);
    }
}

#[test]
fn two_isolated_vertices_one_color_explores_two_nodes() {
    for alg in strategies() {
        let mut graph = build(2, &[], 1);
        assert!(graph.colorify(alg));
        assert_eq!(graph.coloring(), vec![1, 1]);
        assert_eq!(graph.explored, 2);
    }
}

#[test]
fn empty_graph_succeeds_without_exploring() {
    for alg in strategies() {
        let mut graph = build(0, &[], 3);
        assert!(graph.colorify(alg));
        assert!(graph.is_complete());
        assert_eq!(graph.explored, 0);
    }
}

#[test]
fn no_colors_fails_on_a_vertex_and_succeeds_on_none() {
    for alg in strategies() {
        let mut graph = build(1, &[], 0);
        assert!(!graph.colorify(alg));
        assert_eq!(graph.explored, 0);
    }
}

#[test]
fn chronological_node_counts_are_exact() {
    // Triangle with two colours: vertex 0 tries 1 and 2; under each, vertex 1
    // tries 1 and 2, one of which is consistent; under that, vertex 2 tries 1
    // and 2 in vain. 2 + 2 * 2 + 2 * 2 = 10.
    let mut graph = build(3, &[(0, 1), (1, 2), (0, 2)], 2);
    assert!(!graph.colorify(Algorithm::DepthFirst));
    assert_eq!(graph.explored, 10);
    // With three colours the first branch succeeds: 1, then 1 and 2, then 1, 2 and 3.
    let mut graph = build(3, &[(0, 1), (1, 2), (0, 2)], 3);
    assert!(graph.colorify(Algorithm::DepthFirst));
    assert_eq!(graph.explored, 6);
    assert_eq!(graph.coloring(), vec![1, 2, 3]);
}

#[test]
fn forward_checking_node_counts_are_exact() {
    // Triangle with two colours: vertex 0 takes 1 (node), vertex 1 has only 2
    // left (node), vertex 2 has nothing left; the same under colour 2.
    let mut graph = build(3, &[(0, 1), (1, 2), (0, 2)], 2);
    assert!(!graph.colorify(Algorithm::ForwardCheck));
    assert_eq!(graph.explored, 4);
    let mut graph = build(3, &[(0, 1), (1, 2), (0, 2)], 3);
    assert!(graph.colorify(Algorithm::ForwardCheck));
    assert_eq!(graph.explored, 3);
    assert_eq!(graph.coloring(), vec![1, 2, 3]);
}

#[test]
fn most_constrained_node_counts_are_exact() {
    let mut graph = build(3, &[(0, 1), (1, 2), (0, 2)], 2);
    assert!(!graph.colorify(Algorithm::MostConstrained));
    assert_eq!(graph.explored, 4);
    let mut graph = build(3, &[(0, 1), (1, 2), (0, 2)], 3);
    assert!(graph.colorify(Algorithm::MostConstrained));
    assert_eq!(graph.explored, 3);
}

#[test]
fn most_constrained_branches_on_the_tightest_vertex() {
    // Star around vertex 0 plus an edge 1-4: once 0 has colour 1 the next
    // vertex is chosen before the colour is propagated, so it is vertex 1, the
    // first uncoloured one; after 1 is coloured vertices 2..=4 have lost
    // colour 1, and 2 is the first with the fewest entries.
    let edges = [(0, 1), (0, 2), (0, 3), (0, 4), (1, 4)];
    let mut graph = build(5, &edges, 3);
    assert!(graph.colorify(Algorithm::MostConstrained));
    assert!(is_proper(&graph, &edges, 3));
    assert_eq!(graph.explored, 5);
}

#[test]
fn success_returns_a_proper_coloring() {
    let edges = [(0, 1), (0, 2), (1, 2), (2, 3), (3, 4), (4, 0), (1, 4)];
    for alg in strategies() {
        let mut graph = build(5, &edges, 3);
        assert!(graph.colorify(alg));
        assert!(is_proper(&graph, &edges, 3));
    }
}

/// The first proper colouring with colours `1..=k` in the order of the
/// dictionary, if there is one.
fn first_coloring(n: usize, edges: &[(usize, usize)], k: usize) -> Option<Vec<usize>> {
    let mut colors = vec![1usize; n];
    if n > 0 && k == 0 {
        return None;
    }
    loop {
        if edges.iter().all(|&(u, v)| colors[u] != colors[v]) {
            return Some(colors);
        }
        // The next colouring: the last vertex counts fastest.
        let mut pos = n;
        loop {
            if pos == 0 {
                return None;
            }
            pos -= 1;
            if colors[pos] < k {
                colors[pos] += 1;
                break;
            }
            colors[pos] = 1;
        }
    }
}

#[test]
fn backtracking_and_forward_checking_return_the_first_coloring() {
    let pairs = [(0, 1), (0, 2), (0, 3), (1, 2), (1, 3), (2, 3)];
    for mask in 0..(1u32 << pairs.len()) {
        let edges: Vec<(usize, usize)> =
            (0..pairs.len()).filter(|b| mask & (1 << b) != 0).map(|b| pairs[b]).collect();
        for k in 1..=4 {
            let expected = first_coloring(4, &edges, k);
            for alg in [Algorithm::DepthFirst, Algorithm::ForwardCheck] {
                let mut graph = build(4, &edges, k);
                let solved = graph.colorify(alg);
                assert_eq!(solved, expected.is_some());
                if let Some(first) = &expected {
                    assert_eq!(&graph.coloring(), first);
                }
            }
        }
    }
    let mut graph = build(4, &[(0, 1), (1, 2), (2, 3)], 2);
    assert!(graph.colorify(Algorithm::ForwardCheck));
    assert_eq!(graph.coloring(), vec![1, 2, 1, 2]);
}

#[test]
fn strategies_agree_with_brute_force_on_small_graphs() {
    // Every graph on four vertices, by edge subset, with one to three colours.
    let pairs = [(0, 1), (0, 2), (0, 3), (1, 2), (1, 3), (2, 3)];
    for mask in 0..(1u32 << pairs.len()) {
        let edges: Vec<(usize, usize)> =
            (0..pairs.len()).filter(|b| mask & (1 << b) != 0).map(|b| pairs[b]).collect();
        for k in 1..=3 {
            let expected = brute_force(4, &edges, k);
            for alg in strategies() {
                let mut graph = build(4, &edges, k);
                let solved = graph.colorify(alg);
                assert_eq!(solved, expected);
                if solved {
                    assert!(is_proper(&graph, &edges, k));
                }
            }
        }
    }
}

#[test]
fn six_vertex_graphs_agree_with_brute_force() {
    let mut pairs = Vec::new();
    for u in 0..6 {
        for v in (u + 1)..6 {
            pairs.push((u, v));
        }
    }
    // A sample of the graphs on six vertices, by edge subset.
    let mut mask: u32 = 0;
    while mask < (1 << pairs.len()) {
        let edges: Vec<(usize, usize)> =
            (0..pairs.len()).filter(|b| mask & (1 << b) != 0).map(|b| pairs[b]).collect();
        for k in 1..=4 {
            let expected = brute_force(6, &edges, k);
            for alg in strategies() {
                let mut graph = build(6, &edges, k);
                let solved = graph.colorify(alg);
                assert_eq!(solved, expected);
                if solved {
                    assert!(is_proper(&graph, &edges, k));
                } else {
                    assert!(graph.is_blank());
                }
            }
        }
        mask += 211;
    }
}

#[test]
fn failure_on_six_vertices_is_confirmed_by_brute_force() {
    // The complete graph on six vertices needs six colours.
    let mut edges = Vec::new();
    for u in 0..6 {
        for v in (u + 1)..6 {
            edges.push((u, v));
        }
    }
    for k in 1..=6 {
        let expected = brute_force(6, &edges, k);
        assert_eq!(expected, k == 6);
        for alg in strategies() {
            let mut graph = build(6, &edges, k);
            assert_eq!(graph.colorify(alg), expected);
        }
    }
}

#[test]
fn failing_search_leaves_no_trace() {
    let edges = [(0, 1), (1, 2), (0, 2), (2, 3)];
    for alg in strategies() {
        let mut graph = build(4, &edges, 2);
        assert!(!graph.colorify(alg));
        assert!(graph.is_blank());
        assert_eq!(graph.coloring(), vec![0, 0, 0, 0]);
        for v in 0..4 {
            assert_eq!(graph.domain_of(v), vec![1, 2]);
        }
    }
}

#[test]
fn colors_resets_every_domain() {
    let edges = [(0, 1), (1, 2)];
    let mut graph = build(3, &edges, 3);
    assert!(graph.colorify(Algorithm::ForwardCheck));
    assert!(!graph.is_blank());
    graph.colors(3);
    assert!(graph.is_blank());
    for v in 0..3 {
        assert_eq!(graph.domain_of(v), vec![1, 2, 3]);
        assert_eq!(graph.color_of(v), 0);
    }
    graph.colors(2);
    for v in 0..3 {
        assert_eq!(graph.domain_of(v), vec![1, 2]);
    }
    assert_eq!(graph.color_count(), 2);
}

#[test]
fn assign_counts_every_attempt() {
    let mut graph = build(2, &[(0, 1)], 2);
    graph.assign(0, 1);
    graph.assign(1, 1);
    assert!(!graph.is_consistent(1));
    assert!(!graph.is_consistent(0));
    graph.assign(1, 2);
    assert!(graph.is_consistent(1));
    assert!(graph.is_complete());
    assert_eq!(graph.explored, 3);
    graph.unassign(1);
    assert!(!graph.is_complete());
    assert!(graph.is_consistent(0));
    assert_eq!(graph.explored, 3);
}

#[test]
fn explored_stays_at_the_maximum() {
    let mut graph = build(1, &[], 1);
    graph.explored = usize::MAX - 1;
    graph.assign(0, 1);
    assert_eq!(graph.explored, usize::MAX);
    graph.assign(0, 1);
    assert_eq!(graph.explored, usize::MAX);
}

#[test]
fn connect_enters_the_edge_at_both_ends() {
    let mut graph = Graph::new();
    graph.verts(3).edges(2);
    graph.connect(0, 2);
    graph.connect(2, 1);
    assert_eq!(graph.neighbors_of(0), vec![2]);
    assert_eq!(graph.neighbors_of(1), vec![2]);
    assert_eq!(graph.neighbors_of(2), vec![0, 1]);
    assert_eq!(graph.vertex_count(), 3);
    assert_eq!(graph.edge_count(), 2);
}

#[test]
fn propagation_is_undone_exactly() {
    let mut graph = build(4, &[(0, 1), (0, 2), (3, 1)], 2);
    graph.assign(3, 1);
    let first = graph.alert_neighbors(3, 1);
    assert_eq!(first, vec![1]);
    assert_eq!(graph.domain_of(1), vec![0, 2]);
    graph.assign(0, 1);
    let second = graph.alert_neighbors(0, 1);
    // Vertex 1 had lost colour 1 already: only vertex 2 was touched.
    assert_eq!(second, vec![2]);
    assert_eq!(graph.domain_of(2), vec![0, 2]);
    graph.unalert_neighbors(1, &second);
    assert_eq!(graph.domain_of(2), vec![1, 2]);
    assert_eq!(graph.domain_of(1), vec![0, 2]);
    assert_eq!(graph.option_at(1, 0), 0);
    assert_eq!(graph.option_at(1, 1), 2);
}

#[test]
fn findmcv_keeps_the_first_strict_minimum() {
    let mut nodes = Vec::new();
    for i in 0..4 {
        let mut node = Node::new(i);
        node.options = vec![1, 2, 3];
        nodes.push(node);
    }
    assert_eq!(findmcv(&nodes), 0);
    nodes[2].options = vec![0, 2, 0];
    nodes[3].options = vec![0, 0, 3];
    assert_eq!(findmcv(&nodes), 2);
    nodes[2].color = 2;
    assert_eq!(findmcv(&nodes), 3);
    for node in nodes.iter_mut() {
        node.color = 1;
    }
    assert_eq!(findmcv(&nodes), usize::MAX);
    assert_eq!(findmcv(&Vec::new()), usize::MAX);
}

#[test]
fn new_node_is_uncolored_and_bare() {
    let node = Node::new(7);
    assert_eq!(node.color, 0);
    assert_eq!(node.index, 7);
    assert!(node.neighbors.is_empty());
    assert!(node.options.is_empty());
}

#[test]
fn new_graph_is_empty() {
    let graph = Graph::new();
    assert_eq!(graph.vertex_count(), 0);
    assert_eq!(graph.edge_count(), 0);
    assert_eq!(graph.color_count(), 0);
    assert_eq!(graph.explored, 0);
    assert!(graph.is_blank());
    assert_eq!(graph.most_constrained(), usize::MAX);
}
