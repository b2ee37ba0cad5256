//! The constraint graph: vertices, symmetric adjacency, the colour of each
//! vertex and its pruned domain, with the operations a search is built from.

use vstd::prelude::*;
use crate::graph_coloring::model::{
    full_domain, is_most_constrained, live, saturating, GraphView,
};

verus! {

/// The search strategy.
#[derive(Debug, PartialEq, Eq, Structural, Copy, Clone)]
pub enum Algorithm {
    /// Plain chronological backtracking.
    DepthFirst,
    /// Backtracking with forward checking.
    ForwardCheck,
    /// Forward checking that branches on the most constrained vertex next.
    MostConstrained,
}

/// One vertex of the constraint graph.
pub struct Node {
    /// The colour of the vertex; 0 means uncoloured.
    pub color: usize,
    /// The position of the vertex in the graph.
    pub index: usize,
    /// The vertices joined to this one by an edge.
    pub neighbors: Vec<usize>,
    /// The domain: slot `j` holds colour `j + 1`, or 0 once it is eliminated.
    pub options: Vec<usize>,
}

impl Node {
    /// An uncoloured vertex without neighbours and with an empty domain.
    pub fn new(i: usize) -> (node: Node)
        ensures
            node.color == 0,
            node.index == i,
            node.neighbors@ == Seq::<usize>::empty(),
            node.options@ == Seq::<usize>::empty(),
    {
        Node { color: 0, index: i, neighbors: Vec::with_capacity(0), options: Vec::with_capacity(0) }
    }
}

/// The colours of a list of vertices.
pub open spec fn colors_of(nodes: Seq<Node>) -> Seq<usize> {
    Seq::new(nodes.len(), |i: int| nodes[i].color)
}

/// The domains of a list of vertices.
pub open spec fn domains_of(nodes: Seq<Node>) -> Seq<Seq<usize>> {
    Seq::new(nodes.len(), |i: int| nodes[i].options@)
}

/// The neighbour lists of a list of vertices.
pub open spec fn adjacency_of(nodes: Seq<Node>) -> Seq<Seq<usize>> {
    Seq::new(nodes.len(), |i: int| nodes[i].neighbors@)
}

/// A constraint graph for vertex colouring.
pub struct Graph {
    vertices: usize,
    edges: usize,
    colors: usize,
    /// The number of branching nodes explored so far; it stays at `usize::MAX`
    /// once it has reached it.
    pub explored: usize,
    nodes: Vec<Node>,
}

impl View for Graph {
    type V = GraphView;

    closed spec fn view(&self) -> GraphView {
        GraphView {
            adjacency: adjacency_of(self.nodes@),
            declared_edges: self.edges as nat,
            palette: self.colors as nat,
            colors: colors_of(self.nodes@),
            domains: domains_of(self.nodes@),
        }
    }
}

impl Graph {
    /// The invariant of the graph: its fields agree with each other and its
    /// abstract value is well formed.
    pub closed spec fn wf(&self) -> bool {
        &&& self.nodes.len() == self.vertices
        &&& forall|i: int| 0 <= i < self.nodes.len() ==> (#[trigger] self.nodes[i]).index == i
        &&& self@.well_formed()
    }

    /// The number of branching nodes explored so far, as the counter holds it.
    pub closed spec fn explored_nodes(&self) -> nat {
        self.explored as nat
    }

    /// A well-formed graph has a well-formed abstract value, and its counter
    /// fits a machine word.
    pub proof fn lemma_view_well_formed(&self)
        requires
            self.wf(),
        ensures
            self@.well_formed(),
            self.explored_nodes() <= usize::MAX,
    {
    }

    /// The empty graph: no vertex, no colour, nothing explored.
    pub fn new() -> (graph: Graph)
        ensures
            graph.wf(),
            graph@ == GraphView::empty(),
            graph.explored_nodes() == 0,
    {
        let graph = Graph { vertices: 0, edges: 0, colors: 0, explored: 0, nodes: Vec::new() };
        proof {
            assert(graph@.adjacency =~= Seq::<Seq<usize>>::empty());
            assert(graph@.colors =~= Seq::<usize>::empty());
            assert(graph@.domains =~= Seq::<Seq<usize>>::empty());
        }
        graph
    }

    /// Starts the graph over with `verts` vertices: no edge, no vertex coloured,
    /// every domain holding each of the current colours.
    pub fn verts(&mut self, verts: usize) -> (graph: &mut Self)
        requires
            old(self).wf(),
        ensures
            graph.wf(),
            graph@ == old(self)@.with_vertices(verts as nat),
            graph@.blank(),
            graph.explored_nodes() == old(self).explored_nodes(),
            *final(self) == *final(graph),
    {
        self.vertices = verts;
        let mut new_graph: Vec<Node> = Vec::with_capacity(verts);
        let mut i: usize = 0;
        while i < verts
            invariant
                i <= verts,
                new_graph.len() == i,
                forall|j: int|
                    0 <= j < i ==> {
                        &&& (#[trigger] new_graph[j]).index == j
                        &&& new_graph[j].color == 0
                        &&& new_graph[j].neighbors@ == Seq::<usize>::empty()
                        &&& new_graph[j].options@ == full_domain(self.colors as nat)
                    },
            decreases verts - i,
        {
            let mut node = Node::new(i);
            node.options = fill_domain(self.colors);
            new_graph.push(node);
            i += 1;
        }
        self.nodes = new_graph;
        proof {
            assert(self@.adjacency =~= Seq::new(verts as nat, |i: int| Seq::<usize>::empty()));
            assert(self@.colors =~= Seq::new(verts as nat, |i: int| 0usize));
            assert(self@.domains =~= Seq::new(
                verts as nat,
                |i: int| full_domain(old(self)@.palette),
            ));
        }
        self
    }

    /// Records the number of edges that the problem announces.
    pub fn edges(&mut self, edges: usize) -> (graph: &mut Self)
        requires
            old(self).wf(),
        ensures
            graph.wf(),
            graph@ == old(self)@.with_declared_edges(edges as nat),
            graph.explored_nodes() == old(self).explored_nodes(),
            *final(self) == *final(graph),
    {
        self.edges = edges;
        self
    }

    /// Fixes the number of colours and wipes the slate: every vertex is
    /// uncoloured and every domain holds exactly the colours `1..=colors`,
    /// whatever an earlier search left behind.
    pub fn colors(&mut self, colors: usize) -> (graph: &mut Self)
        requires
            old(self).wf(),
        ensures
            graph.wf(),
            graph@ == old(self)@.with_palette(colors as nat),
            graph@.blank(),
            graph.explored_nodes() == old(self).explored_nodes(),
            *final(self) == *final(graph),
    {
        self.colors = colors;
        let options = fill_domain(colors);
        let mut i: usize = 0;
        while i < self.nodes.len()
            invariant
                i <= self.nodes.len(),
                self.nodes.len() == old(self).nodes.len(),
                self.vertices == old(self).vertices,
                self.edges == old(self).edges,
                self.explored == old(self).explored,
                self.colors == colors,
                options@ == full_domain(colors as nat),
                forall|j: int|
                    0 <= j < self.nodes.len() ==> {
                        &&& (#[trigger] self.nodes[j]).index == old(self).nodes[j].index
                        &&& self.nodes[j].neighbors@ == old(self).nodes[j].neighbors@
                    },
                forall|j: int|
                    0 <= j < i ==> {
                        &&& (#[trigger] self.nodes[j]).color == 0
                        &&& self.nodes[j].options@ == full_domain(colors as nat)
                    },
            decreases self.nodes.len() - i,
        {
            self.nodes[i].options = options.clone();
            self.nodes[i].color = 0;
            i += 1;
        }
        proof {
            assert(self@.adjacency =~= old(self)@.adjacency);
            assert(self@.colors =~= Seq::new(old(self)@.n(), |i: int| 0usize));
            assert(self@.domains =~= Seq::new(
                old(self)@.n(),
                |i: int| full_domain(colors as nat),
            ));
        }
        self
    }

    /// Joins the vertices `n1` and `n2` by an edge, entered at both ends.
    pub fn connect(&mut self, n1: usize, n2: usize)
        requires
            old(self).wf(),
            n1 < old(self)@.n(),
            n2 < old(self)@.n(),
            n1 != n2,
        ensures
            final(self).wf(),
            final(self)@ == old(self)@.link(n1 as int, n2 as int),
            final(self).explored_nodes() == old(self).explored_nodes(),
    {
        self.nodes[n1].neighbors.push(n2);
        self.nodes[n2].neighbors.push(n1);
        proof {
            let target = old(self)@.adjacency.update(
                n1 as int,
                old(self)@.adjacency[n1 as int].push(n2),
            ).update(n2 as int, old(self)@.adjacency[n2 as int].push(n1));
            assert(self@.adjacency =~= target);
            assert(self@.colors =~= old(self)@.colors);
            assert(self@.domains =~= old(self)@.domains);
            let old_adj = old(self)@.adjacency;
            let adj = self@.adjacency;
            assert forall|u: int, j: int| 0 <= u < self@.n() && 0 <= j < adj[u].len() implies ({
                &&& (#[trigger] adj[u][j]) < self@.n()
                &&& adj[u][j] != u
                &&& adj[adj[u][j] as int].contains(u as usize)
            }) by {
                let w = adj[u][j];
                if j < old_adj[u].len() {
                    assert(w == old_adj[u][j]);
                    assert(old_adj[w as int].contains(u as usize));
                    let pos = choose|pos: int|
                        0 <= pos < old_adj[w as int].len() && old_adj[w as int][pos] == u as usize;
                    assert(adj[w as int][pos] == u as usize);
                } else {
                    if u == n1 {
                        assert(w == n2);
                        assert(adj[n2 as int][adj[n2 as int].len() - 1] == n1);
                    } else {
                        assert(u == n2);
                        assert(w == n1);
                        assert(adj[n1 as int][adj[n1 as int].len() - 1] == n2);
                    }
                }
            }
        }
    }

    /// The number of vertices.
    pub fn vertex_count(&self) -> (n: usize)
        requires
            self.wf(),
        ensures
            n == self@.n(),
    {
        self.vertices
    }

    /// The number of branching nodes explored so far.
    pub fn explored_count(&self) -> (explored: usize)
        ensures
            explored == self.explored_nodes(),
    {
        self.explored
    }

    /// The number of edges that the problem announced.
    pub fn edge_count(&self) -> (e: usize)
        ensures
            e == self@.declared_edges,
    {
        self.edges
    }

    /// The number of available colours.
    pub fn color_count(&self) -> (k: usize)
        ensures
            k == self@.palette,
    {
        self.colors
    }

    /// The colour of vertex `v`; 0 means uncoloured.
    pub fn color_of(&self, v: usize) -> (c: usize)
        requires
            self.wf(),
            v < self@.n(),
        ensures
            c == self@.colors[v as int],
    {
        self.nodes[v].color
    }

    /// What slot `slot` of the domain of vertex `v` holds: `slot + 1`, or 0 once
    /// that colour is eliminated.
    pub fn option_at(&self, v: usize, slot: usize) -> (c: usize)
        requires
            self.wf(),
            v < self@.n(),
            slot < self@.palette,
        ensures
            c == self@.domains[v as int][slot as int],
    {
        assert(self@.domains[v as int].len() == self@.palette);
        self.nodes[v].options[slot]
    }

    /// The colours of all vertices, in vertex order.
    pub fn coloring(&self) -> (colors: Vec<usize>)
        requires
            self.wf(),
        ensures
            colors@ == self@.colors,
    {
        let mut colors: Vec<usize> = Vec::with_capacity(self.nodes.len());
        let mut i: usize = 0;
        while i < self.nodes.len()
            invariant
                i <= self.nodes.len(),
                colors.len() == i,
                forall|j: int| 0 <= j < i ==> colors[j] == self.nodes[j].color,
            decreases self.nodes.len() - i,
        {
            colors.push(self.nodes[i].color);
            i += 1;
        }
        assert(colors@ =~= self@.colors);
        colors
    }

    /// The domain of vertex `v`, slot by slot.
    pub fn domain_of(&self, v: usize) -> (domain: Vec<usize>)
        requires
            self.wf(),
            v < self@.n(),
        ensures
            domain@ == self@.domains[v as int],
    {
        self.nodes[v].options.clone()
    }

    /// The neighbours of vertex `v`, in the order in which they were connected.
    pub fn neighbors_of(&self, v: usize) -> (neighbors: Vec<usize>)
        requires
            self.wf(),
            v < self@.n(),
        ensures
            neighbors@ == self@.adjacency[v as int],
    {
        self.nodes[v].neighbors.clone()
    }

    /// Gives vertex `v` the colour `color` and counts one branching node,
    /// whether or not the colour later proves consistent.
    pub fn assign(&mut self, v: usize, color: usize)
        requires
            old(self).wf(),
            v < old(self)@.n(),
            color <= old(self)@.palette,
        ensures
            final(self).wf(),
            final(self)@ == old(self)@.paint(v as int, color),
            final(self).explored_nodes() == saturating(old(self).explored_nodes(), 1),
    {
        self.explored = self.explored.saturating_add(1);
        self.nodes[v].color = color;
        proof {
            assert(self@.adjacency =~= old(self)@.adjacency);
            assert(self@.domains =~= old(self)@.domains);
            assert(self@.colors =~= old(self)@.colors.update(v as int, color));
        }
    }

    /// Takes the colour of vertex `v` away.
    pub fn unassign(&mut self, v: usize)
        requires
            old(self).wf(),
            v < old(self)@.n(),
        ensures
            final(self).wf(),
            final(self)@ == old(self)@.paint(v as int, 0),
            final(self).explored_nodes() == old(self).explored_nodes(),
    {
        self.nodes[v].color = 0;
        proof {
            assert(self@.adjacency =~= old(self)@.adjacency);
            assert(self@.domains =~= old(self)@.domains);
            assert(self@.colors =~= old(self)@.colors.update(v as int, 0));
        }
    }

    /// Whether no neighbour of `v` holds the nonzero colour that `v` holds.
    /// Uncoloured neighbours are not looked at.
    pub fn is_consistent(&self, v: usize) -> (consistent: bool)
        requires
            self.wf(),
            v < self@.n(),
        ensures
            consistent == self@.consistent_at(v as int),
    {
        let mut j: usize = 0;
        while j < self.nodes[v].neighbors.len()
            invariant
                self.wf(),
                v < self@.n(),
                j <= self.nodes[v as int].neighbors.len(),
                forall|p: int|
                    0 <= p < j ==> {
                        let w = #[trigger] self@.adjacency[v as int][p];
                        self@.colors[w as int] == 0 || self@.colors[w as int]
                            != self@.colors[v as int]
                    },
            decreases self.nodes[v as int].neighbors.len() - j,
        {
            let neigh = self.nodes[v].neighbors[j];
            assert(neigh == self@.adjacency[v as int][j as int]);
            let neigh_color = self.nodes[neigh].color;
            if neigh_color != 0 && neigh_color == self.nodes[v].color {
                return false;
            }
            j += 1;
        }
        true
    }

    /// Whether every vertex has a colour.
    pub fn is_complete(&self) -> (complete: bool)
        requires
            self.wf(),
        ensures
            complete == self@.complete(),
    {
        let mut i: usize = 0;
        while i < self.nodes.len()
            invariant
                i <= self.nodes.len(),
                forall|u: int| 0 <= u < i ==> self@.colors[u] != 0,
            decreases self.nodes.len() - i,
        {
            if self.nodes[i].color == 0 {
                assert(self@.colors[i as int] == 0);
                return false;
            }
            i += 1;
        }
        true
    }

    /// Whether no vertex is coloured and no colour is eliminated anywhere.
    pub fn is_blank(&self) -> (blank: bool)
        requires
            self.wf(),
        ensures
            blank == self@.blank(),
    {
        let mut i: usize = 0;
        while i < self.nodes.len()
            invariant
                self.wf(),
                i <= self.nodes.len(),
                forall|u: int| 0 <= u < i ==> self@.colors[u] == 0,
                forall|u: int|
                    0 <= u < i ==> #[trigger] self@.domains[u] == full_domain(self@.palette),
            decreases self.nodes.len() - i,
        {
            if self.nodes[i].color != 0 {
                assert(self@.colors[i as int] != 0);
                return false;
            }
            let mut j: usize = 0;
            while j < self.colors
                invariant
                    self.wf(),
                    i < self.nodes.len(),
                    j <= self.colors,
                    forall|p: int| 0 <= p < j ==> self@.domains[i as int][p] == p + 1,
                decreases self.colors - j,
            {
                assert(self@.domains[i as int].len() == self@.palette);
                if self.nodes[i].options[j] == 0 {
                    assert(self@.domains[i as int][j as int] == 0);
                    assert(full_domain(self@.palette)[j as int] == j + 1);
                    return false;
                }
                j += 1;
            }
            assert(self@.domains[i as int] =~= full_domain(self@.palette));
            i += 1;
        }
        true
    }

    /// Propagates the colour `color` of vertex `i`: every uncoloured neighbour
    /// that still has `color` in its domain loses it. Returns the vertices whose
    /// domain was changed, so that exactly this can be undone.
    pub fn alert_neighbors(&mut self, i: usize, color: usize) -> (touched: Vec<usize>)
        requires
            old(self).wf(),
            i < old(self)@.n(),
            1 <= color <= old(self)@.palette,
        ensures
            final(self).wf(),
            final(self)@ == old(self)@.prune(i as int, color),
            final(self).explored_nodes() == old(self).explored_nodes(),
            forall|t: usize|
                touched@.contains(t) <==> old(self)@.prunable(i as int, color, t as int),
            forall|p: int| 0 <= p < touched.len() ==> touched[p] < old(self)@.n(),
    {
        let mut touched: Vec<usize> = Vec::new();
        let ghost before = self@;
        let mut j: usize = 0;
        while j < self.nodes[i].neighbors.len()
            invariant
                self.wf(),
                before.well_formed(),
                before == old(self)@,
                i < before.n(),
                1 <= color <= before.palette,
                j <= before.adjacency[i as int].len(),
                self@.adjacency == before.adjacency,
                self@.colors == before.colors,
                self@.palette == before.palette,
                self@.declared_edges == before.declared_edges,
                self.explored == old(self).explored,
                self@.domains.len() == before.domains.len(),
                forall|u: int|
                    0 <= u < before.n() ==> #[trigger] self@.domains[u] == (if before.prunable(
                        i as int,
                        color,
                        u,
                    ) && before.adjacency[i as int].take(j as int).contains(u as usize) {
                        before.domains[u].update(color - 1, 0)
                    } else {
                        before.domains[u]
                    }),
                forall|t: usize|
                    touched@.contains(t) <==> (before.prunable(i as int, color, t as int)
                        && before.adjacency[i as int].take(j as int).contains(t)),
            decreases before.adjacency[i as int].len() - j,
        {
            let neigh = self.nodes[i].neighbors[j];
            let ghost row = before.adjacency[i as int];
            assert(neigh == row[j as int]);
            assert(neigh < before.n());
            assert(before.domains[neigh as int].len() == before.palette);
            assert(self@.domains[neigh as int].len() == before.palette);
            let ghost seen = row.take(j as int).contains(neigh);
            proof {
                assert(row.take(j as int + 1) =~= row.take(j as int).push(neigh));
                assert forall|t: usize|
                    row.take(j as int + 1).contains(t) <==> (row.take(j as int).contains(t) || t
                        == neigh) by {
                    if row.take(j as int).contains(t) {
                        let pos = choose|pos: int|
                            0 <= pos < row.take(j as int).len() && row.take(j as int)[pos] == t;
                        assert(row.take(j as int + 1)[pos] == t);
                    }
                    if t == neigh {
                        assert(row.take(j as int + 1)[j as int] == t);
                    }
                }
                assert(row.contains(neigh));
            }
            let ghost mid = self@;
            if self.nodes[neigh].color == 0 && self.nodes[neigh].options[color - 1] != 0 {
                assert(before.prunable(i as int, color, neigh as int));
                assert(!seen);
                self.nodes[neigh].options[color - 1] = 0;
                let ghost len_before = touched@.len();
                let ghost prev = touched@;
                touched.push(neigh);
                proof {
                    assert(self@.adjacency =~= before.adjacency);
                    assert(self@.colors =~= before.colors);
                    assert(self@.domains[neigh as int] =~= before.domains[neigh as int].update(
                        color - 1,
                        0,
                    ));
                    assert forall|u: int| 0 <= u < before.n() implies #[trigger] self@.domains[u]
                        == (if before.prunable(i as int, color, u) && row.take(
                        j as int + 1,
                    ).contains(u as usize) {
                        before.domains[u].update(color - 1, 0)
                    } else {
                        before.domains[u]
                    }) by {
                        if u != neigh {
                            assert(self@.domains[u] == mid.domains[u]);
                        }
                    }
                    assert forall|t: usize| touched@.contains(t) <==> (before.prunable(
                        i as int,
                        color,
                        t as int,
                    ) && row.take(j as int + 1).contains(t)) by {
                        assert(prev.contains(t) <==> (before.prunable(i as int, color, t as int)
                            && row.take(j as int).contains(t)));
                        if touched@.contains(t) {
                            let pos = choose|pos: int|
                                0 <= pos < touched@.len() && touched@[pos] == t;
                            if pos < len_before {
                                assert(prev[pos] == t);
                                assert(prev.contains(t));
                            }
                        }
                        if prev.contains(t) {
                            let pos = choose|pos: int| 0 <= pos < prev.len() && prev[pos] == t;
                            assert(touched@[pos] == t);
                        }
                        if t == neigh {
                            assert(touched@[len_before as int] == t);
                        }
                    }
                    assert forall|u: int, p: int|
                        0 <= u < self@.n() && 0 <= p < self@.palette implies ({
                        ||| (#[trigger] self@.domains[u][p]) == 0
                        ||| self@.domains[u][p] == p + 1
                    }) by {
                        assert(before.domains[u][p] == 0 || before.domains[u][p] == p + 1);
                    }
                    assert forall|u: int| 0 <= u < self@.n() implies (#[trigger] self@.domains[u]).len()
                        == self@.palette by {
                        assert(before.domains[u].len() == before.palette);
                    }
                }
            } else {
                proof {
                    if before.prunable(i as int, color, neigh as int) {
                        assert(seen);
                    }
                }
            }
            j += 1;
        }
        proof {
            let row = before.adjacency[i as int];
            assert(row.take(j as int) =~= row);
            assert(self@.domains =~= before.prune(i as int, color).domains);
            assert forall|p: int| 0 <= p < touched.len() implies touched[p] < before.n() by {
                assert(touched@.contains(touched[p]));
            }
        }
        touched
    }

    /// Puts the colour `color` back into the domain of each vertex of `touched`:
    /// the undo of the propagation that returned `touched`.
    pub fn unalert_neighbors(&mut self, color: usize, touched: &Vec<usize>)
        requires
            old(self).wf(),
            1 <= color <= old(self)@.palette,
            forall|p: int| 0 <= p < touched.len() ==> touched[p] < old(self)@.n(),
        ensures
            final(self).wf(),
            final(self)@ == old(self)@.restore(touched@, color),
            final(self).explored_nodes() == old(self).explored_nodes(),
    {
        let ghost before = self@;
        let mut p: usize = 0;
        while p < touched.len()
            invariant
                self.wf(),
                before == old(self)@,
                before.well_formed(),
                1 <= color <= before.palette,
                p <= touched.len(),
                forall|q: int| 0 <= q < touched.len() ==> touched[q] < before.n(),
                self@.adjacency == before.adjacency,
                self@.colors == before.colors,
                self@.palette == before.palette,
                self@.declared_edges == before.declared_edges,
                self.explored == old(self).explored,
                self@.domains.len() == before.domains.len(),
                forall|u: int|
                    0 <= u < before.n() ==> #[trigger] self@.domains[u] == (if touched@.take(
                        p as int,
                    ).contains(u as usize) {
                        before.domains[u].update(color - 1, color)
                    } else {
                        before.domains[u]
                    }),
            decreases touched.len() - p,
        {
            let neigh = touched[p];
            let ghost mid = self@;
            assert(before.domains[neigh as int].len() == before.palette);
            assert(self@.domains[neigh as int].len() == before.palette);
            self.nodes[neigh].options[color - 1] = color;
            proof {
                let done = touched@.take(p as int);
                let next = touched@.take(p as int + 1);
                assert(next =~= done.push(neigh));
                assert forall|t: usize| next.contains(t) <==> (done.contains(t) || t == neigh) by {
                    if done.contains(t) {
                        let pos = choose|pos: int| 0 <= pos < done.len() && done[pos] == t;
                        assert(next[pos] == t);
                    }
                    if t == neigh {
                        assert(next[p as int] == t);
                    }
                }
                assert(self@.adjacency =~= before.adjacency);
                assert(self@.colors =~= before.colors);
                assert(self@.domains[neigh as int] =~= before.domains[neigh as int].update(
                    color - 1,
                    color,
                ));
                assert forall|u: int| 0 <= u < before.n() implies #[trigger] self@.domains[u] == (
                if next.contains(u as usize) {
                    before.domains[u].update(color - 1, color)
                } else {
                    before.domains[u]
                }) by {
                    if u != neigh {
                        assert(self@.domains[u] == mid.domains[u]);
                    }
                }
                assert forall|u: int, q: int|
                    0 <= u < self@.n() && 0 <= q < self@.palette implies ({
                    ||| (#[trigger] self@.domains[u][q]) == 0
                    ||| self@.domains[u][q] == q + 1
                }) by {
                    assert(before.domains[u][q] == 0 || before.domains[u][q] == q + 1);
                }
                assert forall|u: int| 0 <= u < self@.n() implies (#[trigger] self@.domains[u]).len()
                    == self@.palette by {
                    assert(before.domains[u].len() == before.palette);
                }
            }
            p += 1;
        }
        proof {
            assert(touched@.take(p as int) =~= touched@);
            assert(self@.domains =~= before.restore(touched@, color).domains);
        }
    }

    /// The vertex that most-constrained-variable ordering branches on next.
    pub fn most_constrained(&self) -> (next: usize)
        requires
            self.wf(),
        ensures
            is_most_constrained(self@.colors, self@.domains, next),
    {
        findmcv(&self.nodes)
    }
}

/// A fresh domain that holds every colour of `1..=colors`.
fn fill_domain(colors: usize) -> (options: Vec<usize>)
    ensures
        options@ == full_domain(colors as nat),
{
    let mut options: Vec<usize> = Vec::with_capacity(colors);
    let mut i: usize = 0;
    while i < colors
        invariant
            i <= colors,
            options.len() == i,
            forall|j: int| 0 <= j < i ==> options[j] == j + 1,
        decreases colors - i,
    {
        options.push(i + 1);
        i += 1;
    }
    assert(options@ =~= full_domain(colors as nat));
    options
}

/// The number of entries of `options` that are not eliminated.
fn count_live(options: &Vec<usize>) -> (total: usize)
    ensures
        total == live(options@),
{
    let mut total: usize = 0;
    let mut j: usize = 0;
    while j < options.len()
        invariant
            j <= options.len(),
            total <= j,
            total == live(options@.take(j as int)),
        decreases options.len() - j,
    {
        proof {
            assert(options@.take(j as int + 1).drop_last() =~= options@.take(j as int));
        }
        if options[j] != 0 {
            total += 1;
        }
        j += 1;
    }
    assert(options@.take(j as int) =~= options@);
    total
}

/// The uncoloured vertex with the fewest live domain entries, the lowest index
/// among equals: one ascending scan that keeps the first vertex that strictly
/// improves the minimum. Returns `usize::MAX` where no vertex is uncoloured.
pub fn findmcv(nodes: &Vec<Node>) -> (mcv: usize)
    ensures
        is_most_constrained(colors_of(nodes@), domains_of(nodes@), mcv),
{
    let mut mcv: usize = usize::MAX;
    let mut min_options: usize = usize::MAX;
    let mut index: usize = 0;
    let ghost colors = colors_of(nodes@);
    let ghost domains = domains_of(nodes@);
    while index < nodes.len()
        invariant
            index <= nodes.len(),
            colors == colors_of(nodes@),
            domains == domains_of(nodes@),
            mcv == usize::MAX ==> forall|u: int| 0 <= u < index ==> colors[u] != 0,
            mcv != usize::MAX ==> {
                &&& mcv < index
                &&& colors[mcv as int] == 0
                &&& min_options == live(domains[mcv as int])
                &&& forall|u: int|
                    0 <= u < index && #[trigger] colors[u] == 0 ==> {
                        &&& live(domains[mcv as int]) <= live(domains[u])
                        &&& u < mcv ==> live(domains[mcv as int]) < live(domains[u])
                    }
            },
        decreases nodes.len() - index,
    {
        if nodes[index].color != 0 {
            index += 1;
            continue ;
        }
        let total_options = count_live(&nodes[index].options);
        assert(total_options == live(domains[index as int]));
        assert(colors[index as int] == 0);
        if mcv == usize::MAX || total_options < min_options {
            mcv = index;
            min_options = total_options;
        }
        index += 1;
    }
    proof {
        if mcv != usize::MAX {
            assert(colors[mcv as int] == 0);
        }
    }
    mcv
}

} // verus!
