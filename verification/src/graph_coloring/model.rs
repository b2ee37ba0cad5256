//! The mathematical model of the constraint graph and of the three searches.
//!
//! Everything here is specification: a `GraphView` is the abstract value of a
//! constraint graph, and the search functions say, for every such value, which
//! colouring a search returns and how many branching nodes it explores.

use vstd::prelude::*;

verus! {

/// Abstract value of a constraint graph.
pub struct GraphView {
    /// For each vertex, its neighbours in the order in which they were connected.
    pub adjacency: Seq<Seq<usize>>,
    /// The edge count announced by the problem line.
    pub declared_edges: nat,
    /// The number of available colours, `K`.
    pub palette: nat,
    /// For each vertex its colour; 0 means uncoloured.
    pub colors: Seq<usize>,
    /// For each vertex its domain: slot `j` holds `j + 1` or 0 (eliminated).
    pub domains: Seq<Seq<usize>>,
}

/// What a search yields: the full colouring it found, if any, and the number of
/// colour assignments it attempted.
pub struct Outcome {
    /// The colouring found: the colour of each vertex.
    pub coloring: Option<Seq<usize>>,
    /// The number of colour assignments attempted, failed ones included.
    pub nodes: nat,
}

/// The domain that holds every colour of `1..=k`: slot `j` holds `j + 1`.
pub open spec fn full_domain(k: nat) -> Seq<usize> {
    Seq::new(k, |j: int| (j + 1) as usize)
}

/// The number of entries of a domain that are not eliminated.
pub open spec fn live(domain: Seq<usize>) -> nat
    decreases domain.len(),
{
    if domain.len() == 0 {
        0
    } else {
        live(domain.drop_last()) + if domain.last() != 0 {
            1nat
        } else {
            0nat
        }
    }
}

/// The number of uncoloured vertices of a colouring.
pub open spec fn blanks(colors: Seq<usize>) -> nat
    decreases colors.len(),
{
    if colors.len() == 0 {
        0
    } else {
        blanks(colors.drop_last()) + if colors.last() == 0 {
            1nat
        } else {
            0nat
        }
    }
}

/// `a + b`, held at `usize::MAX` where the sum does not fit a `usize`.
pub open spec fn saturating(a: nat, b: nat) -> nat {
    if a + b > usize::MAX {
        usize::MAX as nat
    } else {
        a + b
    }
}

/// `f` gives every vertex a colour of `1..=k` and no edge joins two vertices of
/// one colour.
pub open spec fn is_proper(adjacency: Seq<Seq<usize>>, k: nat, f: Seq<usize>) -> bool {
    &&& f.len() == adjacency.len()
    &&& forall|u: int| 0 <= u < f.len() ==> 1 <= #[trigger] f[u] <= k
    &&& forall|u: int, j: int|
        0 <= u < adjacency.len() && 0 <= j < adjacency[u].len() ==> f[#[trigger] adjacency[u][j]
            as int] != f[u]
}

/// `f` keeps every colour that `partial` has already fixed.
pub open spec fn extends(f: Seq<usize>, partial: Seq<usize>) -> bool {
    &&& f.len() == partial.len()
    &&& forall|u: int| 0 <= u < partial.len() && partial[u] != 0 ==> #[trigger] f[u] == partial[u]
}

/// `a` comes before `b`, or is `b`, in the order of the dictionary: where the
/// two first differ, `a` holds the lower colour.
pub open spec fn lex_le(a: Seq<usize>, b: Seq<usize>) -> bool {
    a == b || exists|p: int|
        0 <= p < a.len() && p < b.len() && #[trigger] a[p] < b[p] && forall|q: int|
            0 <= q < p ==> a[q] == b[q]
}

/// Some proper colouring with `k` colours exists.
pub open spec fn colorable(adjacency: Seq<Seq<usize>>, k: nat) -> bool {
    exists|f: Seq<usize>| is_proper(adjacency, k, f)
}

/// Some proper colouring with `k` colours keeps what `partial` has fixed.
pub open spec fn completable(adjacency: Seq<Seq<usize>>, k: nat, partial: Seq<usize>) -> bool {
    exists|f: Seq<usize>| is_proper(adjacency, k, f) && extends(f, partial)
}

/// `r` is the vertex that most-constrained-variable ordering branches on next:
/// the uncoloured vertex with the fewest live domain entries, the lowest index
/// among equals; `usize::MAX` where no vertex is uncoloured.
pub open spec fn is_most_constrained(
    colors: Seq<usize>,
    domains: Seq<Seq<usize>>,
    r: usize,
) -> bool {
    if forall|u: int| 0 <= u < colors.len() ==> colors[u] != 0 {
        r == usize::MAX
    } else {
        &&& r < colors.len()
        &&& colors[r as int] == 0
        &&& forall|u: int|
            0 <= u < colors.len() && #[trigger] colors[u] == 0 ==> {
                &&& live(domains[r as int]) <= live(domains[u])
                &&& u < r ==> live(domains[r as int]) < live(domains[u])
            }
    }
}

/// The vertex that `is_most_constrained` singles out.
pub open spec fn most_constrained(colors: Seq<usize>, domains: Seq<Seq<usize>>) -> usize {
    choose|r: usize| is_most_constrained(colors, domains, r)
}

impl GraphView {
    /// The number of vertices.
    pub open spec fn n(self) -> nat {
        self.adjacency.len()
    }

    /// The structural invariant of a constraint graph.
    pub open spec fn well_formed(self) -> bool {
        &&& self.colors.len() == self.n()
        &&& self.domains.len() == self.n()
        &&& self.palette <= usize::MAX
        &&& self.n() <= usize::MAX
        &&& forall|u: int, j: int|
            0 <= u < self.n() && 0 <= j < self.adjacency[u].len() ==> {
                &&& (#[trigger] self.adjacency[u][j]) < self.n()
                &&& self.adjacency[u][j] != u
            }
        &&& forall|u: int, j: int|
            0 <= u < self.n() && 0 <= j < self.adjacency[u].len()
                ==> self.adjacency[(#[trigger] self.adjacency[u][j]) as int].contains(u as usize)
        &&& forall|u: int| 0 <= u < self.n() ==> (#[trigger] self.domains[u]).len() == self.palette
        &&& forall|u: int, j: int|
            0 <= u < self.n() && 0 <= j < self.palette ==> {
                ||| (#[trigger] self.domains[u][j]) == 0
                ||| self.domains[u][j] == j + 1
            }
        &&& forall|u: int| 0 <= u < self.n() ==> (#[trigger] self.colors[u]) <= self.palette
    }

    /// No vertex is coloured and no colour is eliminated anywhere: the state in
    /// which a search starts.
    pub open spec fn blank(self) -> bool {
        &&& forall|u: int| 0 <= u < self.colors.len() ==> self.colors[u] == 0
        &&& forall|u: int|
            0 <= u < self.domains.len() ==> #[trigger] self.domains[u] == full_domain(self.palette)
    }

    /// Every vertex has a colour.
    pub open spec fn complete(self) -> bool {
        forall|u: int| 0 <= u < self.colors.len() ==> self.colors[u] != 0
    }

    /// Every vertex from `i` on is uncoloured.
    pub open spec fn uncolored_from(self, i: nat) -> bool {
        forall|u: int| i <= u < self.colors.len() ==> self.colors[u] == 0
    }

    /// No neighbour of `v` holds the nonzero colour that `v` holds.
    pub open spec fn consistent_at(self, v: int) -> bool {
        forall|j: int|
            0 <= j < self.adjacency[v].len() ==> {
                let w = #[trigger] self.adjacency[v][j];
                self.colors[w as int] == 0 || self.colors[w as int] != self.colors[v]
            }
    }

    /// The graph without vertices, edges or colours.
    pub open spec fn empty() -> GraphView {
        GraphView {
            adjacency: Seq::empty(),
            declared_edges: 0,
            palette: 0,
            colors: Seq::empty(),
            domains: Seq::empty(),
        }
    }

    /// The graph started over with `verts` vertices: no edge, no vertex
    /// coloured, every domain full.
    pub open spec fn with_vertices(self, verts: nat) -> GraphView {
        GraphView {
            adjacency: Seq::new(verts, |i: int| Seq::<usize>::empty()),
            colors: Seq::new(verts, |i: int| 0usize),
            domains: Seq::new(verts, |i: int| full_domain(self.palette)),
            ..self
        }
    }

    /// The graph with `edges` as the announced number of edges.
    pub open spec fn with_declared_edges(self, edges: nat) -> GraphView {
        GraphView { declared_edges: edges, ..self }
    }

    /// The graph with `k` colours and a clean slate: no vertex coloured, every
    /// domain exactly `1..=k`.
    pub open spec fn with_palette(self, k: nat) -> GraphView {
        GraphView {
            palette: k,
            colors: Seq::new(self.n(), |i: int| 0usize),
            domains: Seq::new(self.n(), |i: int| full_domain(k)),
            ..self
        }
    }

    /// The graph with the edge between `u` and `v` added at both ends.
    pub open spec fn link(self, u: int, v: int) -> GraphView {
        GraphView {
            adjacency: self.adjacency.update(u, self.adjacency[u].push(v as usize)).update(
                v,
                self.adjacency[v].push(u as usize),
            ),
            ..self
        }
    }

    /// The graph with vertex `v` given colour `c`.
    pub open spec fn paint(self, v: int, c: usize) -> GraphView {
        GraphView { colors: self.colors.update(v, c), ..self }
    }

    /// Propagation of colour `c` from vertex `v` would eliminate `c` at `u`: `u`
    /// is an uncoloured neighbour of `v` that still has `c` in its domain.
    pub open spec fn prunable(self, v: int, c: usize, u: int) -> bool {
        &&& 0 <= u < self.n()
        &&& self.adjacency[v].contains(u as usize)
        &&& self.colors[u] == 0
        &&& self.domains[u][c - 1] != 0
    }

    /// The graph after colour `c` of vertex `v` was propagated: every uncoloured
    /// neighbour of `v` has lost `c`.
    pub open spec fn prune(self, v: int, c: usize) -> GraphView {
        GraphView {
            domains: Seq::new(
                self.domains.len(),
                |u: int|
                    if self.prunable(v, c, u) {
                        self.domains[u].update(c - 1, 0)
                    } else {
                        self.domains[u]
                    },
            ),
            ..self
        }
    }

    /// The graph after colour `c` was put back at the vertices of `touched`.
    pub open spec fn restore(self, touched: Seq<usize>, c: usize) -> GraphView {
        GraphView {
            domains: Seq::new(
                self.domains.len(),
                |u: int|
                    if touched.contains(u as usize) {
                        self.domains[u].update(c - 1, c)
                    } else {
                        self.domains[u]
                    },
            ),
            ..self
        }
    }
}

/// Colouring an uncoloured vertex leaves one uncoloured vertex fewer.
pub proof fn lemma_blanks_update(colors: Seq<usize>, v: int, c: usize)
    requires
        0 <= v < colors.len(),
        colors[v] == 0,
        c != 0,
    ensures
        blanks(colors.update(v, c)) + 1 == blanks(colors),
    decreases colors.len(),
{
    let updated = colors.update(v, c);
    if v == colors.len() - 1 {
        assert(updated.drop_last() =~= colors.drop_last());
    } else {
        assert(updated.drop_last() =~= colors.drop_last().update(v, c));
        lemma_blanks_update(colors.drop_last(), v, c);
    }
}

/// The number of slots of the domain of vertex `i`; 0 where there is no such vertex.
pub open spec fn slots(g: GraphView, i: nat) -> nat {
    if i < g.domains.len() {
        g.domains[i as int].len()
    } else {
        0
    }
}

/// Whether the pruning searches may branch on `i`: it is an uncoloured vertex.
pub open spec fn branchable(g: GraphView, i: nat) -> bool {
    i < g.n() && i < g.colors.len() && g.colors[i as int] == 0
}

/// Chronological backtracking from vertex `i` on: what it finds and how many
/// colour assignments it attempts. Past the last vertex the search has
/// succeeded if every vertex is coloured.
pub open spec fn dfs_search(g: GraphView, i: nat) -> Outcome
    decreases g.n() - i, g.palette + 1,
{
    if i >= g.n() {
        Outcome {
            coloring: if g.complete() {
                Some(g.colors)
            } else {
                None
            },
            nodes: 0,
        }
    } else {
        dfs_try(g, i, 1)
    }
}

/// Chronological backtracking at vertex `i`, the colours below `c` already
/// tried in vain: each colour from `c` up is assigned in turn (one node each);
/// if it is consistent the search goes on with vertex `i + 1`.
pub open spec fn dfs_try(g: GraphView, i: nat, c: nat) -> Outcome
    decreases g.n() - i, g.palette + 1 - c,
{
    if i >= g.n() || c < 1 || c > g.palette {
        Outcome { coloring: None, nodes: 0 }
    } else {
        let painted = g.paint(i as int, c as usize);
        let below = if painted.consistent_at(i as int) {
            dfs_search(painted, i + 1)
        } else {
            Outcome { coloring: None, nodes: 0 }
        };
        if below.coloring is Some {
            Outcome { coloring: below.coloring, nodes: 1 + below.nodes }
        } else {
            let rest = dfs_try(g, i, c + 1);
            Outcome { coloring: rest.coloring, nodes: 1 + below.nodes + rest.nodes }
        }
    }
}

/// Backtracking with forward checking from vertex `i` on. With `dynamic` the
/// vertex to branch on next is the most constrained one (chosen right after
/// the assignment, before its colour is propagated); without, it is `i + 1`.
pub open spec fn pruned_search(g: GraphView, i: nat, dynamic: bool) -> Outcome
    decreases blanks(g.colors), slots(g, i) + 1,
{
    if i >= g.n() {
        Outcome {
            coloring: if g.complete() {
                Some(g.colors)
            } else {
                None
            },
            nodes: 0,
        }
    } else {
        pruned_try(g, i, 0, dynamic)
    }
}

/// Forward checking at vertex `i`, the domain slots below `j` already dealt
/// with: each live slot from `j` up gives a candidate colour, which is
/// assigned (one node) and propagated before the search goes on; a failed
/// candidate leaves no trace. At a vertex that is coloured already there is
/// nothing to try.
pub open spec fn pruned_try(g: GraphView, i: nat, j: nat, dynamic: bool) -> Outcome
    decreases blanks(g.colors), slots(g, i) - j,
{
    if !branchable(g, i) || j >= slots(g, i) {
        Outcome { coloring: None, nodes: 0 }
    } else {
        let c = g.domains[i as int][j as int];
        if c == 0 {
            pruned_try(g, i, j + 1, dynamic)
        } else {
            let painted = g.paint(i as int, c);
            let next = if dynamic {
                most_constrained(painted.colors, painted.domains) as nat
            } else {
                i + 1
            };
            let below = {
                proof {
                    lemma_blanks_update(g.colors, i as int, c);
                }
                pruned_search(painted.prune(i as int, c), next, dynamic)
            };
            if below.coloring is Some {
                Outcome { coloring: below.coloring, nodes: 1 + below.nodes }
            } else {
                let rest = pruned_try(g, i, j + 1, dynamic);
                Outcome { coloring: rest.coloring, nodes: 1 + below.nodes + rest.nodes }
            }
        }
    }
}

/// Only one vertex can be the most constrained.
pub proof fn lemma_most_constrained_unique(colors: Seq<usize>, domains: Seq<Seq<usize>>, r: usize)
    requires
        is_most_constrained(colors, domains, r),
    ensures
        most_constrained(colors, domains) == r,
{
    let other = most_constrained(colors, domains);
    assert(is_most_constrained(colors, domains, other));
    if !(forall|u: int| 0 <= u < colors.len() ==> colors[u] != 0) {
        assert(colors[r as int] == 0);
        assert(colors[other as int] == 0);
    }
}

/// Putting a propagated colour back at exactly the vertices that lost it undoes
/// the propagation.
pub proof fn lemma_restore_prune(g: GraphView, v: int, c: usize, touched: Seq<usize>)
    requires
        g.well_formed(),
        0 <= v < g.n(),
        1 <= c <= g.palette,
        forall|t: usize| touched.contains(t) <==> g.prunable(v, c, t as int),
    ensures
        g.prune(v, c).restore(touched, c) == g,
{
    let back = g.prune(v, c).restore(touched, c);
    assert forall|u: int| 0 <= u < g.n() implies back.domains[u] == g.domains[u] by {
        assert(g.domains[u].len() == g.palette);
        if touched.contains(u as usize) {
            assert(g.prunable(v, c, u));
            assert(g.domains[u][c - 1] == 0 || g.domains[u][c - 1] == (c - 1) + 1);
            assert(back.domains[u] =~= g.domains[u]);
        } else {
            assert(!g.prunable(v, c, u));
        }
    }
    assert(back.domains =~= g.domains);
}

} // verus!
