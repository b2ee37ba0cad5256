//! What holds of the searches: each is sound and complete, so all three agree.
//!
//! The proofs follow the recursion of the search models. The invariant of
//! chronological backtracking is that the vertices coloured so far are
//! properly coloured; forward checking adds that the domain of an uncoloured
//! vertex has lost exactly the colours that its neighbours hold.

use vstd::prelude::*;
use crate::graph_coloring::model::{
    blanks, colorable, completable, dfs_search, dfs_try, extends, full_domain,
    is_most_constrained, is_proper, lemma_blanks_update, lex_le, live, most_constrained,
    pruned_search, pruned_try, GraphView, Outcome,
};
use crate::graph_coloring::search::search_outcome;
use crate::graph_coloring::state::Algorithm;

verus! {

/// Some neighbour of `u` holds the colour `c`.
spec fn blocked(g: GraphView, u: int, c: usize) -> bool {
    exists|p: int|
        0 <= p < g.adjacency[u].len() && g.colors[(#[trigger] g.adjacency[u][p]) as int] == c
}

/// No edge joins two coloured vertices of one colour.
spec fn partial_proper(g: GraphView) -> bool {
    forall|u: int, p: int|
        0 <= u < g.n() && 0 <= p < g.adjacency[u].len() ==> {
            let w = #[trigger] g.adjacency[u][p];
            g.colors[u] == 0 || g.colors[w as int] == 0 || g.colors[w as int] != g.colors[u]
        }
}

/// The domain of each uncoloured vertex has lost exactly the colours that its
/// neighbours hold.
spec fn domain_exact(g: GraphView) -> bool {
    forall|u: int, j: int|
        0 <= u < g.n() && g.colors[u] == 0 && 0 <= j < g.palette ==> ((
        #[trigger] g.domains[u][j]) == 0 <==> blocked(g, u, (j + 1) as usize))
}

/// An outcome is right for `g`: a colouring it reports is proper and keeps the
/// colours already fixed; a failure means that no such colouring exists.
spec fn outcome_correct(g: GraphView, out: Outcome) -> bool {
    match out.coloring {
        Some(f) => is_proper(g.adjacency, g.palette, f) && extends(f, g.colors),
        None => !completable(g.adjacency, g.palette, g.colors),
    }
}

/// The invariant of chronological backtracking at vertex `i`.
spec fn dfs_inv(g: GraphView, i: nat) -> bool {
    &&& g.well_formed()
    &&& partial_proper(g)
    &&& i <= g.n()
    &&& forall|u: int| 0 <= u < g.n() ==> (g.colors[u] != 0 <==> u < i)
}

/// The invariant of the pruning searches at vertex `i`.
spec fn pruned_inv(g: GraphView, i: nat, dynamic: bool) -> bool {
    &&& g.well_formed()
    &&& partial_proper(g)
    &&& domain_exact(g)
    &&& i < g.n() ==> g.colors[i as int] == 0
    &&& i >= g.n() ==> g.complete()
    &&& !dynamic ==> forall|u: int| 0 <= u < g.n() ==> (g.colors[u] != 0 <==> u < i)
}

/// A colour that a neighbour of `i` holds cannot be given to `i`.
proof fn lemma_blocked_no_extension(g: GraphView, i: int, c: usize)
    requires
        g.well_formed(),
        0 <= i < g.n(),
        c != 0,
        blocked(g, i, c),
    ensures
        !completable(g.adjacency, g.palette, g.colors.update(i, c)),
{
    let partial = g.colors.update(i, c);
    assert forall|f: Seq<usize>|
        is_proper(g.adjacency, g.palette, f) && extends(f, partial) implies false by {
        let p = choose|p: int|
            0 <= p < g.adjacency[i].len() && g.colors[(#[trigger] g.adjacency[i][p]) as int] == c;
        let w = g.adjacency[i][p];
        assert(w != i);
        assert(partial[w as int] == c);
        assert(f[w as int] == c);
        assert(partial[i] == c);
        assert(f[i] == c);
    }
}

/// Where no colour can be given to the uncoloured vertex `i`, the colouring
/// cannot be completed.
proof fn lemma_no_color_no_extension(g: GraphView, i: int)
    requires
        g.well_formed(),
        0 <= i < g.n(),
        g.colors[i] == 0,
        forall|c: usize|
            1 <= c <= g.palette ==> !completable(
                g.adjacency,
                g.palette,
                #[trigger] g.colors.update(i, c),
            ),
    ensures
        !completable(g.adjacency, g.palette, g.colors),
{
    if completable(g.adjacency, g.palette, g.colors) {
        let f = choose|f: Seq<usize>|
            is_proper(g.adjacency, g.palette, f) && extends(f, g.colors);
        let c = f[i];
        assert(1 <= c <= g.palette);
        let partial = g.colors.update(i, c);
        assert forall|u: int| 0 <= u < partial.len() && partial[u] != 0 implies #[trigger] f[u]
            == partial[u] by {
            if u != i {
                assert(partial[u] == g.colors[u]);
            }
        }
        assert(extends(f, partial));
        assert(completable(g.adjacency, g.palette, partial));
    }
}

/// A complete colouring without a conflict is a proper colouring.
proof fn lemma_complete_is_proper(g: GraphView)
    requires
        g.well_formed(),
        partial_proper(g),
        g.complete(),
    ensures
        is_proper(g.adjacency, g.palette, g.colors),
        extends(g.colors, g.colors),
{
    assert forall|u: int, j: int|
        0 <= u < g.adjacency.len() && 0 <= j < g.adjacency[u].len() implies g.colors[(
    #[trigger] g.adjacency[u][j]) as int] != g.colors[u] by {
        let w = g.adjacency[u][j];
        assert(w < g.n());
    }
}

/// Whether a neighbour of `u` holds `x` once the uncoloured vertex `i` has
/// colour `c`.
proof fn lemma_blocked_after_paint(g: GraphView, i: int, c: usize, u: int, x: usize)
    requires
        g.well_formed(),
        0 <= i < g.n(),
        0 <= u < g.n(),
        g.colors[i] == 0,
        c != 0,
        x != 0,
    ensures
        blocked(g.paint(i, c), u, x) <==> (blocked(g, u, x) || (x == c && g.adjacency[u].contains(
            i as usize,
        ))),
{
    let painted = g.paint(i, c);
    if blocked(painted, u, x) {
        let p = choose|p: int|
            0 <= p < painted.adjacency[u].len() && painted.colors[(
            #[trigger] painted.adjacency[u][p]) as int] == x;
        let w = g.adjacency[u][p];
        if w == i {
            assert(x == c);
            assert(g.adjacency[u][p] == i as usize);
        } else {
            assert(g.colors[w as int] == x);
        }
    }
    if blocked(g, u, x) {
        let p = choose|p: int|
            0 <= p < g.adjacency[u].len() && g.colors[(#[trigger] g.adjacency[u][p]) as int] == x;
        let w = g.adjacency[u][p];
        assert(w != i);
        assert(painted.colors[painted.adjacency[u][p] as int] == x);
    }
    if x == c && g.adjacency[u].contains(i as usize) {
        let p = choose|p: int| 0 <= p < g.adjacency[u].len() && g.adjacency[u][p] == i as usize;
        assert(painted.colors[painted.adjacency[u][p] as int] == x);
    }
}

/// Adjacency is symmetric.
proof fn lemma_symmetric(g: GraphView, u: int, v: int)
    requires
        g.well_formed(),
        0 <= u < g.n(),
        0 <= v < g.n(),
        g.adjacency[u].contains(v as usize),
    ensures
        g.adjacency[v].contains(u as usize),
{
    let p = choose|p: int| 0 <= p < g.adjacency[u].len() && g.adjacency[u][p] == v as usize;
    assert(g.adjacency[(g.adjacency[u][p]) as int].contains(u as usize));
}

/// Colouring a vertex with a colour that none of its neighbours holds keeps
/// the coloured part free of conflicts.
proof fn lemma_paint_keeps_proper(g: GraphView, i: int, c: usize)
    requires
        g.well_formed(),
        partial_proper(g),
        0 <= i < g.n(),
        g.colors[i] == 0,
        1 <= c <= g.palette,
        !blocked(g, i, c),
    ensures
        g.paint(i, c).well_formed(),
        partial_proper(g.paint(i, c)),
{
    let painted = g.paint(i, c);
    assert forall|u: int, p: int|
        0 <= u < painted.n() && 0 <= p < painted.adjacency[u].len() implies ({
        let w = #[trigger] painted.adjacency[u][p];
        painted.colors[u] == 0 || painted.colors[w as int] == 0 || painted.colors[w as int]
            != painted.colors[u]
    }) by {
        let w = g.adjacency[u][p];
        assert(w < g.n() && w != u);
        if u == i {
            assert(g.colors[(g.adjacency[i][p]) as int] != c);
        } else if w == i {
            assert(g.adjacency[u].contains(i as usize));
            lemma_symmetric(g, u, i);
            let q = choose|q: int| 0 <= q < g.adjacency[i].len() && g.adjacency[i][q] == u as usize;
            assert(g.colors[(g.adjacency[i][q]) as int] != c);
        } else {
        }
    }
}

/// Propagation keeps the graph well formed and changes no colour.
proof fn lemma_prune_well_formed(g: GraphView, i: int, c: usize)
    requires
        g.well_formed(),
        0 <= i < g.n(),
        1 <= c <= g.palette,
    ensures
        g.prune(i, c).well_formed(),
{
    let pruned = g.prune(i, c);
    assert forall|u: int| 0 <= u < pruned.n() implies (#[trigger] pruned.domains[u]).len()
        == pruned.palette by {
        assert(g.domains[u].len() == g.palette);
    }
    assert forall|u: int, j: int| 0 <= u < pruned.n() && 0 <= j < pruned.palette implies ({
        ||| (#[trigger] pruned.domains[u][j]) == 0
        ||| pruned.domains[u][j] == j + 1
    }) by {
        assert(g.domains[u].len() == g.palette);
        assert(g.domains[u][j] == 0 || g.domains[u][j] == j + 1);
    }
}

/// After a vertex is coloured and its colour propagated, the domains of the
/// uncoloured vertices have again lost exactly the colours of their
/// neighbours.
proof fn lemma_prune_keeps_exact(g: GraphView, i: int, c: usize)
    requires
        g.well_formed(),
        domain_exact(g),
        0 <= i < g.n(),
        g.colors[i] == 0,
        1 <= c <= g.palette,
    ensures
        domain_exact(g.paint(i, c).prune(i, c)),
{
    let painted = g.paint(i, c);
    let pruned = painted.prune(i, c);
    assert forall|u: int, j: int|
        0 <= u < pruned.n() && pruned.colors[u] == 0 && 0 <= j < pruned.palette implies ((
    #[trigger] pruned.domains[u][j]) == 0 <==> blocked(pruned, u, (j + 1) as usize)) by {
        let x = (j + 1) as usize;
        assert(u != i);
        assert(g.colors[u] == 0);
        assert(g.domains[u].len() == g.palette);
        lemma_blocked_after_paint(g, i, c, u, x);
        assert(blocked(pruned, u, x) == blocked(painted, u, x));
        assert(g.domains[u][j] == 0 <==> blocked(g, u, x));
        if g.adjacency[i].contains(u as usize) {
            lemma_symmetric(g, i, u);
            if j == c - 1 {
                assert(pruned.domains[u][j] == 0);
            } else {
                assert(pruned.domains[u][j] == g.domains[u][j]);
            }
        } else {
            if g.adjacency[u].contains(i as usize) {
                lemma_symmetric(g, u, i);
            }
            assert(pruned.domains[u][j] == g.domains[u][j]);
        }
    }
}

/// A colour given to `i` is consistent exactly where no neighbour holds it.
proof fn lemma_consistent_is_unblocked(g: GraphView, i: int, c: usize)
    requires
        g.well_formed(),
        0 <= i < g.n(),
        c != 0,
    ensures
        g.paint(i, c).consistent_at(i) <==> !blocked(g, i, c),
{
    let painted = g.paint(i, c);
    if !painted.consistent_at(i) {
        let j = choose|j: int|
            0 <= j < painted.adjacency[i].len() && !({
                let w = #[trigger] painted.adjacency[i][j];
                painted.colors[w as int] == 0 || painted.colors[w as int] != painted.colors[i]
            });
        let w = g.adjacency[i][j];
        assert(w != i);
        assert(g.colors[(g.adjacency[i][j]) as int] == c);
    }
    if blocked(g, i, c) {
        let p = choose|p: int|
            0 <= p < g.adjacency[i].len() && g.colors[(#[trigger] g.adjacency[i][p]) as int] == c;
        let w = painted.adjacency[i][p];
        assert(w != i);
        assert(painted.colors[w as int] == c);
    }
}

/// Chronological backtracking from `i` on is right.
proof fn lemma_dfs_search(g: GraphView, i: nat)
    requires
        dfs_inv(g, i),
    ensures
        outcome_correct(g, dfs_search(g, i)),
    decreases g.n() - i, g.palette + 1,
{
    if i >= g.n() {
        assert(g.complete());
        lemma_complete_is_proper(g);
    } else {
        lemma_dfs_try(g, i, 1);
    }
}

/// Chronological backtracking at `i` is right once the colours below `c` have
/// been ruled out.
proof fn lemma_dfs_try(g: GraphView, i: nat, c: nat)
    requires
        dfs_inv(g, i),
        i < g.n(),
        1 <= c <= g.palette + 1,
        forall|x: usize|
            1 <= x < c ==> !completable(
                g.adjacency,
                g.palette,
                #[trigger] g.colors.update(i as int, x),
            ),
    ensures
        outcome_correct(g, dfs_try(g, i, c)),
    decreases g.n() - i, g.palette + 1 - c,
{
    if c > g.palette {
        lemma_no_color_no_extension(g, i as int);
    } else {
        let color = c as usize;
        let painted = g.paint(i as int, color);
        lemma_consistent_is_unblocked(g, i as int, color);
        if painted.consistent_at(i as int) {
            lemma_paint_keeps_proper(g, i as int, color);
            lemma_dfs_search(painted, i + 1);
            let below = dfs_search(painted, i + 1);
            match below.coloring {
                Some(f) => {
                    assert(extends(f, g.colors)) by {
                        assert forall|u: int|
                            0 <= u < g.colors.len() && g.colors[u] != 0 implies #[trigger] f[u]
                            == g.colors[u] by {
                            assert(painted.colors[u] == g.colors[u]);
                        }
                    }
                },
                None => {},
            }
        } else {
            lemma_blocked_no_extension(g, i as int, color);
        }
        if dfs_try(g, i, c).coloring is None || !painted.consistent_at(i as int) || dfs_search(
            painted,
            i + 1,
        ).coloring is None {
            assert forall|x: usize| 1 <= x < c + 1 implies !completable(
                g.adjacency,
                g.palette,
                #[trigger] g.colors.update(i as int, x),
            ) by {
                if x == color {
                } else {
                    assert(x < c);
                }
            }
            lemma_dfs_try(g, i, c + 1);
        }
    }
}

/// The vertex that one ascending scan of the first `upto` vertices keeps.
spec fn scan_best(colors: Seq<usize>, domains: Seq<Seq<usize>>, upto: nat) -> usize
    decreases upto,
{
    if upto == 0 {
        usize::MAX
    } else {
        let best = scan_best(colors, domains, (upto - 1) as nat);
        let u = (upto - 1) as usize;
        if colors[u as int] != 0 {
            best
        } else if best == usize::MAX || live(domains[u as int]) < live(domains[best as int]) {
            u
        } else {
            best
        }
    }
}

/// The scan keeps the most constrained of the vertices it has seen.
proof fn lemma_scan_best(colors: Seq<usize>, domains: Seq<Seq<usize>>, upto: nat)
    requires
        upto <= colors.len() <= usize::MAX,
    ensures
        ({
            let best = scan_best(colors, domains, upto);
            if forall|u: int| 0 <= u < upto ==> colors[u] != 0 {
                best == usize::MAX
            } else {
                &&& best < upto
                &&& colors[best as int] == 0
                &&& forall|u: int|
                    0 <= u < upto && #[trigger] colors[u] == 0 ==> {
                        &&& live(domains[best as int]) <= live(domains[u])
                        &&& u < best ==> live(domains[best as int]) < live(domains[u])
                    }
            }
        }),
    decreases upto,
{
    if upto > 0 {
        lemma_scan_best(colors, domains, (upto - 1) as nat);
        let prev = scan_best(colors, domains, (upto - 1) as nat);
        let last = upto - 1;
        if forall|u: int| 0 <= u < upto - 1 ==> colors[u] != 0 {
            if colors[last] != 0 {
                assert forall|u: int| 0 <= u < upto implies colors[u] != 0 by {}
            } else {
                assert(!(forall|u: int| 0 <= u < upto ==> colors[u] != 0));
            }
        } else {
            let w = choose|u: int| 0 <= u < upto - 1 && colors[u] == 0;
            assert(colors[w] == 0);
            assert(!(forall|u: int| 0 <= u < upto ==> colors[u] != 0));
        }
    }
}

/// Every colouring has a most constrained vertex.
proof fn lemma_most_constrained_exists(colors: Seq<usize>, domains: Seq<Seq<usize>>)
    requires
        colors.len() <= usize::MAX,
    ensures
        is_most_constrained(colors, domains, most_constrained(colors, domains)),
{
    lemma_scan_best(colors, domains, colors.len());
    assert(is_most_constrained(colors, domains, scan_best(colors, domains, colors.len())));
}

/// A pruning search from `i` on is right.
proof fn lemma_pruned_search(g: GraphView, i: nat, dynamic: bool)
    requires
        pruned_inv(g, i, dynamic),
    ensures
        outcome_correct(g, pruned_search(g, i, dynamic)),
    decreases blanks(g.colors), g.palette + 1,
{
    if i >= g.n() {
        lemma_complete_is_proper(g);
    } else {
        assert(g.domains[i as int].len() == g.palette);
        lemma_pruned_try(g, i, 0, dynamic);
    }
}

/// A pruning search at `i` is right once the colours of the slots below `j`
/// have been ruled out.
proof fn lemma_pruned_try(g: GraphView, i: nat, j: nat, dynamic: bool)
    requires
        pruned_inv(g, i, dynamic),
        i < g.n(),
        j <= g.palette,
        forall|x: usize|
            1 <= x <= j ==> !completable(
                g.adjacency,
                g.palette,
                #[trigger] g.colors.update(i as int, x),
            ),
    ensures
        outcome_correct(g, pruned_try(g, i, j, dynamic)),
    decreases blanks(g.colors), g.palette - j,
{
    assert(g.domains[i as int].len() == g.palette);
    if j >= g.palette {
        lemma_no_color_no_extension(g, i as int);
    } else {
        let c = g.domains[i as int][j as int];
        let color = (j + 1) as usize;
        assert(c == 0 <==> blocked(g, i as int, color));
        let mut ruled_out = false;
        if c == 0 {
            lemma_blocked_no_extension(g, i as int, color);
            ruled_out = true;
        } else {
            assert(c == color);
            let painted = g.paint(i as int, c);
            let next = if dynamic {
                most_constrained(painted.colors, painted.domains) as nat
            } else {
                i + 1
            };
            let pruned = painted.prune(i as int, c);
            lemma_paint_keeps_proper(g, i as int, c);
            lemma_prune_well_formed(painted, i as int, c);
            lemma_prune_keeps_exact(g, i as int, c);
            lemma_blanks_update(g.colors, i as int, c);
            assert(partial_proper(pruned)) by {
                assert forall|u: int, p: int|
                    0 <= u < pruned.n() && 0 <= p < pruned.adjacency[u].len() implies ({
                    let w = #[trigger] pruned.adjacency[u][p];
                    pruned.colors[u] == 0 || pruned.colors[w as int] == 0 || pruned.colors[w as int]
                        != pruned.colors[u]
                }) by {
                    let w = painted.adjacency[u][p];
                }
            }
            if dynamic {
                lemma_most_constrained_exists(painted.colors, painted.domains);
                if forall|u: int| 0 <= u < painted.colors.len() ==> painted.colors[u] != 0 {
                    assert(pruned.complete());
                }
            } else {
                if i + 1 >= g.n() {
                    assert(pruned.complete());
                }
            }
            assert(pruned_inv(pruned, next, dynamic));
            lemma_pruned_search(pruned, next, dynamic);
            let below = pruned_search(pruned, next, dynamic);
            match below.coloring {
                Some(f) => {
                    assert(extends(f, g.colors)) by {
                        assert forall|u: int|
                            0 <= u < g.colors.len() && g.colors[u] != 0 implies #[trigger] f[u]
                            == g.colors[u] by {
                            assert(pruned.colors[u] == g.colors[u]);
                        }
                    }
                },
                None => {
                    ruled_out = true;
                },
            }
        }
        if ruled_out {
            assert forall|x: usize| 1 <= x <= j + 1 implies !completable(
                g.adjacency,
                g.palette,
                #[trigger] g.colors.update(i as int, x),
            ) by {
                if x == color {
                } else {
                    assert(x <= j);
                }
            }
            lemma_pruned_try(g, i, j + 1, dynamic);
        }
    }
}

/// A blank graph meets the invariants from which the searches start.
proof fn lemma_blank_start(g: GraphView)
    requires
        g.well_formed(),
        g.blank(),
    ensures
        dfs_inv(g, 0),
        pruned_inv(g, 0, false),
        pruned_inv(g, 0, true),
        forall|f: Seq<usize>| is_proper(g.adjacency, g.palette, f) ==> extends(f, g.colors),
{
    assert forall|u: int, j: int|
        0 <= u < g.n() && g.colors[u] == 0 && 0 <= j < g.palette implies ((
    #[trigger] g.domains[u][j]) == 0 <==> blocked(g, u, (j + 1) as usize)) by {
        assert(g.domains[u] == full_domain(g.palette));
        assert(g.domains[u][j] == j + 1);
        if blocked(g, u, (j + 1) as usize) {
            let p = choose|p: int|
                0 <= p < g.adjacency[u].len() && g.colors[(#[trigger] g.adjacency[u][p]) as int]
                    == (j + 1) as usize;
            let w = g.adjacency[u][p];
            assert(w < g.n());
            assert(g.colors[w as int] == 0);
        }
    }
    assert forall|u: int, p: int| 0 <= u < g.n() && 0 <= p < g.adjacency[u].len() implies ({
        let w = #[trigger] g.adjacency[u][p];
        g.colors[u] == 0 || g.colors[w as int] == 0 || g.colors[w as int] != g.colors[u]
    }) by {
        assert(g.colors[u] == 0);
    }
}

/// On a blank graph a right outcome decides whether the graph can be coloured.
proof fn lemma_outcome_decides(g: GraphView, out: Outcome)
    requires
        g.well_formed(),
        g.blank(),
        outcome_correct(g, out),
    ensures
        out.coloring is Some <==> colorable(g.adjacency, g.palette),
        out.coloring is Some ==> is_proper(g.adjacency, g.palette, out.coloring->0),
{
    lemma_blank_start(g);
    match out.coloring {
        Some(f) => {
            assert(is_proper(g.adjacency, g.palette, f));
        },
        None => {
            if colorable(g.adjacency, g.palette) {
                let f = choose|f: Seq<usize>| is_proper(g.adjacency, g.palette, f);
                assert(extends(f, g.colors));
                assert(completable(g.adjacency, g.palette, g.colors));
            }
        },
    }
}

/// On a blank well-formed graph every strategy reports a colouring exactly
/// where one exists, and reports a proper one.
proof fn lemma_search_decides(g: GraphView, alg: Algorithm)
    requires
        g.well_formed(),
        g.blank(),
    ensures
        search_outcome(g, alg).coloring is Some <==> colorable(g.adjacency, g.palette),
        search_outcome(g, alg).coloring is Some ==> is_proper(
            g.adjacency,
            g.palette,
            search_outcome(g, alg).coloring->0,
        ),
{
    lemma_blank_start(g);
    match alg {
        Algorithm::DepthFirst => {
            lemma_dfs_search(g, 0);
        },
        Algorithm::ForwardCheck => {
            lemma_pruned_search(g, 0, false);
        },
        Algorithm::MostConstrained => {
            lemma_pruned_search(g, 0, true);
        },
    }
    lemma_outcome_decides(g, search_outcome(g, alg));
}

/// **Soundness.** Where a search on a blank well-formed graph reports
/// success, the colouring it returns is proper: every colour lies in `1..=K`
/// and no edge joins two vertices of one colour.
pub proof fn law_soundness(g: GraphView, alg: Algorithm)
    requires
        g.well_formed(),
        g.blank(),
    ensures
        search_outcome(g, alg).coloring matches Some(f) ==> is_proper(g.adjacency, g.palette, f),
{
    lemma_search_decides(g, alg);
}

/// **Completeness.** Where a search on a blank well-formed graph reports
/// failure, the graph has no proper colouring with its `K` colours, whatever
/// the number of vertices.
pub proof fn law_completeness(g: GraphView, alg: Algorithm)
    requires
        g.well_formed(),
        g.blank(),
    ensures
        search_outcome(g, alg).coloring is None ==> !colorable(g.adjacency, g.palette),
{
    lemma_search_decides(g, alg);
}

/// **Strategy agreement.** On one blank well-formed graph any two strategies
/// agree on whether it can be coloured: both succeed or both fail.
pub proof fn law_strategy_agreement(g: GraphView, first: Algorithm, second: Algorithm)
    requires
        g.well_formed(),
        g.blank(),
    ensures
        search_outcome(g, first).coloring is Some <==> search_outcome(g, second).coloring is Some,
{
    lemma_search_decides(g, first);
    lemma_search_decides(g, second);
}

/// **Decision.** A search on a blank well-formed graph succeeds exactly where
/// the graph can be coloured with its `K` colours.
pub proof fn law_search_decides_colorability(g: GraphView, alg: Algorithm)
    requires
        g.well_formed(),
        g.blank(),
    ensures
        search_outcome(g, alg).coloring is Some <==> colorable(g.adjacency, g.palette),
{
    lemma_search_decides(g, alg);
}

/// **Domain reset.** Fixing the number of colours leaves every vertex
/// uncoloured and every domain exactly `1..=k`, whatever colours and domains
/// the graph held before: two graphs with the same vertices and edges come
/// out the same, and fixing the number again changes nothing.
pub proof fn law_palette_reset(g: GraphView, other: GraphView, k: nat)
    requires
        g.adjacency == other.adjacency,
        g.declared_edges == other.declared_edges,
    ensures
        g.with_palette(k).blank(),
        forall|u: int| 0 <= u < g.n() ==> #[trigger] g.with_palette(k).domains[u] == full_domain(k),
        forall|u: int| 0 <= u < g.n() ==> #[trigger] g.with_palette(k).colors[u] == 0,
        g.with_palette(k) == other.with_palette(k),
        g.with_palette(k).with_palette(k) == g.with_palette(k),
{
    assert(g.with_palette(k).with_palette(k).colors =~= g.with_palette(k).colors);
    assert(g.with_palette(k).with_palette(k).domains =~= g.with_palette(k).domains);
}

/// `f` comes first among the proper colourings that keep what `g` has fixed.
spec fn least_extension(g: GraphView, f: Seq<usize>) -> bool {
    forall|h: Seq<usize>|
        is_proper(g.adjacency, g.palette, h) && extends(h, g.colors) ==> #[trigger] lex_le(f, h)
}

/// A colouring that keeps what `g` has fixed keeps it with vertex `i` given
/// the colour that the colouring gives it.
proof fn lemma_extends_painted(g: GraphView, i: int, h: Seq<usize>)
    requires
        0 <= i < g.colors.len(),
        g.colors[i] == 0,
        extends(h, g.colors),
    ensures
        extends(h, g.colors.update(i, h[i])),
{
    let partial = g.colors.update(i, h[i]);
    assert forall|u: int| 0 <= u < partial.len() && partial[u] != 0 implies #[trigger] h[u]
        == partial[u] by {
        if u != i {
            assert(partial[u] == g.colors[u]);
        }
    }
}

/// With the vertices before `i` coloured, the colourings that keep them and
/// give `i` the colour `c` come after every colouring that is first among
/// those that give `i` a lower colour, and first among them is who is first
/// among those that give `i` the colour `c`.
proof fn lemma_least_step(g: GraphView, i: int, c: usize, f: Seq<usize>)
    requires
        g.well_formed(),
        0 <= i < g.n(),
        g.colors[i] == 0,
        forall|u: int| 0 <= u < g.n() ==> (g.colors[u] != 0 <==> u < i),
        1 <= c <= g.palette,
        forall|x: usize|
            1 <= x < c ==> !completable(g.adjacency, g.palette, #[trigger] g.colors.update(i, x)),
        is_proper(g.adjacency, g.palette, f),
        extends(f, g.colors.update(i, c)),
        least_extension(g.paint(i, c), f),
    ensures
        least_extension(g, f),
{
    let painted = g.paint(i, c);
    assert forall|h: Seq<usize>|
        is_proper(g.adjacency, g.palette, h) && extends(h, g.colors) implies #[trigger] lex_le(
        f,
        h,
    ) by {
        let x = h[i];
        assert(1 <= x <= g.palette);
        lemma_extends_painted(g, i, h);
        assert(painted.colors[i] == c);
        assert(f[i] == c);
        if x < c {
            assert(completable(g.adjacency, g.palette, g.colors.update(i, x)));
        } else if x == c {
            assert(extends(h, painted.colors));
        } else {
            assert forall|q: int| 0 <= q < i implies f[q] == h[q] by {
                assert(g.colors[q] != 0);
                assert(painted.colors[q] == g.colors[q]);
                assert(f[q] == painted.colors[q]);
                assert(h[q] == g.colors[q]);
            }
            assert(f[i] < h[i]);
        }
    }
}

/// Chronological backtracking from `i` on finds the first proper colouring.
proof fn lemma_dfs_search_least(g: GraphView, i: nat)
    requires
        dfs_inv(g, i),
    ensures
        dfs_search(g, i).coloring matches Some(f) ==> least_extension(g, f),
    decreases g.n() - i, g.palette + 1,
{
    if i >= g.n() {
        assert forall|h: Seq<usize>|
            is_proper(g.adjacency, g.palette, h) && extends(h, g.colors) implies #[trigger] lex_le(
            g.colors,
            h,
        ) by {
            assert(h =~= g.colors);
        }
    } else {
        lemma_dfs_try_least(g, i, 1);
    }
}

/// Chronological backtracking at `i` finds the first proper colouring once
/// the colours below `c` have been ruled out.
proof fn lemma_dfs_try_least(g: GraphView, i: nat, c: nat)
    requires
        dfs_inv(g, i),
        i < g.n(),
        1 <= c <= g.palette + 1,
        forall|x: usize|
            1 <= x < c ==> !completable(
                g.adjacency,
                g.palette,
                #[trigger] g.colors.update(i as int, x),
            ),
    ensures
        dfs_try(g, i, c).coloring matches Some(f) ==> least_extension(g, f),
    decreases g.n() - i, g.palette + 1 - c,
{
    if c <= g.palette {
        let color = c as usize;
        let painted = g.paint(i as int, color);
        lemma_consistent_is_unblocked(g, i as int, color);
        let mut ruled_out = false;
        if painted.consistent_at(i as int) {
            lemma_paint_keeps_proper(g, i as int, color);
            lemma_dfs_search(painted, i + 1);
            lemma_dfs_search_least(painted, i + 1);
            match dfs_search(painted, i + 1).coloring {
                Some(f) => {
                    lemma_least_step(g, i as int, color, f);
                },
                None => {
                    ruled_out = true;
                },
            }
        } else {
            lemma_blocked_no_extension(g, i as int, color);
            ruled_out = true;
        }
        if ruled_out {
            assert forall|x: usize| 1 <= x < c + 1 implies !completable(
                g.adjacency,
                g.palette,
                #[trigger] g.colors.update(i as int, x),
            ) by {
                if x == color {
                } else {
                    assert(x < c);
                }
            }
            lemma_dfs_try_least(g, i, c + 1);
        }
    }
}

/// Forward checking from `i` on finds the first proper colouring.
proof fn lemma_pruned_search_least(g: GraphView, i: nat)
    requires
        pruned_inv(g, i, false),
    ensures
        pruned_search(g, i, false).coloring matches Some(f) ==> least_extension(g, f),
    decreases blanks(g.colors), g.palette + 1,
{
    if i >= g.n() {
        assert forall|h: Seq<usize>|
            is_proper(g.adjacency, g.palette, h) && extends(h, g.colors) implies #[trigger] lex_le(
            g.colors,
            h,
        ) by {
            assert(h =~= g.colors);
        }
    } else {
        assert(g.domains[i as int].len() == g.palette);
        lemma_pruned_try_least(g, i, 0);
    }
}

/// Forward checking at `i` finds the first proper colouring once the colours
/// of the slots below `j` have been ruled out.
proof fn lemma_pruned_try_least(g: GraphView, i: nat, j: nat)
    requires
        pruned_inv(g, i, false),
        i < g.n(),
        j <= g.palette,
        forall|x: usize|
            1 <= x <= j ==> !completable(
                g.adjacency,
                g.palette,
                #[trigger] g.colors.update(i as int, x),
            ),
    ensures
        pruned_try(g, i, j, false).coloring matches Some(f) ==> least_extension(g, f),
    decreases blanks(g.colors), g.palette - j,
{
    assert(g.domains[i as int].len() == g.palette);
    if j < g.palette {
        let c = g.domains[i as int][j as int];
        let color = (j + 1) as usize;
        assert(c == 0 <==> blocked(g, i as int, color));
        let mut ruled_out = false;
        if c == 0 {
            lemma_blocked_no_extension(g, i as int, color);
            ruled_out = true;
        } else {
            assert(c == color);
            let painted = g.paint(i as int, c);
            let pruned = painted.prune(i as int, c);
            lemma_paint_keeps_proper(g, i as int, c);
            lemma_prune_well_formed(painted, i as int, c);
            lemma_prune_keeps_exact(g, i as int, c);
            lemma_blanks_update(g.colors, i as int, c);
            assert(partial_proper(pruned)) by {
                assert forall|u: int, p: int|
                    0 <= u < pruned.n() && 0 <= p < pruned.adjacency[u].len() implies ({
                    let w = #[trigger] pruned.adjacency[u][p];
                    pruned.colors[u] == 0 || pruned.colors[w as int] == 0 || pruned.colors[w as int]
                        != pruned.colors[u]
                }) by {
                    let w = painted.adjacency[u][p];
                }
            }
            if i + 1 >= g.n() {
                assert(pruned.complete());
            }
            assert(pruned_inv(pruned, i + 1, false));
            lemma_pruned_search(pruned, i + 1, false);
            lemma_pruned_search_least(pruned, i + 1);
            match pruned_search(pruned, i + 1, false).coloring {
                Some(f) => {
                    assert(least_extension(painted, f)) by {
                        assert forall|h: Seq<usize>|
                            is_proper(painted.adjacency, painted.palette, h) && extends(
                                h,
                                painted.colors,
                            ) implies #[trigger] lex_le(f, h) by {
                            assert(extends(h, pruned.colors));
                        }
                    }
                    lemma_least_step(g, i as int, c, f);
                },
                None => {
                    ruled_out = true;
                },
            }
        }
        if ruled_out {
            assert forall|x: usize| 1 <= x <= j + 1 implies !completable(
                g.adjacency,
                g.palette,
                #[trigger] g.colors.update(i as int, x),
            ) by {
                if x == color {
                } else {
                    assert(x <= j);
                }
            }
            lemma_pruned_try_least(g, i, j + 1);
        }
    }
}

/// **First colouring.** Chronological backtracking and forward checking
/// return, where they succeed on a blank well-formed graph, the proper
/// colouring that comes first in the order of the dictionary: where another
/// proper colouring first differs from it, the other holds the higher colour.
pub proof fn law_first_coloring(g: GraphView, alg: Algorithm)
    requires
        g.well_formed(),
        g.blank(),
        alg is DepthFirst || alg is ForwardCheck,
    ensures
        search_outcome(g, alg).coloring matches Some(f) ==> forall|h: Seq<usize>|
            is_proper(g.adjacency, g.palette, h) ==> #[trigger] lex_le(f, h),
{
    lemma_blank_start(g);
    match alg {
        Algorithm::DepthFirst => {
            lemma_dfs_search_least(g, 0);
        },
        _ => {
            lemma_pruned_search_least(g, 0);
        },
    }
    match search_outcome(g, alg).coloring {
        Some(f) => {
            assert forall|h: Seq<usize>| is_proper(g.adjacency, g.palette, h) implies #[trigger] lex_le(
                f,
                h,
            ) by {
                assert(extends(h, g.colors));
            }
        },
        None => {},
    }
}

/// Two colourings that each come first before the other are one.
proof fn lemma_lex_antisymmetric(a: Seq<usize>, b: Seq<usize>)
    requires
        lex_le(a, b),
        lex_le(b, a),
    ensures
        a == b,
{
    if a != b {
        let p = choose|p: int|
            0 <= p < a.len() && p < b.len() && #[trigger] a[p] < b[p] && forall|q: int|
                0 <= q < p ==> a[q] == b[q];
        let r = choose|r: int|
            0 <= r < b.len() && r < a.len() && #[trigger] b[r] < a[r] && forall|q: int|
                0 <= q < r ==> b[q] == a[q];
        if p < r {
            assert(b[p] == a[p]);
        } else if r < p {
            assert(a[r] == b[r]);
        }
    }
}

/// **Same colouring.** On one blank well-formed graph chronological
/// backtracking and forward checking return the same colouring.
pub proof fn law_same_coloring(g: GraphView)
    requires
        g.well_formed(),
        g.blank(),
    ensures
        search_outcome(g, Algorithm::DepthFirst).coloring == search_outcome(
            g,
            Algorithm::ForwardCheck,
        ).coloring,
{
    law_first_coloring(g, Algorithm::DepthFirst);
    law_first_coloring(g, Algorithm::ForwardCheck);
    law_soundness(g, Algorithm::DepthFirst);
    law_soundness(g, Algorithm::ForwardCheck);
    law_strategy_agreement(g, Algorithm::DepthFirst, Algorithm::ForwardCheck);
    match (
        search_outcome(g, Algorithm::DepthFirst).coloring,
        search_outcome(g, Algorithm::ForwardCheck).coloring,
    ) {
        (Some(a), Some(b)) => {
            assert(lex_le(a, b));
            assert(lex_le(b, a));
            lemma_lex_antisymmetric(a, b);
        },
        _ => {},
    }
}

} // verus!
