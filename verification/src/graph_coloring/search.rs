//! The search engine: depth-first branch and bound over the constraint graph,
//! in three strategies. Each search is proved to yield exactly what its model
//! in `model` says, and to leave no trace where it fails.

use vstd::prelude::*;
use crate::graph_coloring::laws::{
    law_first_coloring, law_search_decides_colorability, law_soundness,
};
use crate::graph_coloring::model::{
    blanks, colorable, dfs_search, dfs_try, is_proper, lemma_blanks_update,
    lemma_most_constrained_unique, lemma_restore_prune, lex_le, pruned_search, pruned_try,
    saturating, GraphView, Outcome,
};
use crate::graph_coloring::state::{Algorithm, Graph};

verus! {

/// What the search with strategy `alg` yields on `g`, started at the first
/// vertex: the colouring it finds, if it finds one, and the number of colour
/// assignments it attempts.
pub open spec fn search_outcome(g: GraphView, alg: Algorithm) -> Outcome {
    match alg {
        Algorithm::DepthFirst => dfs_search(g, 0),
        Algorithm::ForwardCheck => pruned_search(g, 0, false),
        Algorithm::MostConstrained => pruned_search(g, 0, true),
    }
}

impl Graph {
    /// Runs the search with strategy `alg` on a blank graph, from the first
    /// vertex. Returns whether the graph can be coloured with its `K` colours.
    /// On success the graph holds a proper colouring, with chronological
    /// backtracking and with forward checking the one that comes first in the
    /// order of the dictionary; on failure it is left as it was, no colour
    /// assigned and no domain pruned. Either way the counter of explored nodes
    /// has grown by the number of colour assignments that the search attempted.
    pub fn colorify(&mut self, alg: Algorithm) -> (solved: bool)
        requires
            old(self).wf(),
            old(self)@.blank(),
        ensures
            final(self).wf(),
            final(self)@.adjacency == old(self)@.adjacency,
            final(self)@.declared_edges == old(self)@.declared_edges,
            final(self)@.palette == old(self)@.palette,
            solved == colorable(old(self)@.adjacency, old(self)@.palette),
            solved == (search_outcome(old(self)@, alg).coloring is Some),
            solved ==> final(self)@.colors == search_outcome(old(self)@, alg).coloring->0,
            solved ==> is_proper(final(self)@.adjacency, final(self)@.palette, final(self)@.colors),
            solved && !(alg is MostConstrained) ==> forall|h: Seq<usize>|
                is_proper(old(self)@.adjacency, old(self)@.palette, h) ==> #[trigger] lex_le(
                    final(self)@.colors,
                    h,
                ),
            !solved ==> final(self)@ == old(self)@,
            final(self).explored_nodes() == saturating(
                old(self).explored_nodes(),
                search_outcome(old(self)@, alg).nodes,
            ),
    {
        proof {
            self.lemma_view_well_formed();
            law_search_decides_colorability(self@, alg);
            law_soundness(self@, alg);
            if !(alg is MostConstrained) {
                law_first_coloring(self@, alg);
            }
        }
        match alg {
            Algorithm::DepthFirst => self.color_dfs(0),
            Algorithm::ForwardCheck => self.color_fc(0),
            Algorithm::MostConstrained => self.color_mcv(0),
        }
    }

    /// Chronological backtracking from vertex `index` on. Tries each colour of
    /// `1..=K` in ascending order; a colour that is consistent with the
    /// coloured neighbours lets the search go on with the next vertex. Where no
    /// colour is left the vertex is uncoloured again and the search fails.
    pub fn color_dfs(&mut self, index: usize) -> (solved: bool)
        requires
            old(self).wf(),
            old(self)@.uncolored_from(index as nat),
        ensures
            final(self).wf(),
            final(self)@.adjacency == old(self)@.adjacency,
            final(self)@.declared_edges == old(self)@.declared_edges,
            final(self)@.palette == old(self)@.palette,
            final(self)@.domains == old(self)@.domains,
            solved == (dfs_search(old(self)@, index as nat).coloring is Some),
            solved ==> final(self)@.colors == dfs_search(old(self)@, index as nat).coloring->0,
            !solved ==> final(self)@ == old(self)@,
            final(self).explored_nodes() == saturating(
                old(self).explored_nodes(),
                dfs_search(old(self)@, index as nat).nodes,
            ),
        decreases old(self)@.n() - index,
    {
        proof {
            self.lemma_view_well_formed();
        }
        if index >= self.vertex_count() {
            return self.is_complete();
        }
        let ghost entry = self@;
        let ghost spent: nat = 0;
        let k = self.color_count();
        let mut tried: usize = 0;
        assert(entry.colors =~= entry.colors.update(index as int, entry.colors[index as int]));
        while tried < k
            invariant
                self.wf(),
                entry == old(self)@,
                entry.well_formed(),
                index < entry.n(),
                k == entry.palette,
                entry.uncolored_from(index as nat),
                tried <= k,
                self@ == entry.paint(index as int, self@.colors[index as int]),
                self.explored_nodes() == saturating(old(self).explored_nodes(), spent),
                dfs_try(entry, index as nat, 1).coloring == dfs_try(
                    entry,
                    index as nat,
                    tried as nat + 1,
                ).coloring,
                dfs_try(entry, index as nat, 1).nodes == spent + dfs_try(
                    entry,
                    index as nat,
                    tried as nat + 1,
                ).nodes,
            decreases k - tried,
        {
            let color = tried + 1;
            let ghost painted = entry.paint(index as int, color);
            self.assign(index, color);
            assert(self@.colors =~= painted.colors);
            assert(self@ == painted);
            if !self.is_consistent(index) {
                proof {
                    spent = spent + 1;
                }
                tried += 1;
                continue ;
            }
            let ghost below = dfs_search(painted, index as nat + 1);
            if self.color_dfs(index + 1) {
                return true;
            }
            proof {
                spent = spent + 1 + below.nodes;
            }
            tried += 1;
        }
        self.unassign(index);
        assert(self@.colors =~= entry.colors);
        false
    }

    /// Backtracking with forward checking from vertex `index` on. The candidate
    /// colours are the live entries of the vertex's domain, in slot order. Each is
    /// assigned and propagated to the uncoloured neighbours before the search
    /// goes on with the next vertex; where that fails, exactly the eliminated
    /// slots are restored. Where no candidate is left the vertex is uncoloured
    /// again and the search fails.
    pub fn color_fc(&mut self, index: usize) -> (solved: bool)
        requires
            old(self).wf(),
            old(self)@.uncolored_from(index as nat),
        ensures
            final(self).wf(),
            final(self)@.adjacency == old(self)@.adjacency,
            final(self)@.declared_edges == old(self)@.declared_edges,
            final(self)@.palette == old(self)@.palette,
            solved == (pruned_search(old(self)@, index as nat, false).coloring is Some),
            solved ==> final(self)@.colors == pruned_search(
                old(self)@,
                index as nat,
                false,
            ).coloring->0,
            !solved ==> final(self)@ == old(self)@,
            final(self).explored_nodes() == saturating(
                old(self).explored_nodes(),
                pruned_search(old(self)@, index as nat, false).nodes,
            ),
        decreases old(self)@.n() - index,
    {
        proof {
            self.lemma_view_well_formed();
        }
        if index >= self.vertex_count() {
            return self.is_complete();
        }
        let ghost entry = self@;
        let ghost spent: nat = 0;
        let k = self.color_count();
        let mut slot: usize = 0;
        assert(entry.colors =~= entry.colors.update(index as int, entry.colors[index as int]));
        assert(entry.domains[index as int].len() == k);
        while slot < k
            invariant
                self.wf(),
                entry == old(self)@,
                entry.well_formed(),
                index < entry.n(),
                k == entry.palette,
                entry.uncolored_from(index as nat),
                slot <= k,
                self@ == entry.paint(index as int, self@.colors[index as int]),
                self.explored_nodes() == saturating(old(self).explored_nodes(), spent),
                pruned_try(entry, index as nat, 0, false).coloring == pruned_try(
                    entry,
                    index as nat,
                    slot as nat,
                    false,
                ).coloring,
                pruned_try(entry, index as nat, 0, false).nodes == spent + pruned_try(
                    entry,
                    index as nat,
                    slot as nat,
                    false,
                ).nodes,
            decreases k - slot,
        {
            assert(entry.domains[index as int].len() == k);
            let color = self.option_at(index, slot);
            if color == 0 {
                slot += 1;
                continue ;
            }
            assert(color == entry.domains[index as int][slot as int]);
            assert(color == slot + 1);
            let ghost painted = entry.paint(index as int, color);
            self.assign(index, color);
            assert(self@.colors =~= painted.colors);
            assert(self@ == painted);
            let touched = self.alert_neighbors(index, color);
            let ghost below = pruned_search(painted.prune(index as int, color), index as nat + 1, false);
            if self.color_fc(index + 1) {
                return true;
            }
            self.unalert_neighbors(color, &touched);
            proof {
                lemma_restore_prune(painted, index as int, color, touched@);
                spent = spent + 1 + below.nodes;
            }
            slot += 1;
        }
        self.unassign(index);
        assert(self@.colors =~= entry.colors);
        false
    }

    /// Most-constrained-variable search from vertex `index` on: forward checking
    /// in which the vertex to branch on next is chosen anew after each
    /// assignment, as the uncoloured vertex with the fewest live domain entries
    /// (the lowest index among equals).
    pub fn color_mcv(&mut self, index: usize) -> (solved: bool)
        requires
            old(self).wf(),
            index >= old(self)@.n() || old(self)@.colors[index as int] == 0,
        ensures
            final(self).wf(),
            final(self)@.adjacency == old(self)@.adjacency,
            final(self)@.declared_edges == old(self)@.declared_edges,
            final(self)@.palette == old(self)@.palette,
            solved == (pruned_search(old(self)@, index as nat, true).coloring is Some),
            solved ==> final(self)@.colors == pruned_search(
                old(self)@,
                index as nat,
                true,
            ).coloring->0,
            !solved ==> final(self)@ == old(self)@,
            final(self).explored_nodes() == saturating(
                old(self).explored_nodes(),
                pruned_search(old(self)@, index as nat, true).nodes,
            ),
        decreases blanks(old(self)@.colors),
    {
        proof {
            self.lemma_view_well_formed();
        }
        if index >= self.vertex_count() {
            return self.is_complete();
        }
        let ghost entry = self@;
        let ghost spent: nat = 0;
        let k = self.color_count();
        let mut slot: usize = 0;
        assert(entry.colors =~= entry.colors.update(index as int, entry.colors[index as int]));
        assert(entry.domains[index as int].len() == k);
        while slot < k
            invariant
                self.wf(),
                entry == old(self)@,
                entry.well_formed(),
                index < entry.n(),
                k == entry.palette,
                entry.colors[index as int] == 0,
                slot <= k,
                self@ == entry.paint(index as int, self@.colors[index as int]),
                self.explored_nodes() == saturating(old(self).explored_nodes(), spent),
                pruned_try(entry, index as nat, 0, true).coloring == pruned_try(
                    entry,
                    index as nat,
                    slot as nat,
                    true,
                ).coloring,
                pruned_try(entry, index as nat, 0, true).nodes == spent + pruned_try(
                    entry,
                    index as nat,
                    slot as nat,
                    true,
                ).nodes,
            decreases k - slot,
        {
            assert(entry.domains[index as int].len() == k);
            let color = self.option_at(index, slot);
            if color == 0 {
                slot += 1;
                continue ;
            }
            assert(color == entry.domains[index as int][slot as int]);
            assert(color == slot + 1);
            let ghost painted = entry.paint(index as int, color);
            self.assign(index, color);
            assert(self@.colors =~= painted.colors);
            assert(self@ == painted);
            let next_i = self.most_constrained();
            let touched = self.alert_neighbors(index, color);
            let ghost below = pruned_search(painted.prune(index as int, color), next_i as nat, true);
            proof {
                lemma_most_constrained_unique(painted.colors, painted.domains, next_i);
                lemma_blanks_update(entry.colors, index as int, color);
            }
            if self.color_mcv(next_i) {
                return true;
            }
            self.unalert_neighbors(color, &touched);
            proof {
                lemma_restore_prune(painted, index as int, color, touched@);
                spent = spent + 1 + below.nodes;
            }
            slot += 1;
        }
        self.unassign(index);
        assert(self@.colors =~= entry.colors);
        false
    }
}

} // verus!
