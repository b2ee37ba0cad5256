//! Planning in the vacuum world: depth-first search, with and without
//! iterative deepening, and best-first search by cost.

use vstd::prelude::*;
use crate::text::{number, parse_usize, same_text, texts};
use crate::vacuum_world::world::{
    law_undo_restores, lemma_same_place, lemma_undo_well_formed, robot_upto, rows_upto,
    stars_upto, up, Action, World, WorldView,
};

verus! {

/// The searches that can be asked for.
#[derive(Debug, PartialEq, Eq, Structural, Copy, Clone)]
pub enum Algorithms {
    UniformCost,
    DepthFirst,
    DepthFirstDeepening,
    AStar,
}

/// The search that a name on the command line stands for.
pub open spec fn algorithm_of(name: Seq<char>) -> Option<Algorithms> {
    if name == "uniform-cost"@ {
        Some(Algorithms::UniformCost)
    } else if name == "depth-first"@ {
        Some(Algorithms::DepthFirst)
    } else if name == "depth-first-id"@ {
        Some(Algorithms::DepthFirstDeepening)
    } else if name == "a-star"@ {
        Some(Algorithms::AStar)
    } else {
        None
    }
}

/// Reads the name of a search; `None` for a name that is none.
pub fn algorithm_named(name: &str) -> (algorithm: Option<Algorithms>)
    ensures
        algorithm == algorithm_of(name@),
{
    if same_text(name, "uniform-cost") {
        Some(Algorithms::UniformCost)
    } else if same_text(name, "depth-first") {
        Some(Algorithms::DepthFirst)
    } else if same_text(name, "depth-first-id") {
        Some(Algorithms::DepthFirstDeepening)
    } else if same_text(name, "a-star") {
        Some(Algorithms::AStar)
    } else {
        None
    }
}

/// The heuristic that a name on the command line stands for: `h0`, `h1`, `h2`.
pub open spec fn heuristic_of(name: Seq<char>) -> Option<usize> {
    if name == "h0"@ {
        Some(0usize)
    } else if name == "h1"@ {
        Some(1usize)
    } else if name == "h2"@ {
        Some(2usize)
    } else {
        None
    }
}

/// Reads the name of a heuristic; `None` for a name that is none.
pub fn heuristic_named(name: &str) -> (heuristic: Option<usize>)
    ensures
        heuristic == heuristic_of(name@),
{
    if same_text(name, "h0") {
        Some(0)
    } else if same_text(name, "h1") {
        Some(1)
    } else if same_text(name, "h2") {
        Some(2)
    } else {
        None
    }
}

/// What a search has done so far. Both counters wrap around.
#[derive(Debug, PartialEq, Eq, Structural, Copy, Clone)]
pub struct Stats {
    /// The number of worlds that were reached by an action.
    pub nodes_generated: u32,
    /// The number of worlds whose actions were listed.
    pub nodes_expanded: u32,
}

/// The world after the actions of `plan` were performed one after the other,
/// as `do_action` performs them.
pub open spec fn run(w: WorldView, plan: Seq<Action>) -> WorldView
    decreases plan.len(),
{
    if plan.len() == 0 {
        w
    } else {
        run(w, plan.drop_last()).after_do(plan.last())
    }
}

/// Every action of `plan` can be performed when its turn comes.
pub open spec fn performable(w: WorldView, plan: Seq<Action>) -> bool
    decreases plan.len(),
{
    if plan.len() == 0 {
        true
    } else {
        performable(w, plan.drop_last()) && run(w, plan.drop_last()).can(plan.last())
    }
}

/// The world after the last `k` actions of `solution` were undone, the last
/// one first, as `undo_action` undoes them.
pub open spec fn rewound(w: WorldView, solution: Seq<Action>, k: nat) -> WorldView
    decreases k,
{
    if k == 0 {
        w
    } else {
        rewound(w, solution, (k - 1) as nat).after_undo(solution[solution.len() - k])
    }
}

/// Undoing the actions that led here reaches a world that is alike to this
/// one: the vacuum has been here before with as much dirt left.
pub open spec fn cycles(w: WorldView, solution: Seq<Action>) -> bool {
    exists|k: nat| 1 <= k <= solution.len() && w.alike(#[trigger] rewound(w, solution, k))
}

/// A plan that starts from the same tiles, vacuum and dirt ends at the same.
pub proof fn lemma_run_same_place(w1: WorldView, w2: WorldView, plan: Seq<Action>)
    requires
        w1.same_place(w2),
    ensures
        run(w1, plan).same_place(run(w2, plan)),
        performable(w1, plan) == performable(w2, plan),
    decreases plan.len(),
{
    if plan.len() > 0 {
        lemma_run_same_place(w1, w2, plan.drop_last());
        lemma_same_place(run(w1, plan.drop_last()), run(w2, plan.drop_last()), plan.last());
    }
}

/// A plan that begins with `a` is the rest of the plan run after `a`.
pub proof fn lemma_run_first(w: WorldView, a: Action, rest: Seq<Action>)
    ensures
        run(w, seq![a] + rest) == run(w.after_do(a), rest),
        performable(w, seq![a] + rest) == (w.can(a) && performable(w.after_do(a), rest)),
    decreases rest.len(),
{
    let plan = seq![a] + rest;
    if rest.len() == 0 {
        assert(plan.drop_last() =~= Seq::<Action>::empty());
        assert(plan.last() == a);
        assert(run(w, plan.drop_last()) == w);
        assert(performable(w, plan.drop_last()));
        assert(run(w, plan) == w.after_do(a));
    } else {
        assert(plan.drop_last() =~= seq![a] + rest.drop_last());
        assert(plan.last() == rest.last());
        lemma_run_first(w, a, rest.drop_last());
        assert(run(w, plan) == run(w, plan.drop_last()).after_do(plan.last()));
        assert(run(w.after_do(a), rest) == run(w.after_do(a), rest.drop_last()).after_do(
            rest.last(),
        ));
    }
}

/// Whether the vacuum has been where it is now, with as much dirt left, on
/// the way that `solution` describes.
pub fn cycle_check(world: &World, solution: &Vec<Action>) -> (found: bool)
    requires
        world@.well_formed(),
    ensures
        found == cycles(world@, solution@),
{
    let mut past = world.clone();
    let mut k: usize = 0;
    while k < solution.len()
        invariant
            k <= solution.len(),
            past@ == rewound(world@, solution@, k as nat),
            past@.well_formed(),
            forall|j: nat| 1 <= j <= k ==> !world@.alike(#[trigger] rewound(world@, solution@, j)),
        decreases solution.len() - k,
    {
        let action = solution[solution.len() - 1 - k];
        past.undo_action(action);
        k += 1;
        if *world == past {
            return true;
        }
    }
    false
}

/// What a depth-first search leaves.
pub struct Descent {
    /// Whether a plan was found.
    pub found: bool,
    /// The world as the search leaves it.
    pub world: WorldView,
    /// The actions on record.
    pub solution: Seq<Action>,
    /// The counters.
    pub stats: Stats,
}

/// The list without its last entry; the empty list stays empty.
pub open spec fn without_last(s: Seq<Action>) -> Seq<Action> {
    if s.len() > 0 {
        s.drop_last()
    } else {
        s
    }
}

/// Depth-first search from world `w`, to which the actions of `solution` have
/// led, at most `lim` worlds deep. It fails at depth 0; it succeeds in a clean
/// world; it fails in a world in which the vacuum has been before on the
/// way. Else the world counts as expanded and its actions are tried in order.
pub open spec fn descent(w: WorldView, solution: Seq<Action>, lim: nat, stats: Stats) -> Descent
    decreases lim, 1nat, 0nat,
{
    if lim == 0 {
        Descent { found: false, world: w, solution, stats }
    } else if w.solved() {
        Descent { found: true, world: w, solution, stats }
    } else if cycles(w, solution) {
        Descent { found: false, world: w, solution, stats }
    } else {
        descent_from(
            w.expanded(),
            solution,
            lim,
            Stats { nodes_expanded: up(stats.nodes_expanded), ..stats },
            w.options(),
            0,
        )
    }
}

/// The search through the actions from place `i` of `actions` on: each counts
/// as a world generated, is put on record and performed, and the search goes
/// one deeper; where that fails the action is undone and struck from the
/// record.
pub open spec fn descent_from(
    w: WorldView,
    solution: Seq<Action>,
    lim: nat,
    stats: Stats,
    actions: Seq<Action>,
    i: nat,
) -> Descent
    decreases lim, 0nat, actions.len() - i,
{
    if lim == 0 || i >= actions.len() {
        Descent { found: false, world: w, solution, stats }
    } else {
        let a = actions[i as int];
        let below = descent(
            w.after_do(a),
            solution.push(a),
            (lim - 1) as nat,
            Stats { nodes_generated: up(stats.nodes_generated), ..stats },
        );
        if below.found {
            below
        } else {
            descent_from(
                below.world.after_undo(a),
                without_last(below.solution),
                lim,
                below.stats,
                actions,
                i + 1,
            )
        }
    }
}

/// Depth-first search for a plan that cleans the world, at most `lim` worlds
/// deep. A world in which the vacuum has been before on the way is not
/// entered again. On success `solution` has grown by a plan that can be
/// performed from the world as it was and ends in a clean world, and `world`
/// is that clean world. On failure tiles, vacuum and dirt are as they were,
/// and so is `solution`.
pub fn recurse_dfs(
    world: &mut World,
    solution: &mut Vec<Action>,
    lim: u32,
    stats: &mut Stats,
) -> (found: bool)
    requires
        old(world)@.well_formed(),
    ensures
        final(world)@.well_formed(),
        found == descent(old(world)@, old(solution)@, lim as nat, *old(stats)).found,
        final(world)@ == descent(old(world)@, old(solution)@, lim as nat, *old(stats)).world,
        final(solution)@ == descent(old(world)@, old(solution)@, lim as nat, *old(stats)).solution,
        *final(stats) == descent(old(world)@, old(solution)@, lim as nat, *old(stats)).stats,
        found ==> exists|plan: Seq<Action>|
            {
                &&& final(solution)@ == old(solution)@ + plan
                &&& plan.len() < lim
                &&& #[trigger] performable(old(world)@, plan)
                &&& final(world)@.same_place(run(old(world)@, plan))
                &&& final(world)@.solved()
            },
        !found ==> final(world)@.same_place(old(world)@) && final(solution)@ == old(solution)@,
        lim == 0 ==> !found,
        lim > 0 && old(world)@.solved() ==> found && final(solution)@ == old(solution)@,
    decreases lim, 1nat,
{
    if lim == 0 {
        return false;
    }
    if world.is_solved() {
        proof {
            let plan = Seq::<Action>::empty();
            assert(solution@ =~= old(solution)@ + plan);
            assert(performable(old(world)@, plan));
        }
        return true;
    }
    if cycle_check(world, solution) {
        return false;
    }
    stats.nodes_expanded = if stats.nodes_expanded == u32::MAX {
        0
    } else {
        stats.nodes_expanded + 1
    };
    let actions = world.expand();
    let ghost base = world@;
    let ghost counted = *stats;
    let mut i: usize = 0;
    while i < actions.len()
        invariant
            i <= actions.len(),
            lim > 0,
            !old(world)@.solved(),
            actions@ == old(world)@.options(),
            world@.well_formed(),
            world@.same_place(old(world)@),
            solution@ == old(solution)@,
            descent(old(world)@, old(solution)@, lim as nat, *old(stats)) == descent_from(
                base,
                old(solution)@,
                lim as nat,
                counted,
                actions@,
                0,
            ),
            descent_from(base, old(solution)@, lim as nat, counted, actions@, 0) == descent_from(
                world@,
                solution@,
                lim as nat,
                *stats,
                actions@,
                i as nat,
            ),
        decreases actions.len() - i,
    {
        let action = actions[i];
        proof {
            assert(old(world)@.can(action));
            lemma_same_place(world@, old(world)@, action);
        }
        let ghost here = world@;
        if branch(world, solution, lim, stats, action) {
            proof {
                let rest = choose|plan: Seq<Action>|
                    {
                        &&& solution@ == old(solution)@ + plan
                        &&& plan.len() < lim
                        &&& #[trigger] performable(here, plan)
                        &&& world@.same_place(run(here, plan))
                        &&& world@.solved()
                    };
                lemma_run_same_place(here, old(world)@, rest);
                assert(performable(old(world)@, rest));
            }
            return true;
        }
        i += 1;
    }
    false
}

/// One branch of the depth-first search: the action counts as a world
/// generated, is put on record and performed, and the search goes one deeper;
/// where that fails the action is undone and struck from the record.
fn branch(
    world: &mut World,
    solution: &mut Vec<Action>,
    lim: u32,
    stats: &mut Stats,
    action: Action,
) -> (found: bool)
    requires
        lim > 0,
        old(world)@.well_formed(),
        old(world)@.can(action),
    ensures
        final(world)@.well_formed(),
        found == descent(
            old(world)@.after_do(action),
            old(solution)@.push(action),
            (lim - 1) as nat,
            Stats { nodes_generated: up(old(stats).nodes_generated), ..*old(stats) },
        ).found,
        found ==> ({
            let below = descent(
                old(world)@.after_do(action),
                old(solution)@.push(action),
                (lim - 1) as nat,
                Stats { nodes_generated: up(old(stats).nodes_generated), ..*old(stats) },
            );
            &&& final(world)@ == below.world
            &&& final(solution)@ == below.solution
            &&& *final(stats) == below.stats
        }),
        !found ==> ({
            let below = descent(
                old(world)@.after_do(action),
                old(solution)@.push(action),
                (lim - 1) as nat,
                Stats { nodes_generated: up(old(stats).nodes_generated), ..*old(stats) },
            );
            &&& final(world)@ == below.world.after_undo(action)
            &&& final(solution)@ == without_last(below.solution)
            &&& *final(stats) == below.stats
        }),
        found ==> exists|plan: Seq<Action>|
            {
                &&& final(solution)@ == old(solution)@ + plan
                &&& plan.len() < lim
                &&& #[trigger] performable(old(world)@, plan)
                &&& final(world)@.same_place(run(old(world)@, plan))
                &&& final(world)@.solved()
            },
        !found ==> final(world)@.same_place(old(world)@) && final(solution)@ == old(solution)@,
    decreases lim, 0nat,
{
    stats.nodes_generated = if stats.nodes_generated == u32::MAX {
        0
    } else {
        stats.nodes_generated + 1
    };
    solution.push(action);
    let ghost here = world@;
    world.do_action(action);
    let ghost entered = world@;
    let ghost pushed = solution@;
    if recurse_dfs(world, solution, lim - 1, stats) {
        proof {
            let rest = choose|plan: Seq<Action>|
                {
                    &&& solution@ == pushed + plan
                    &&& plan.len() < lim - 1
                    &&& #[trigger] performable(entered, plan)
                    &&& world@.same_place(run(entered, plan))
                    &&& world@.solved()
                };
            let plan = seq![action] + rest;
            assert(solution@ =~= old(solution)@ + plan);
            lemma_run_first(here, action, rest);
        }
        return true;
    }
    proof {
        law_undo_restores(here, action);
        lemma_same_place(world@, entered, action);
        lemma_undo_well_formed(world@, action);
    }
    world.undo_action(action);
    solution.pop();
    assert(solution@ =~= old(solution)@);
    false
}

/// Depth-first search without a bound that matters: the plan it finds, if it
/// finds one.
pub fn depth_first(world: World, stats: &mut Stats) -> (solution: Option<Vec<Action>>)
    requires
        world@.well_formed(),
    ensures
        match solution {
            Some(plan) => {
                &&& descent(world@, Seq::empty(), u32::MAX as nat, *old(stats)).found
                &&& plan@ == descent(world@, Seq::empty(), u32::MAX as nat, *old(stats)).solution
                &&& performable(world@, plan@)
                &&& run(world@, plan@).solved()
            },
            None => !descent(world@, Seq::empty(), u32::MAX as nat, *old(stats)).found,
        },
        *final(stats) == descent(world@, Seq::empty(), u32::MAX as nat, *old(stats)).stats,
        world@.solved() ==> solution is Some,
{
    let mut current = world;
    let mut solution: Vec<Action> = Vec::new();
    match recurse_dfs(&mut current, &mut solution, u32::MAX, stats) {
        true => {
            proof {
                let plan = choose|plan: Seq<Action>|
                    {
                        &&& solution@ == Seq::<Action>::empty() + plan
                        &&& #[trigger] performable(world@, plan)
                        &&& current@.same_place(run(world@, plan))
                        &&& current@.solved()
                    };
                assert(solution@ =~= plan);
            }
            Some(solution)
        },
        false => None,
    }
}

/// What iterative deepening from bound `block` on yields: the plan of the
/// first bound under which depth-first search succeeds, and the counters. The
/// search under the next bound starts from the world as the search before
/// left it.
pub open spec fn deepening(w: WorldView, block: nat, stats: Stats) -> (Option<Seq<Action>>, Stats)
    decreases u32::MAX - block,
{
    let d = descent(w, Seq::empty(), block, stats);
    if d.found {
        (Some(d.solution), d.stats)
    } else if block >= u32::MAX {
        (None, d.stats)
    } else {
        deepening(d.world, block + 1, d.stats)
    }
}

/// Depth-first search with iterative deepening: the bound grows from 1 until a
/// plan is found. Gives up once the bound can grow no more.
pub fn depth_first_deepening(world: World, stats: &mut Stats) -> (solution: Option<Vec<Action>>)
    requires
        world@.well_formed(),
    ensures
        match solution {
            Some(plan) => {
                &&& deepening(world@, 1, *old(stats)).0 == Some(plan@)
                &&& performable(world@, plan@)
                &&& run(world@, plan@).solved()
            },
            None => deepening(world@, 1, *old(stats)).0 is None,
        },
        *final(stats) == deepening(world@, 1, *old(stats)).1,
        world@.solved() ==> solution is Some,
{
    let mut current = world;
    let mut solution: Vec<Action> = Vec::new();
    let mut block: u32 = 1;
    loop
        invariant
            block >= 1,
            current@.well_formed(),
            current@.same_place(world@),
            solution@ == Seq::<Action>::empty(),
            deepening(world@, 1, *old(stats)) == deepening(current@, block as nat, *stats),
        decreases u32::MAX - block,
    {
        let ghost here = current@;
        if recurse_dfs(&mut current, &mut solution, block, stats) {
            proof {
                let plan = choose|plan: Seq<Action>|
                    {
                        &&& solution@ == Seq::<Action>::empty() + plan
                        &&& #[trigger] performable(here, plan)
                        &&& current@.same_place(run(here, plan))
                        &&& current@.solved()
                    };
                assert(solution@ =~= plan);
                lemma_run_same_place(here, world@, plan);
            }
            return Some(solution);
        }
        if block == u32::MAX {
            return None;
        }
        solution.clear();
        block += 1;
    }
}

/// A world with the tiles, vacuum and dirt of `w` can be reached from `start`
/// by a plan.
pub open spec fn reachable(start: WorldView, w: WorldView) -> bool {
    exists|plan: Seq<Action>| #[trigger] performable(start, plan) && w.same_place(run(start, plan))
}

/// The abstract values of a list of worlds.
pub open spec fn world_views(worlds: Seq<World>) -> Seq<WorldView> {
    Seq::new(worlds.len(), |i: int| worlds[i]@)
}

/// The worlds of a list are all well formed and can all be reached from
/// `start`.
pub open spec fn all_reachable(start: WorldView, worlds: Seq<WorldView>) -> bool {
    forall|i: int|
        0 <= i < worlds.len() ==> (#[trigger] worlds[i]).well_formed() && reachable(
            start,
            worlds[i],
        )
}

/// Whether the world is in the closed list: some world there has the same
/// tiles and is alike to it.
pub open spec fn is_closed(closed: Seq<WorldView>, w: WorldView) -> bool {
    exists|i: int| 0 <= i < closed.len() && (#[trigger] closed[i]).tiles == w.tiles && closed[i].alike(w)
}

/// World `at` is the cheapest of the list, and the first of the cheapest.
pub open spec fn is_cheapest(open: Seq<WorldView>, at: int) -> bool {
    &&& 0 <= at < open.len()
    &&& forall|j: int|
        0 <= j < open.len() ==> open[at].cost + open[at].estimate <= (#[trigger] open[j]).cost
            + open[j].estimate
    &&& forall|j: int|
        0 <= j < at ==> open[at].cost + open[at].estimate < (#[trigger] open[j]).cost
            + open[j].estimate
}

/// The place of the cheapest world of the list.
pub open spec fn cheapest(open: Seq<WorldView>) -> int {
    choose|at: int| is_cheapest(open, at)
}

/// Only one world is the first of the cheapest.
pub proof fn lemma_cheapest(open: Seq<WorldView>, at: int)
    requires
        is_cheapest(open, at),
    ensures
        cheapest(open) == at,
{
    let other = cheapest(open);
    assert(is_cheapest(open, other));
    if other < at {
        assert(open[at].cost + open[at].estimate < open[other].cost + open[other].estimate);
    }
    if at < other {
        assert(open[other].cost + open[other].estimate < open[at].cost + open[at].estimate);
    }
}

/// The worlds that the actions lead to from `w`.
pub open spec fn children(w: WorldView, actions: Seq<Action>) -> Seq<WorldView> {
    Seq::new(actions.len(), |i: int| w.after_do(actions[i]))
}

/// What a best-first search leaves.
pub struct Frontier {
    /// The clean world that was reached, if one was.
    pub found: Option<WorldView>,
    /// The worlds that are still open.
    pub open: Seq<WorldView>,
    /// The worlds that are closed.
    pub closed: Seq<WorldView>,
}

/// Best-first search by cost, `steps` worlds already taken: the cheapest open
/// world is taken; one that is closed already is dropped; a clean one is the
/// answer; any other has its actions listed, is closed, and the worlds that
/// its actions lead to are opened. The search ends without an answer when no
/// world is open, or when as many worlds were taken as a machine word counts.
pub open spec fn best_first(open: Seq<WorldView>, closed: Seq<WorldView>, steps: nat) -> Frontier
    decreases usize::MAX - steps,
{
    if open.len() == 0 || steps >= usize::MAX {
        Frontier { found: None, open, closed }
    } else {
        let at = cheapest(open);
        let w = open[at];
        let rest = open.remove(at);
        if is_closed(closed, w) {
            best_first(rest, closed, steps + 1)
        } else if w.solved() {
            Frontier { found: Some(w), open: rest, closed }
        } else {
            best_first(
                rest + children(w.expanded(), w.options()),
                closed.push(w.expanded()),
                steps + 1,
            )
        }
    }
}

/// Whether `world` is in the closed list.
pub fn closed_contains(closed: &Vec<World>, world: &World) -> (found: bool)
    ensures
        found == is_closed(world_views(closed@), world@),
{
    let ghost views = world_views(closed@);
    let mut i: usize = 0;
    while i < closed.len()
        invariant
            i <= closed.len(),
            views == world_views(closed@),
            forall|j: int|
                0 <= j < i ==> !((#[trigger] views[j]).tiles == world@.tiles && views[j].alike(
                    world@,
                )),
        decreases closed.len() - i,
    {
        assert(views[i as int] == closed[i as int]@);
        if closed[i].same_tiles(world) && closed[i] == *world {
            return true;
        }
        i += 1;
    }
    false
}

/// Takes the world with the least total cost out of the open list, the first
/// of them where several cost the same.
pub fn take_cheapest(open: &mut Vec<World>) -> (world: World)
    requires
        old(open).len() > 0,
    ensures
        is_cheapest(world_views(old(open)@), cheapest(world_views(old(open)@))),
        world == old(open)[cheapest(world_views(old(open)@))],
        final(open)@ == old(open)@.remove(cheapest(world_views(old(open)@))),
        world_views(final(open)@) == world_views(old(open)@).remove(
            cheapest(world_views(old(open)@)),
        ),
{
    let ghost views = world_views(open@);
    let mut best: usize = 0;
    let mut best_cost = open[0].total_cost();
    let mut i: usize = 1;
    assert(views[0] == open[0]@);
    while i < open.len()
        invariant
            1 <= i <= open.len(),
            best < i,
            views == world_views(open@),
            best_cost == views[best as int].cost + views[best as int].estimate,
            forall|j: int|
                0 <= j < i ==> best_cost <= (#[trigger] views[j]).cost + views[j].estimate,
            forall|j: int|
                0 <= j < best ==> best_cost < (#[trigger] views[j]).cost + views[j].estimate,
        decreases open.len() - i,
    {
        assert(views[i as int] == open[i as int]@);
        let cost = open[i].total_cost();
        if cost < best_cost {
            best = i;
            best_cost = cost;
        }
        i += 1;
    }
    proof {
        assert(is_cheapest(views, best as int));
        lemma_cheapest(views, best as int);
    }
    let world = open.remove(best);
    assert(world_views(open@) =~= views.remove(best as int));
    world
}

/// Best-first search by cost over the open list: the cheapest open world is
/// taken; one that is closed already is dropped; a clean one is returned; any
/// other is closed, and the worlds that its actions lead to are opened.
/// Returns the clean world that it reaches, or `None` once the open list is
/// empty.
fn recurse_ucs(
    open: &mut Vec<World>,
    closed: &mut Vec<World>,
    Ghost(start): Ghost<WorldView>,
) -> (found: Option<World>)
    requires
        all_reachable(start, world_views(old(open)@)),
    ensures
        match found {
            Some(world) => {
                &&& best_first(world_views(old(open)@), world_views(old(closed)@), 0).found
                    == Some(world@)
                &&& world@.solved()
                &&& world@.well_formed()
                &&& reachable(start, world@)
            },
            None => best_first(world_views(old(open)@), world_views(old(closed)@), 0).found
                is None,
        },
        world_views(final(open)@) == best_first(
            world_views(old(open)@),
            world_views(old(closed)@),
            0,
        ).open,
        world_views(final(closed)@) == best_first(
            world_views(old(open)@),
            world_views(old(closed)@),
            0,
        ).closed,
{
    let mut steps: usize = 0;
    while open.len() > 0 && steps < usize::MAX
        invariant
            all_reachable(start, world_views(open@)),
            best_first(world_views(old(open)@), world_views(old(closed)@), 0) == best_first(
                world_views(open@),
                world_views(closed@),
                steps as nat,
            ),
        decreases usize::MAX - steps,
    {
        let ghost before = world_views(open@);
        let ghost shut = world_views(closed@);
        let ghost at = cheapest(before);
        let mut world = take_cheapest(open);
        proof {
            assert(before[at] == world@);
            assert forall|i: int| 0 <= i < open.len() implies (#[trigger] world_views(
                open@,
            )[i]).well_formed() && reachable(start, world_views(open@)[i]) by {
                if i < at {
                    assert(world_views(open@)[i] == before[i]);
                } else {
                    assert(world_views(open@)[i] == before[i + 1]);
                }
            }
        }
        steps += 1;
        if closed_contains(closed, &world) {
            continue ;
        }
        if world.is_solved() {
            return Some(world.clone());
        }
        let ghost parent = world@;
        let ghost rest = world_views(open@);
        let actions = world.expand();
        let ghost plan = choose|plan: Seq<Action>| #[trigger]
            performable(start, plan) && parent.same_place(run(start, plan));
        let mut i: usize = 0;
        assert(world_views(open@) =~= rest + children(world@, actions@).take(0));
        while i < actions.len()
            invariant
                i <= actions.len(),
                actions@ == parent.options(),
                world@ == parent.expanded(),
                world@.well_formed(),
                world@.same_place(parent),
                performable(start, plan),
                parent.same_place(run(start, plan)),
                all_reachable(start, world_views(open@)),
                world_views(open@) == rest + children(world@, actions@).take(i as int),
            decreases actions.len() - i,
        {
            let action = actions[i];
            assert(parent.can(action));
            proof {
                lemma_same_place(world@, parent, action);
            }
            match world.gen_from(action) {
                Some(new_world) => {
                    proof {
                        let longer = plan.push(action);
                        assert(longer.drop_last() =~= plan);
                        lemma_same_place(world@, run(start, plan), action);
                        assert(performable(start, longer));
                        assert(new_world@.same_place(run(start, longer)));
                    }
                    let ghost prev = world_views(open@);
                    let ghost child = new_world@;
                    open.push(new_world);
                    proof {
                        assert(world_views(open@) =~= prev.push(child));
                        assert(children(world@, actions@).take(i as int + 1) =~= children(
                            world@,
                            actions@,
                        ).take(i as int).push(child));
                        assert(world_views(open@) =~= rest + children(world@, actions@).take(
                            i as int + 1,
                        ));
                        assert forall|j: int| 0 <= j < open.len() implies (#[trigger] world_views(
                            open@,
                        )[j]).well_formed() && reachable(start, world_views(open@)[j]) by {
                            if j < prev.len() {
                                assert(world_views(open@)[j] == prev[j]);
                            }
                        }
                    }
                },
                None => {},
            }
            i += 1;
        }
        let ghost expanded = world@;
        closed.push(world);
        proof {
            assert(children(expanded, actions@).take(actions.len() as int) =~= children(
                expanded,
                actions@,
            ));
            assert(world_views(closed@) =~= shut.push(expanded));
        }
    }
    None
}

/// Best-first search by cost from `world`. Where it reaches a clean world it
/// returns a plan, which it leaves empty; else `None`.
pub fn uniform_cost(world: World) -> (solution: Option<Vec<Action>>)
    requires
        world@.well_formed(),
    ensures
        match solution {
            Some(plan) => {
                &&& plan@ == Seq::<Action>::empty()
                &&& best_first(seq![world@], Seq::empty(), 0).found matches Some(w)
                &&& w.solved()
                &&& reachable(world@, w)
            },
            None => best_first(seq![world@], Seq::empty(), 0).found is None,
        },
{
    let ghost start = world@;
    let mut open: Vec<World> = Vec::new();
    proof {
        let plan = Seq::<Action>::empty();
        assert(performable(start, plan));
        assert(start.same_place(run(start, plan)));
    }
    open.push(world);
    let mut closed: Vec<World> = Vec::new();
    let solution: Vec<Action> = Vec::new();
    proof {
        assert(world_views(open@) =~= seq![start]);
        assert(world_views(closed@) =~= Seq::<WorldView>::empty());
    }
    match recurse_ucs(&mut open, &mut closed, Ghost(start)) {
        Some(w) => Some(solution),
        None => None,
    }
}

/// The world that a description gives: the first line holds the number of
/// columns, the second the number of rows, and as many lines as there are
/// rows follow, each a row of tiles; more lines are not looked at. The vacuum
/// stands where the last `@` is, or in the north-west corner. There is no
/// world where a number cannot be read, lines are missing, or what results is
/// not well formed.
pub open spec fn described(lines: Seq<Seq<char>>) -> Option<WorldView> {
    if lines.len() >= 2 && number(lines[0]) is Some && number(lines[1]) is Some && number(
        lines[1],
    )->0 <= lines.len() - 2 {
        let rows = number(lines[1])->0 as nat;
        let body = lines.subrange(2, 2 + rows as int);
        let w = WorldView {
            tiles: rows_upto(body, rows),
            rows: rows,
            columns: number(lines[0])->0 as nat,
            dirt: stars_upto(body, rows) % 0x1_0000_0000,
            row: match robot_upto(body, rows) {
                Some(place) => place.0,
                None => 0,
            },
            col: match robot_upto(body, rows) {
                Some(place) => place.1,
                None => 0,
            },
            cost: 0,
            estimate: 0,
            prev_action: None,
        };
        if w.well_formed() {
            Some(w)
        } else {
            None
        }
    } else {
        None
    }
}

/// Reads a world from its description, line by line.
pub fn read_world(lines: &Vec<String>) -> (world: Option<World>)
    ensures
        match world {
            Some(w) => described(texts(lines@)) == Some(w@),
            None => described(texts(lines@)) is None,
        },
{
    if lines.len() < 2 {
        return None;
    }
    let columns = match parse_usize(lines[0].as_str()) {
        Some(c) => c,
        None => return None,
    };
    let rows = match parse_usize(lines[1].as_str()) {
        Some(r) => r,
        None => return None,
    };
    if rows > lines.len() - 2 {
        return None;
    }
    let mut rows_text: Vec<String> = Vec::new();
    let mut i: usize = 0;
    while i < rows
        invariant
            i <= rows,
            rows <= lines.len() - 2,
            rows_text.len() == i,
            forall|j: int| 0 <= j < i ==> (#[trigger] rows_text[j])@ == lines[j + 2]@,
        decreases rows - i,
    {
        rows_text.push(lines[i + 2].clone());
        i += 1;
    }
    proof {
        assert(texts(rows_text@) =~= texts(lines@).subrange(2, 2 + rows as int));
    }
    let mut world = World::new(rows, columns);
    world.gen_tiles(rows_text);
    proof {
        let body = texts(lines@).subrange(2, 2 + rows as int);
        assert(world@.tiles =~= rows_upto(body, rows as nat));
    }
    if world.is_valid() {
        Some(world)
    } else {
        None
    }
}

} // verus!
