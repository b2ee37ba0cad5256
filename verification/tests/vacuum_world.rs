use ai_algorithms::vacuum_world::search::{
    algorithm_named, closed_contains, cycle_check, depth_first, depth_first_deepening,
    heuristic_named, read_world, recurse_dfs, take_cheapest, uniform_cost, Algorithms, Stats,
};
use ai_algorithms::vacuum_world::world::{Action, Tile, TileState, World};

fn lines(text: &[&str]) -> Vec<String> {
    text.iter().map(|l| String::from(*l)).collect()
}

fn world(columns: usize, rows: &[&str]) -> World {
    let mut w = World::new(rows.len(), columns);
    w.gen_tiles(lines(rows));
    assert!(w.is_valid());
    w
}

fn fresh() -> Stats {
    Stats { nodes_generated: 0, nodes_expanded: 0 }
}

/// Performs the plan and says whether every action could be performed and the
/// world is clean at the end.
fn cleans(mut w: World, plan: &[Action]) -> bool {
    plan.iter().all(|a| w.do_action(*a)) && w.is_solved()
}

#[test]
fn tile_keeps_its_cost_when_its_state_changes() {
    let mut tile = Tile::new(TileState::Dirty, 3);
    assert_eq!(tile.get_state(), TileState::Dirty);
    assert_eq!(tile.get_cost(), 3);
    tile.set_state(TileState::Clean);
    assert_eq!(tile.get_state(), TileState::Clean);
    assert_eq!(tile.get_cost(), 3);
}

#[test]
fn tiles_are_read_from_the_description() {
    let w = world(4, &["_*#_", "*@__\n"]);
    assert_eq!(w.position(), (1, 1));
    assert_eq!(w.dirt(), 2);
    assert!(!w.is_solved());
    assert_eq!(
        w.render(),
        vec!["Vacuum @ row: 1, col: 1, dirt: 2", "_*#_", "*___"]
    );
}

#[test]
fn a_world_of_the_wrong_size_is_not_valid() {
    let mut w = World::new(2, 3);
    w.gen_tiles(lines(&["___", "__"]));
    assert!(!w.is_valid());
    let mut w = World::new(2, 3);
    w.gen_tiles(lines(&["___"]));
    assert!(!w.is_valid());
    let mut w = World::new(1, 3);
    w.gen_tiles(lines(&["#__"]));
    assert!(!w.is_valid());
    assert!(!World::new(0, 0).is_valid());
    let mut w = World::new(1, 3);
    w.gen_tiles(lines(&["_@_"]));
    assert!(w.is_valid());
}

#[test]
fn actions_move_and_clean() {
    let mut w = world(3, &["_*_", "_@#"]);
    assert!(!w.do_action(Action::Vacuum));
    assert_eq!(w.last_action(), Some(Action::Vacuum));
    assert_eq!(w.cost(), 0);
    assert!(!w.do_action(Action::East));
    assert!(!w.do_action(Action::South));
    assert!(w.do_action(Action::North));
    assert_eq!(w.position(), (0, 1));
    assert_eq!(w.cost(), 1);
    assert!(!w.do_action(Action::North));
    assert!(w.do_action(Action::Vacuum));
    assert_eq!(w.dirt(), 0);
    assert!(w.is_solved());
    assert_eq!(w.cost(), 2);
    assert!(w.do_action(Action::West));
    assert!(!w.do_action(Action::West));
    assert_eq!(w.position(), (0, 0));
    assert!(w.do_action(Action::South));
    assert!(w.do_action(Action::East));
    assert_eq!(w.position(), (1, 1));
}

#[test]
fn undo_restores_place_and_dirt() {
    let start = world(3, &["*@_", "___"]);
    for action in [Action::West, Action::South, Action::East] {
        let mut w = start.clone();
        assert!(w.do_action(action));
        assert!(w.undo_action(action));
        assert_eq!(w.position(), start.position());
        assert_eq!(w.dirt(), start.dirt());
        assert!(w.same_tiles(&start));
        // Doing costs one; undoing a move costs one and one more for the move back.
        assert_eq!(w.cost(), 3);
        let mut w = start.clone();
        assert!(w.do_action(action));
        assert!(w.test_undo(action));
        assert_eq!(w.position(), start.position());
        assert_eq!(w.cost(), 2);
    }
    let mut w = start.clone();
    assert!(w.do_action(Action::West));
    assert!(w.do_action(Action::Vacuum));
    assert!(w.undo_action(Action::Vacuum));
    assert_eq!(w.dirt(), 1);
    assert_eq!(w.cost(), 3);
    assert!(!w.undo_action(Action::Vacuum));
    assert_eq!(w.cost(), 3);
    assert!(w.undo_action(Action::West));
    assert!(w.same_tiles(&start));
    assert_eq!(w.last_action(), Some(Action::East));
}

#[test]
fn expand_lists_what_can_be_done_in_order() {
    let mut w = world(3, &["___", "_@_", "___"]);
    assert_eq!(
        w.expand(),
        vec![Action::West, Action::South, Action::East, Action::North]
    );
    assert_eq!(w.position(), (1, 1));
    assert_eq!(w.last_action(), None);
    assert_eq!(w.cost(), 12);
    let mut w = world(2, &["@#"]);
    w.set_last_action(Some(Action::North));
    assert_eq!(w.expand(), Vec::<Action>::new());
    assert_eq!(w.last_action(), Some(Action::North));
    let mut w = world(2, &["_@"]);
    assert!(w.do_action(Action::West));
    assert!(w.undo_action(Action::Vacuum));
    assert!(w.is_valid());
    assert_eq!(w.expand(), vec![Action::Vacuum, Action::East]);
    assert_eq!(w.dirt(), 1);
}

#[test]
fn gen_from_gives_the_next_world() {
    let w = world(2, &["@*"]);
    assert!(w.gen_from(Action::West).is_none());
    let next = w.gen_from(Action::East).unwrap();
    assert_eq!(next.position(), (0, 1));
    assert_eq!(next.last_action(), Some(Action::East));
    assert_eq!(w.position(), (0, 0));
    assert_eq!(next.total_cost(), 1);
}

#[test]
fn worlds_are_equal_by_place_and_dirt() {
    let a = world(3, &["@_*"]);
    let b = world(3, &["@*_"]);
    assert!(a == b);
    assert!(!a.same_tiles(&b));
    let c = world(3, &["_@*"]);
    assert!(a != c);
    assert!(closed_contains(&vec![a.clone()], &a));
    assert!(!closed_contains(&vec![b, c], &a));
}

#[test]
fn cycle_check_finds_a_place_seen_before() {
    let mut w = world(3, &["@_*"]);
    let mut solution = Vec::new();
    assert!(!cycle_check(&w, &solution));
    assert!(w.do_action(Action::East));
    solution.push(Action::East);
    assert!(!cycle_check(&w, &solution));
    assert!(w.do_action(Action::West));
    solution.push(Action::West);
    assert!(cycle_check(&w, &solution));
}

#[test]
fn depth_first_finds_a_plan_that_cleans() {
    for rows in [vec!["@_*"], vec!["*@", "_*"], vec!["@#*", "___"], vec!["_*_", "*@*", "_*_"]] {
        let w = world(rows[0].chars().count(), &rows);
        let mut stats = fresh();
        let plan = depth_first(w.clone(), &mut stats).unwrap();
        assert!(cleans(w.clone(), &plan));
        assert!(stats.nodes_expanded >= 1);
        assert!(stats.nodes_generated as usize >= plan.len());
        let plan = depth_first_deepening(w.clone(), &mut fresh()).unwrap();
        assert!(cleans(w.clone(), &plan));
    }
}

#[test]
fn depth_first_takes_the_first_action_that_works() {
    let mut stats = fresh();
    let plan = depth_first(world(3, &["@_*"]), &mut stats).unwrap();
    assert_eq!(plan, vec![Action::East, Action::East, Action::Vacuum]);
    // At the middle tile the way back west is generated first and given up as
    // a cycle before the way east is taken.
    assert_eq!(stats, Stats { nodes_generated: 4, nodes_expanded: 3 });
    let plan = depth_first_deepening(world(3, &["@_*"]), &mut fresh()).unwrap();
    assert_eq!(plan, vec![Action::East, Action::East, Action::Vacuum]);
}

#[test]
fn a_clean_world_needs_no_plan() {
    let plan = depth_first(world(2, &["@_"]), &mut fresh()).unwrap();
    assert!(plan.is_empty());
    let plan = depth_first_deepening(world(2, &["@_"]), &mut fresh()).unwrap();
    assert!(plan.is_empty());
    assert_eq!(uniform_cost(world(2, &["@_"])), Some(vec![]));
}

#[test]
fn dirt_behind_a_wall_cannot_be_cleaned() {
    let w = world(3, &["@#*"]);
    assert_eq!(depth_first(w.clone(), &mut fresh()), None);
    assert_eq!(uniform_cost(w), None);
}

#[test]
fn bounded_search_fails_without_a_trace() {
    let mut w = world(3, &["@_*"]);
    let mut solution = vec![];
    let mut stats = fresh();
    assert!(!recurse_dfs(&mut w, &mut solution, 3, &mut stats));
    assert!(solution.is_empty());
    assert_eq!(w.position(), (0, 0));
    assert_eq!(w.dirt(), 1);
    assert!(!recurse_dfs(&mut w, &mut solution, 0, &mut stats));
    assert!(recurse_dfs(&mut w, &mut solution, 4, &mut stats));
    assert_eq!(solution, vec![Action::East, Action::East, Action::Vacuum]);
    assert!(w.is_solved());
}

#[test]
fn uniform_cost_reports_success_with_an_empty_plan() {
    assert_eq!(uniform_cost(world(3, &["@_*"])), Some(vec![]));
    assert_eq!(uniform_cost(world(2, &["*@", "_*"])), Some(vec![]));
}

#[test]
fn the_cheapest_open_world_is_taken_first() {
    let base = world(3, &["@__"]);
    let mut far = base.clone();
    assert!(far.do_action(Action::East));
    assert!(far.do_action(Action::East));
    let mut near = base.clone();
    assert!(near.do_action(Action::East));
    let mut open = vec![far.clone(), near.clone(), base.gen_from(Action::East).unwrap()];
    let first = take_cheapest(&mut open);
    assert_eq!(first.total_cost(), 1);
    assert_eq!(open.len(), 2);
    assert_eq!(open[0].total_cost(), 2);
    assert_eq!(open[1].total_cost(), 1);
}

#[test]
fn world_is_read_from_its_description() {
    let w = read_world(&lines(&["3", "2", "_*_", "@__", "ignored"])).unwrap();
    assert_eq!(w.position(), (1, 0));
    assert_eq!(w.dirt(), 1);
    assert!(read_world(&lines(&["3", "2", "_*_"])).is_none());
    assert!(read_world(&lines(&["x", "2", "_*_", "@__"])).is_none());
    assert!(read_world(&lines(&["3"])).is_none());
    assert!(read_world(&lines(&["2", "2", "_*_", "@__"])).is_none());
    assert!(read_world(&lines(&["3", "1", "#__"])).is_none());
}

#[test]
fn search_names() {
    assert_eq!(algorithm_named("uniform-cost"), Some(Algorithms::UniformCost));
    assert_eq!(algorithm_named("depth-first"), Some(Algorithms::DepthFirst));
    assert_eq!(algorithm_named("depth-first-id"), Some(Algorithms::DepthFirstDeepening));
    assert_eq!(algorithm_named("a-star"), Some(Algorithms::AStar));
    assert_eq!(algorithm_named("astar"), None);
    assert_eq!(heuristic_named("h0"), Some(0));
    assert_eq!(heuristic_named("h1"), Some(1));
    assert_eq!(heuristic_named("h2"), Some(2));
    assert_eq!(heuristic_named("h3"), None);
}
