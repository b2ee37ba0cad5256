use ai_algorithms::vacuum_world::flat::{
    parse_world_line, read_world, Action, Algorithm, LineError, Tile, World, WorldError,
};

fn lines(text: &[&str]) -> Vec<String> {
    text.iter().map(|l| String::from(*l)).collect()
}

/// ```text
/// _ * #
/// _ _ _
/// # _ *
/// ```
fn three_by_three(rob: usize) -> World {
    let (clean, dirty, blocked) = (Tile::Clean, Tile::Dirty, Tile::Blocked);
    World::new(vec![clean, dirty, blocked, clean, clean, clean, blocked, clean, dirty], 3, 3, rob)
}

#[test]
fn world_counts_its_dirt() {
    let world = three_by_three(4);
    assert!(!world.is_solved());
    assert_eq!(world.robot(), 4);
    assert_eq!(world.size(), 9);
    assert_eq!(world.tile(1), Tile::Dirty);
    assert!(World::new(vec![Tile::Clean, Tile::Blocked], 2, 1, 0).is_solved());
    assert!(World::new(vec![], 0, 0, 0).is_solved());
}

#[test]
fn can_perform_looks_at_the_neighbour() {
    let world = three_by_three(4);
    assert!(world.is_listable());
    assert!(!world.can_perform(Action::Vacuum));
    assert!(world.can_perform(Action::North));
    assert!(world.can_perform(Action::South));
    assert!(world.can_perform(Action::East));
    assert!(world.can_perform(Action::West));
    let world = three_by_three(1);
    assert!(world.can_perform(Action::Vacuum));
    assert!(!world.can_perform(Action::North));
    assert!(!world.can_perform(Action::East));
    assert!(world.can_perform(Action::West));
    assert!(world.can_perform(Action::South));
    let world = three_by_three(5);
    assert!(!world.can_perform(Action::East));
    assert!(!world.can_perform(Action::North));
    assert!(world.can_perform(Action::South));
    let world = three_by_three(3);
    assert!(!world.can_perform(Action::West));
    assert!(!world.can_perform(Action::South));
    let world = three_by_three(7);
    assert!(!world.can_perform(Action::South));
    assert!(!world.can_perform(Action::West));
}

#[test]
fn south_of_the_last_row_start_is_not_defined() {
    assert!(!three_by_three(6).is_listable());
    assert!(three_by_three(7).is_listable());
    assert!(three_by_three(8).is_listable());
    assert!(!three_by_three(9).is_listable());
    assert!(!World::new(vec![Tile::Clean], 0, 1, 0).is_listable());
}

#[test]
fn actions_come_in_the_order_of_testing() {
    let world = three_by_three(4);
    assert_eq!(
        world.actions().collect(),
        vec![Action::West, Action::South, Action::East, Action::North]
    );
    let world = three_by_three(1);
    let mut actions = world.actions();
    assert_eq!(actions.next(), Some(Action::Vacuum));
    assert_eq!(actions.next(), Some(Action::West));
    assert_eq!(actions.next(), Some(Action::South));
    assert_eq!(actions.next(), None);
    assert_eq!(actions.next(), None);
}

#[test]
fn do_action_moves_the_robot_or_cleans() {
    assert_eq!(three_by_three(4).do_action(Action::North).robot(), 1);
    assert_eq!(three_by_three(4).do_action(Action::South).robot(), 7);
    assert_eq!(three_by_three(4).do_action(Action::East).robot(), 5);
    assert_eq!(three_by_three(4).do_action(Action::West).robot(), 3);
    let world = three_by_three(1).do_action(Action::Vacuum);
    assert_eq!(world.tile(1), Tile::Clean);
    assert_eq!(world.robot(), 1);
    // The dirt that the world counted when it was made stays.
    assert!(!world.is_solved());
}

#[test]
fn path_find_moves_east_and_lists_the_actions() {
    assert_eq!(
        World::path_find(three_by_three(3), Algorithm::DepthFirst),
        vec![Action::West, Action::South, Action::East, Action::North]
    );
    assert_eq!(
        World::depth_first(three_by_three(0), Vec::new()),
        vec![Action::Vacuum, Action::West, Action::South]
    );
    for alg in [Algorithm::DepthFirstIteratedDeepening, Algorithm::BreadthFirst, Algorithm::AStar] {
        assert_eq!(World::path_find(three_by_three(3), alg), Vec::<Action>::new());
    }
}

#[test]
fn action_letters() {
    assert_eq!(Action::Vacuum.to_text(), "V");
    assert_eq!(Action::North.to_text(), "N");
    assert_eq!(Action::South.to_text(), "S");
    assert_eq!(Action::East.to_text(), "E");
    assert_eq!(Action::West.to_text(), "W");
}

#[test]
fn a_line_is_read_tile_by_tile() {
    assert_eq!(
        parse_world_line("#_*@", 4),
        Ok((vec![Tile::Blocked, Tile::Clean, Tile::Dirty, Tile::Clean], Some(3)))
    );
    assert_eq!(parse_world_line("__", 2), Ok((vec![Tile::Clean, Tile::Clean], None)));
    assert_eq!(parse_world_line("", 0), Ok((vec![], None)));
    assert_eq!(parse_world_line("@_@", 3), Err(LineError::TwoRobots));
    assert_eq!(parse_world_line("_x_", 3), Err(LineError::UnknownTile('x')));
    assert_eq!(parse_world_line("_x@@", 3), Err(LineError::UnknownTile('x')));
    assert_eq!(parse_world_line("@@x", 3), Err(LineError::TwoRobots));
    assert_eq!(
        parse_world_line("___", 4),
        Err(LineError::WrongWidth { found: 3, expected: 4 })
    );
}

#[test]
fn line_errors_as_messages() {
    assert_eq!(LineError::TwoRobots.message(), "Found two robots.");
    assert_eq!(LineError::UnknownTile('x').message(), "Unknown world tile x");
    assert_eq!(LineError::UnknownTile('é').message(), "Unknown world tile é");
    assert_eq!(
        LineError::WrongWidth { found: 3, expected: 12 }.message(),
        "Found 3 columns, expected 12"
    );
}

#[test]
fn world_is_read_row_by_row() {
    let world = read_world(&lines(&["3", "2", "_*#", "_@_"])).ok().unwrap();
    assert_eq!(world.robot(), 4);
    assert_eq!(world.size(), 6);
    assert_eq!(world.tile(1), Tile::Dirty);
    assert_eq!(world.tile(4), Tile::Clean);
    assert!(!world.is_solved());
    assert!(world.can_perform(Action::North));
    assert!(!world.can_perform(Action::Vacuum));
}

#[test]
fn what_is_wrong_with_a_description() {
    assert_eq!(read_world(&lines(&["3"])).err(), Some(WorldError::BadSize));
    assert_eq!(read_world(&lines(&["a", "2", "___", "_@_"])).err(), Some(WorldError::BadSize));
    assert_eq!(read_world(&lines(&["3", "", "___", "_@_"])).err(), Some(WorldError::BadSize));
    assert_eq!(read_world(&lines(&["3", "2", "_@_"])).err(), Some(WorldError::UnexpectedEnd));
    assert_eq!(read_world(&lines(&["3", "2", "___", "___"])).err(), Some(WorldError::NoRobot));
    assert_eq!(read_world(&lines(&["3", "0"])).err(), Some(WorldError::NoRobot));
    assert_eq!(read_world(&lines(&["3", "2", "@__", "__@"])).err(), Some(WorldError::TwoRobots));
    assert_eq!(
        read_world(&lines(&["3", "2", "@__", "_?_"])).err(),
        Some(WorldError::BadLine { row: 1, error: LineError::UnknownTile('?') })
    );
    assert_eq!(
        read_world(&lines(&["3", "2", "@_", "___"])).err(),
        Some(WorldError::BadLine { row: 0, error: LineError::WrongWidth { found: 2, expected: 3 } })
    );
    assert_eq!(
        read_world(&lines(&["3", "3", "@_@", "___"])).err(),
        Some(WorldError::BadLine { row: 0, error: LineError::TwoRobots })
    );
}
