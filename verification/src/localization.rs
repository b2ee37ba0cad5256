//! The moves of a particle on a grid map: where an action takes it once
//! chance has had its say.

use vstd::prelude::*;
use crate::grid_map::grid_view;

verus! {

/// The action that a particle is told to perform.
#[derive(Debug, PartialEq, Eq, Structural, Copy, Clone)]
pub enum Action {
    North,
    South,
    East,
    West,
}

/// What chance makes of an action.
#[derive(Debug, PartialEq, Eq, Structural, Copy, Clone)]
pub enum Slip {
    /// The action is performed as told.
    Straight,
    /// The particle veers: north becomes west, south east, east north, west
    /// south.
    Left,
    /// The particle veers the other way: north becomes east, south west, east
    /// south, west north.
    Right,
    /// The particle does not move.
    Stall,
}

/// The action that is performed in place of `act`; none where the particle
/// stalls.
pub open spec fn veered(act: Action, slip: Slip) -> Option<Action> {
    match slip {
        Slip::Straight => Some(act),
        Slip::Left => Some(
            match act {
                Action::North => Action::West,
                Action::South => Action::East,
                Action::East => Action::North,
                Action::West => Action::South,
            },
        ),
        Slip::Right => Some(
            match act {
                Action::North => Action::East,
                Action::South => Action::West,
                Action::East => Action::South,
                Action::West => Action::North,
            },
        ),
        Slip::Stall => None,
    }
}

/// The action that is performed in place of `act`; none where the particle
/// stalls.
pub fn veer(act: Action, slip: Slip) -> (action: Option<Action>)
    ensures
        action == veered(act, slip),
{
    match slip {
        Slip::Straight => Some(act),
        Slip::Left => Some(
            match act {
                Action::North => Action::West,
                Action::South => Action::East,
                Action::East => Action::North,
                Action::West => Action::South,
            },
        ),
        Slip::Right => Some(
            match act {
                Action::North => Action::East,
                Action::South => Action::West,
                Action::East => Action::South,
                Action::West => Action::North,
            },
        ),
        Slip::Stall => None,
    }
}

/// The tile next to (`x`, `y`) in the direction of `action`, computed in
/// machine words that wrap around: north is up the rows.
pub open spec fn goal(x: usize, y: usize, action: Action) -> (usize, usize) {
    match action {
        Action::North => (x, if y == usize::MAX {
            0usize
        } else {
            (y + 1) as usize
        }),
        Action::South => (x, if y == 0 {
            usize::MAX
        } else {
            (y - 1) as usize
        }),
        Action::East => (if x == usize::MAX {
            0usize
        } else {
            (x + 1) as usize
        }, y),
        Action::West => (if x == 0 {
            usize::MAX
        } else {
            (x - 1) as usize
        }, y),
    }
}

/// Every row of the map is at least as long as the map has rows.
pub open spec fn wide_enough(map: Seq<Seq<bool>>) -> bool {
    forall|r: int| 0 <= r < map.len() ==> (#[trigger] map[r]).len() >= map.len()
}

/// Where the particle at (`x`, `y`) is after `action`: on the tile next to it,
/// unless that tile lies beyond the number of rows of the map, in either
/// direction, or is blocked; then it stays.
pub open spec fn moved(map: Seq<Seq<bool>>, x: usize, y: usize, action: Action) -> (usize, usize) {
    let g = goal(x, y, action);
    if g.0 >= map.len() || g.1 >= map.len() || map[g.1 as int][g.0 as int] {
        (x, y)
    } else {
        g
    }
}

/// Where the particle at (`x`, `y`) is after it was told to perform `act` and
/// chance made `slip` of it.
pub open spec fn performed(map: Seq<Seq<bool>>, x: usize, y: usize, act: Action, slip: Slip) -> (
    usize,
    usize,
) {
    match veered(act, slip) {
        Some(action) => moved(map, x, y, action),
        None => (x, y),
    }
}

/// Moves a particle: returns where it is after it was told to perform `act`
/// and chance made `slip` of it.
pub fn perform_action(x: usize, y: usize, act: Action, slip: Slip, map: &Vec<Vec<bool>>) -> (place:
    (usize, usize))
    requires
        wide_enough(grid_view(map@)),
    ensures
        place == performed(grid_view(map@), x, y, act, slip),
{
    let action = match veer(act, slip) {
        Some(action) => action,
        None => {
            return (x, y);
        },
    };
    let (goalx, goaly) = match action {
        Action::North => (x, y.wrapping_add(1)),
        Action::South => (x, y.wrapping_sub(1)),
        Action::East => (x.wrapping_add(1), y),
        Action::West => (x.wrapping_sub(1), y),
    };
    if goalx >= map.len() || goaly >= map.len() {
        return (x, y);
    }
    assert(grid_view(map@)[goaly as int] == map[goaly as int]@);
    if map[goaly][goalx] {
        return (x, y);
    }
    (goalx, goaly)
}

/// Whether every row of the map is at least as long as the map has rows.
pub fn is_wide_enough(map: &Vec<Vec<bool>>) -> (wide: bool)
    ensures
        wide == wide_enough(grid_view(map@)),
{
    let mut r: usize = 0;
    while r < map.len()
        invariant
            r <= map.len(),
            forall|q: int| 0 <= q < r ==> (#[trigger] grid_view(map@)[q]).len() >= map.len(),
        decreases map.len() - r,
    {
        if map[r].len() < map.len() {
            assert(grid_view(map@)[r as int].len() < map.len());
            return false;
        }
        r += 1;
    }
    true
}

} // verus!
