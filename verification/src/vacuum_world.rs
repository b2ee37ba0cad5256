//! The vacuum world: a grid of tiles on which a vacuum moves and cleans, and
//! the searches that plan its work.

pub mod world;
pub mod search;
pub mod flat;
