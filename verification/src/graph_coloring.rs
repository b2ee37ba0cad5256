//! Graph vertex colouring by backtracking search: plain chronological
//! backtracking, forward checking, and most-constrained-variable ordering,
//! all working on one shared constraint graph.

pub mod model;
pub mod state;
pub mod search;
pub mod laws;
pub mod input;
pub mod report;
