//! Verified implementations of classic search and inference algorithms.
//!
//! The heart of the crate is [`graph_coloring`]: a constraint graph and a
//! backtracking search that colours its vertices, in three strategies. Every
//! search is proved to return exactly what its mathematical model says, and
//! the models are proved sound and complete.
//!
//! Around it stand smaller pieces in the same spirit: satisfiability of
//! clause sets, unification of first-order terms, planning in the vacuum
//! world, and the reading of the texts that describe these problems.

pub mod text;
pub mod graph_coloring;
pub mod cnf_satisfiability;
pub mod unification;
pub mod vacuum_world;
pub mod grid_map;
pub mod localization;
pub mod digit_classifier;
pub mod ransac;
