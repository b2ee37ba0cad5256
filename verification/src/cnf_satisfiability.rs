//! Satisfiability of formulas in conjunctive normal form, by unit propagation
//! and branching on one variable after the other.

pub mod formula;
pub mod solver;
pub mod input;
