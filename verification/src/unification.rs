//! First-order terms in clause form and their unification.

pub mod pattern;
pub mod cnf;
pub mod parse;
pub mod unify;
