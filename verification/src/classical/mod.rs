//! Classical planning: ground problems, their states and operators, and the search for plans.
use vstd::prelude::*;
use crate::classical::state::{State, Operators, Lit};

pub mod state;
pub mod centralite;
pub mod heuristics;
pub mod search;

verus! {

/// A ground problem: an initial state, the ground operators, and the goals to reach.
pub struct GroundProblem {
    pub initial_state: State,
    pub operators: Operators,
    pub goals: Vec<Lit>,
}

} // verus!
