//! The interface of the decision heuristics.
use vstd::prelude::*;

use super::assignment::Assignment;
use super::lit::{Lit, Var};

verus! {

/// Chooses the decisions of the search. Implemented by the users of the solver.
pub trait Brancher {
    /// Called when a new variable is created in the solver.
    fn on_new_var(&mut self, var: Var);

    /// Called when the given variable is seen during conflict analysis. The variable in question
    /// is guaranteed to have been passed to `on_new_var` before this is called.
    fn on_variable_activated(&mut self, var: Var);

    /// Called when the solver finishes conflict analysis.
    fn on_conflict(&mut self);

    /// Add a variable back into contention if it had previously been assigned.
    fn on_variable_unassigned(&mut self, var: Var);

    /// Provide the solver with the next decision. The returned literal should be unassigned under
    /// the given assignment.
    fn next_decision(&mut self, assignment: &Assignment) -> Option<Lit>;
}

} // verus!
