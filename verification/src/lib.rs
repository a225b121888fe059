//! A constraint solver built around a conflict-driven clause-learning core, together with readers
//! for the DIMACS and FlatZinc formats and a small propagation-based constraint programming solver.
use vstd::prelude::*;

pub mod cdcl;
pub mod constraints;
pub mod cp;
pub mod dimacs;
pub mod flatzinc;
pub mod text;

verus! {

} // verus!
