//! The clause-learning core of the solver.
pub mod lit;
pub mod storage;
pub mod trail;
pub mod bits;
pub mod assignment;
pub mod search_tree;
pub mod clause;
pub mod preprocessor;
pub mod propagation;
pub mod domains;
pub mod implication_graph;
pub mod integer;
pub mod termination;
pub mod brancher;
pub mod analysis;
pub mod solver;
