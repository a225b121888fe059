//! A small propagation-based constraint programming solver over integer domains.
pub mod domains;
pub mod keyed_idx_vec;
pub mod propagators;
pub mod variables;
pub mod views;
pub mod propagator_queue;
pub mod search;
pub mod solver;
