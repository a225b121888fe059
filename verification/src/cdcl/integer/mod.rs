//! Integer variables, encoded with literals.
pub mod affine_view;
pub mod atoms;
pub mod binary_functions;
pub mod interval_domain;

use vstd::prelude::*;

use super::storage::{Indexer, StaticIndexer};

verus! {

/// The type of integer variables we support.
pub type Int = i32;

/// The events an integer domain produces.
#[derive(Clone, Copy, Debug, PartialEq, Eq)]
pub enum IntEvent {
    LowerBound,
    UpperBound,
}

impl Indexer for IntEvent {
    open spec fn index_spec(&self) -> nat {
        match self {
            IntEvent::LowerBound => 0,
            IntEvent::UpperBound => 1,
        }
    }

    fn index(&self) -> (idx: usize) {
        match self {
            IntEvent::LowerBound => 0,
            IntEvent::UpperBound => 1,
        }
    }
}

impl StaticIndexer for IntEvent {
    open spec fn len_spec() -> nat {
        2
    }

    fn get_len() -> (len: usize) {
        2
    }
}

} // verus!
