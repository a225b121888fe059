//! Identifiers, events and watches used to wake up propagators.
mod context;
mod queue;
mod reason;
mod watch_list;

use vstd::prelude::*;

use super::storage::{ArenaId, Indexer, StaticIndexer};

pub use context::{lemma_distinct_below, lits_below, propagator_conflict, reason_below, Context};
pub use queue::PropagatorQueue;
pub use reason::{explained_clause, explanation_clause, Explanation, Reason};
pub use watch_list::{watch_of, LitWatch, PropagatorWatch, VariableRegistrar, WatchList, Watchable};

verus! {

/// A variable as seen by a propagator: the variable itself, and the identifier the propagator
/// uses for it.
#[derive(Clone, Copy, Debug)]
pub struct PropagatorVar<V> {
    pub variable: V,
    pub local_id: LocalId,
}

/// The identifier of a propagator in the solver.
#[derive(Clone, Copy, Debug, Hash, PartialEq, Eq, PartialOrd, Ord)]
pub struct PropagatorId(usize);

impl PropagatorId {
    /// The position of the propagator.
    pub closed spec fn id_spec(self) -> nat {
        self.0 as nat
    }
}

impl From<usize> for PropagatorId {
    fn from(value: usize) -> (id: PropagatorId) {
        PropagatorId(value)
    }
}

impl vstd::std_specs::convert::FromSpecImpl<usize> for PropagatorId {
    open spec fn obeys_from_spec() -> bool {
        true
    }

    open spec fn from_spec(v: usize) -> PropagatorId {
        PropagatorId::at(v)
    }
}

impl PropagatorId {
    /// The identifier at the given position.
    pub closed spec fn at(v: usize) -> PropagatorId {
        PropagatorId(v)
    }

    /// The identifier at a position has that position.
    pub broadcast proof fn lemma_at(v: usize)
        ensures
            #[trigger] PropagatorId::at(v).id_spec() == v,
    {
    }
}

impl Indexer for PropagatorId {
    open spec fn index_spec(&self) -> nat {
        self.id_spec()
    }

    fn index(&self) -> (idx: usize) {
        self.0
    }
}

impl ArenaId for PropagatorId {
    fn from_index(index: usize) -> (id: PropagatorId) {
        PropagatorId(index)
    }
}

/// The identifier a propagator gives to one of its variables.
#[derive(Clone, Copy, Debug, Hash, PartialEq, Eq, PartialOrd, Ord)]
pub struct LocalId(u32);

impl LocalId {
    /// The number of the identifier.
    pub closed spec fn id_spec(self) -> u32 {
        self.0
    }
}

impl From<u32> for LocalId {
    fn from(value: u32) -> (id: LocalId) {
        LocalId(value)
    }
}

impl vstd::std_specs::convert::FromSpecImpl<u32> for LocalId {
    open spec fn obeys_from_spec() -> bool {
        true
    }

    open spec fn from_spec(v: u32) -> LocalId {
        LocalId::at(v)
    }
}

impl LocalId {
    /// The identifier with the given number.
    pub closed spec fn at(v: u32) -> LocalId {
        LocalId(v)
    }

    /// The identifier with a number has that number.
    pub broadcast proof fn lemma_at(v: u32)
        ensures
            #[trigger] LocalId::at(v).id_spec() == v,
    {
    }
}

/// An event type of the solver that can express the events of type `Event`.
pub trait SDomainEvent<Event>: Indexer + StaticIndexer + Sized + Copy {
    /// Whether this event is the given event.
    fn is(self, evt: Event) -> bool;
}

/// An event type of the solver that can express three kinds of events.
pub trait DomainEvent<E1, E2 = E1, E3 = E1>: SDomainEvent<E1> + SDomainEvent<E2> + SDomainEvent<
    E3,
> {

}

impl<Event, E1, E2, E3> DomainEvent<E1, E2, E3> for Event where
    Event: SDomainEvent<E1> + SDomainEvent<E2> + SDomainEvent<E3>,
 {

}

/// The events of a propositional literal.
#[derive(Clone, Copy, Debug, PartialEq, Eq)]
pub enum LitEvent {
    FixedTrue,
    FixedFalse,
}

} // verus!
