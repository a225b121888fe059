//! Propagators: they remove values that take part in no solution from the domains.
pub mod not_eq;

pub use not_eq::{not_eq, NotEq};

use vstd::prelude::*;

use super::domains::{DomainId, GlobalDomainId};
use super::variables::VariableStore;

verus! {

/// After propagation, a domain may become empty. This enum is used to indicate whether a domain
/// has become empty.
#[derive(Debug, Clone, Copy, PartialEq, Eq, Structural)]
pub enum PropagationResult {
    Consistent,
    Inconsistent,
}

impl From<bool> for PropagationResult {
    fn from(value: bool) -> (res: PropagationResult)
        ensures
            res == if value { PropagationResult::Consistent } else { PropagationResult::Inconsistent },
    {
        if value {
            PropagationResult::Consistent
        } else {
            PropagationResult::Inconsistent
        }
    }
}

impl vstd::std_specs::convert::FromSpecImpl<bool> for PropagationResult {
    open spec fn obeys_from_spec() -> bool {
        true
    }

    open spec fn from_spec(v: bool) -> PropagationResult {
        if v {
            PropagationResult::Consistent
        } else {
            PropagationResult::Inconsistent
        }
    }
}

impl PropagationResult {
    /// Whether propagation should stop: the result is inconsistent.
    pub fn branch(self) -> (stop: bool)
        ensures
            stop == (self == PropagationResult::Inconsistent),
    {
        match self {
            PropagationResult::Consistent => false,
            PropagationResult::Inconsistent => true,
        }
    }
}

/// A propagator removes values from domains which do not participate in any satisfying solution.
pub trait Propagator<VStore: VariableStore, DomainRegistrar> {
    /// The propagator can work on the store.
    spec fn prop_wf(&self, store: &VStore) -> bool;

    /// When the store narrows, the propagator can still work on it.
    proof fn lemma_prop_shrink(&self, s1: &VStore, s2: &VStore)
        requires
            self.prop_wf(s1),
            s1.narrows(s2),
        ensures
            self.prop_wf(s2),
    ;

    /// Indicate for what domain changes this propagator needs to be enqueued.
    fn initialize(&mut self, ctx: &mut DomainRegistrar)
        ensures
            forall|s: VStore| #[trigger] old(self).prop_wf(&s) ==> final(self).prop_wf(&s),
    ;

    /// Perform the reasoning to prune domains.
    fn propagate(&mut self, store: &mut VStore) -> (res: PropagationResult)
        requires
            old(self).prop_wf(old(store)),
        ensures
            old(store).shrinks(final(store)),
            forall|s: VStore| #[trigger] old(self).prop_wf(&s) ==> final(self).prop_wf(&s),
    ;
}

/// Where a propagator registers the domains it watches.
pub trait RegistrationContext<Dom> {
    /// The domains registered so far, in order.
    spec fn registered(&self) -> Seq<GlobalDomainId>;

    /// Register the domain: it is added to the registered domains.
    fn register(&mut self, domain: DomainId<Dom>)
        ensures
            final(self).registered() == old(self).registered().push(domain.global_spec()),
    ;
}

/// The identifier of a posted propagator.
#[derive(Debug, Clone, Copy, PartialEq, Eq, Structural)]
pub struct PropagatorId(usize);

impl PropagatorId {
    /// The identifier with the given number.
    pub fn from_index(index: usize) -> (id: PropagatorId)
        ensures
            id.index_spec() == index,
    {
        PropagatorId(index)
    }

    /// The number of the identifier.
    pub closed spec fn index_spec(self) -> nat {
        self.0 as nat
    }

    /// The number of the identifier.
    pub fn index(self) -> (index: usize)
        ensures
            index == self.index_spec(),
    {
        self.0
    }
}

/// The propagators posted to a solver.
pub struct PropagatorStore<P> {
    propagators: Vec<P>,
}

impl<P> View for PropagatorStore<P> {
    type V = Seq<P>;

    closed spec fn view(&self) -> Seq<P> {
        self.propagators@
    }
}

impl<P> PropagatorStore<P> {
    /// Store the propagator, returning its identifier.
    pub fn allocate(&mut self, propagator: P) -> (id: PropagatorId)
        ensures
            final(self)@ == old(self)@.push(propagator),
            id.index_spec() == old(self)@.len(),
    {
        self.propagators.push(propagator);
        PropagatorId(self.propagators.len() - 1)
    }

    /// The propagator with the identifier, to change it.
    pub fn get_mut(&mut self, id: PropagatorId) -> (propagator: &mut P)
        requires
            id.index_spec() < old(self)@.len(),
        ensures
            *propagator == old(self)@[id.index_spec() as int],
            final(self)@ == old(self)@.update(id.index_spec() as int, *final(propagator)),
    {
        &mut self.propagators[id.0]
    }

    /// The number of propagators.
    pub fn len(&self) -> (len: usize)
        ensures
            len == self@.len(),
    {
        self.propagators.len()
    }
}

impl<P> Default for PropagatorStore<P> {
    fn default() -> (store: Self)
        ensures
            store@ == Seq::<P>::empty(),
    {
        PropagatorStore { propagators: Vec::new() }
    }
}

/// The domains a propagator registered, to be turned into watches.
pub struct PropagatorRegistration(pub Vec<GlobalDomainId>);

impl<Dom> RegistrationContext<Dom> for PropagatorRegistration {
    open spec fn registered(&self) -> Seq<GlobalDomainId> {
        self.0@
    }

    fn register(&mut self, domain: DomainId<Dom>) {
        self.0.push(domain.global_id());
    }
}

} // verus!
