//! The reason of every assignment.
use vstd::prelude::*;

use super::lit::Var;
use super::propagation::Reason;
use super::storage::KeyedVec;

verus! {

/// For every variable, the reason of its last assignment.
pub struct ImplicationGraph {
    reasons: KeyedVec<Var, Reason>,
}

impl ImplicationGraph {
    /// The reasons, by variable code.
    pub closed spec fn reasons_spec(&self) -> Seq<Reason> {
        self.reasons@
    }

    /// A graph that knows no variables.
    pub fn new() -> (graph: ImplicationGraph)
        ensures
            graph.reasons_spec() == Seq::<Reason>::empty(),
    {
        ImplicationGraph { reasons: KeyedVec::new() }
    }

    /// Make room for every variable up to the given one; new variables are decisions.
    pub fn grow_to(&mut self, var: Var)
        ensures
            final(self).reasons_spec().len() == if old(self).reasons_spec().len() > var.code_spec() {
                old(self).reasons_spec().len()
            } else {
                (var.code_spec() + 1) as nat
            },
            forall|i: int|
                0 <= i < final(self).reasons_spec().len() ==> #[trigger] final(self).reasons_spec()[i]
                    == if i < old(self).reasons_spec().len() {
                    old(self).reasons_spec()[i]
                } else {
                    Reason::Decision
                },
    {
        let _code = var.code();
        let ghost old_reasons = self.reasons@;
        self.reasons.grow_to(var);
        proof {
            assert forall|i: int| 0 <= i < self.reasons@.len() implies #[trigger] self.reasons@[i] == if i
                < old_reasons.len() {
                old_reasons[i]
            } else {
                Reason::Decision
            } by {
                if i < old_reasons.len() {
                    assert(self.reasons@.subrange(0, old_reasons.len() as int)[i] == old_reasons[i]);
                }
            }
        }
    }

    /// Get the reason for the assignment of the given variable.
    pub fn reason(&self, var: Var) -> (reason: &Reason)
        requires
            var.code_spec() < self.reasons_spec().len(),
        ensures
            *reason == self.reasons_spec()[var.code_spec() as int],
    {
        self.reasons.get(var)
    }

    /// Record the reason for the assignment of the given variable.
    pub fn add(&mut self, var: Var, reason: Reason)
        requires
            var.code_spec() < old(self).reasons_spec().len(),
        ensures
            final(self).reasons_spec() == old(self).reasons_spec().update(var.code_spec() as int, reason),
    {
        self.reasons.set(var, reason);
    }
}

impl Default for ImplicationGraph {
    fn default() -> (graph: ImplicationGraph)
        ensures
            graph.reasons_spec() == Seq::<Reason>::empty(),
    {
        ImplicationGraph::new()
    }
}

} // verus!
