//! Ways to split the domain of a variable.
use vstd::prelude::*;

use crate::cp::domains::{BitSetDomain, DomainStore, Domains};
use crate::cp::variables::{IntVar, Variable};

use super::{Branch, Partitioner};

verus! {

/// Branches on the lower bound of the variable: first fix the variable to it, then remove it.
pub struct DomainMin;

impl<Registrar> Partitioner<IntVar<BitSetDomain, Domains, Registrar>, Domains> for DomainMin {
    /// The two branches on the lower bound of a variable of the store; none for a variable of
    /// another store.
    open spec fn splits(&self, variable: IntVar<BitSetDomain, Domains, Registrar>, store: &Domains, branches: Seq<Branch<IntVar<BitSetDomain, Domains, Registrar>>>) -> bool {
        if variable.var_wf(store) {
            &&& branches.len() == 2
            &&& branches[0] == Branch::Fix(variable, variable.min_spec(store))
            &&& branches[1] == Branch::Remove(variable, variable.min_spec(store))
        } else {
            branches.len() == 0
        }
    }

    fn partition(&mut self, variable: IntVar<BitSetDomain, Domains, Registrar>, store: &Domains) -> (branches: Vec<
        Branch<IntVar<BitSetDomain, Domains, Registrar>>,
    >)
        ensures
            variable.var_wf(store) ==> {
                &&& branches@.len() == 2
                &&& branches@[0] == Branch::Fix(variable, variable.min_spec(store))
                &&& branches@[1] == Branch::Remove(variable, variable.min_spec(store))
            },
    {
        let mut branches = Vec::new();
        if variable.domain().index() >= store.num_domains() {
            return branches;
        }
        let value = variable.min(store);
        branches.push(Branch::Fix(variable, value));
        branches.push(Branch::Remove(variable, value));
        branches
    }
}

} // verus!
