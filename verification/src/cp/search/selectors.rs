//! Ways to pick the variable to branch on.
use vstd::prelude::*;

use crate::cp::domains::{BitSetDomain, DomainStore, Domains};
use crate::cp::variables::{IntVar, Variable};

use super::Selector;

verus! {

/// Picks the variable with the smallest domain among those not fixed; the first such variable
/// on a tie.
pub struct FirstFail<Var> {
    vars: Vec<Var>,
}

impl<Var> FirstFail<Var> {
    /// The selector over the variables.
    pub fn new(vars: Vec<Var>) -> (selector: Self)
        ensures
            selector.vars_spec() == vars@,
    {
        FirstFail { vars }
    }

    /// The variables to select from.
    pub closed spec fn vars_spec(&self) -> Seq<Var> {
        self.vars@
    }
}

/// Whether `k` holds the first smallest domain of size above one among the variables.
pub open spec fn first_fail_choice<Registrar>(vars: Seq<IntVar<BitSetDomain, Domains, Registrar>>, store: Domains, k: int) -> bool {
    &&& 0 <= k < vars.len()
    &&& vars[k].size_spec(&store) > 1
    &&& forall|j: int| 0 <= j < vars.len() && #[trigger] vars[j].size_spec(&store) > 1 ==> vars[k].size_spec(&store) <= vars[j].size_spec(&store)
    &&& forall|j: int| 0 <= j < k && #[trigger] vars[j].size_spec(&store) > 1 ==> vars[k].size_spec(&store) < vars[j].size_spec(&store)
}

impl<Registrar> Selector<IntVar<BitSetDomain, Domains, Registrar>, Domains> for FirstFail<IntVar<BitSetDomain, Domains, Registrar>> {
    /// Every variable of the store holds at most one value.
    open spec fn finished(&self, store: &Domains) -> bool {
        forall|j: int| 0 <= j < self.vars_spec().len() && (#[trigger] self.vars_spec()[j]).var_wf(store) ==> self.vars_spec()[j].size_spec(store) <= 1
    }

    /// The variable is the first of the smallest domains above one value, when the variables
    /// belong to the store.
    open spec fn chooses(&self, store: &Domains, var: IntVar<BitSetDomain, Domains, Registrar>) -> bool {
        (forall|j: int| 0 <= j < self.vars_spec().len() ==> (#[trigger] self.vars_spec()[j]).var_wf(store)) ==> exists|k: int| first_fail_choice(self.vars_spec(), *store, k) && var == self.vars_spec()[k]
    }

    fn select(&mut self, store: &Domains) -> (var: Option<IntVar<BitSetDomain, Domains, Registrar>>)
        ensures
            (forall|j: int| 0 <= j < old(self).vars_spec().len() ==> (#[trigger] old(self).vars_spec()[j]).var_wf(store)) ==> match var {
                Some(v) => exists|k: int| first_fail_choice(old(self).vars_spec(), *store, k) && v == old(self).vars_spec()[k],
                None => forall|j: int| 0 <= j < old(self).vars_spec().len() ==> (#[trigger] old(self).vars_spec()[j]).size_spec(store) <= 1,
            },
            *final(self) == *old(self),
    {
        let n = store.num_domains();
        let mut best: Option<usize> = None;
        let mut i: usize = 0;
        while i < self.vars.len()
            invariant
                i <= self.vars@.len(),
                *self == *old(self),
                store.store_wf(),
                n == store.domains_spec().len(),
                match best {
                    Some(k) => {
                        &&& k < i
                        &&& self.vars@[k as int].var_wf(store)
                        &&& self.vars@[k as int].size_spec(store) > 1
                        &&& forall|j: int| 0 <= j < i && self.vars@[j].var_wf(store) && #[trigger] self.vars@[j].size_spec(store) > 1 ==> self.vars@[k as int].size_spec(store) <= self.vars@[j].size_spec(store)
                        &&& forall|j: int| 0 <= j < k && self.vars@[j].var_wf(store) && #[trigger] self.vars@[j].size_spec(store) > 1 ==> self.vars@[k as int].size_spec(store) < self.vars@[j].size_spec(store)
                    },
                    None => forall|j: int| 0 <= j < i && self.vars@[j].var_wf(store) ==> #[trigger] self.vars@[j].size_spec(store) <= 1,
                },
            decreases self.vars@.len() - i,
        {
            let var = self.vars[i];
            if var.domain().index() < n {
                let size = var.size(store);
                if size > 1 {
                    match best {
                        Some(k) => {
                            if size < self.vars[k].size(store) {
                                best = Some(i);
                            }
                        },
                        None => {
                            best = Some(i);
                        },
                    }
                }
            }
            i = i + 1;
        }
        match best {
            Some(k) => {
                let chosen = self.vars[k];
                proof {
                    assert(self.vars@ == old(self).vars_spec());
                    assert(chosen == old(self).vars_spec()[k as int]);
                    if forall|j: int| 0 <= j < old(self).vars_spec().len() ==> (#[trigger] old(self).vars_spec()[j]).var_wf(store) {
                        assert(first_fail_choice(old(self).vars_spec(), *store, k as int));
                    }
                }
                Some(chosen)
            },
            None => None,
        }
    }
}

} // verus!
