//! Search: which variable to branch on, and how to split its domain.
pub mod partitioners;
pub mod selectors;

use std::marker::PhantomData;

use vstd::prelude::*;

use super::variables::{Variable, VariableStore};

verus! {

/// A partition of the domain of the CSP: a change to one variable, made when the search descends
/// into the branch.
pub enum Branch<Var> {
    /// Fix the variable to the value.
    Fix(Var, i64),
    /// Remove the value from the variable.
    Remove(Var, i64),
}

impl<Var> Branch<Var> {
    /// The variable the branch changes.
    pub open spec fn var_spec(&self) -> Var {
        match self {
            Branch::Fix(v, _) => *v,
            Branch::Remove(v, _) => *v,
        }
    }

    /// The variable the branch changes.
    pub fn var(&self) -> (var: &Var)
        ensures
            *var == self.var_spec(),
    {
        match self {
            Branch::Fix(v, _) => v,
            Branch::Remove(v, _) => v,
        }
    }

    /// Make the change of the branch. Returns whether the variable kept a value.
    pub fn apply<Store: VariableStore>(&self, store: &mut Store) -> (nonempty: bool)
        where Var: Variable<Store>,
        requires
            self.var_spec().var_wf(old(store)),
        ensures
            self.var_spec().var_wf(final(store)),
            old(store).shrinks(final(store)),
            forall|v: int| #[trigger] self.var_spec().contains(final(store), v) == (self.var_spec().contains(old(store), v) && match self {
                Branch::Fix(_, value) => v == *value,
                Branch::Remove(_, value) => v != *value,
            }),
            nonempty == (self.var_spec().size_spec(final(store)) > 0),
    {
        match self {
            Branch::Fix(var, value) => var.fix(store, value),
            Branch::Remove(var, value) => var.remove(store, value),
        }
    }
}

/// A brancher creates the nodes in the search tree.
pub trait Brancher<Store: VariableStore> {
    /// The variables the branches change.
    type Var;

    /// The search is complete on the store: every variable the brancher branches over is fixed.
    spec fn finished(&self, store: &Store) -> bool;

    /// Create the new branches of the search tree. If all variables are fixed, and search is
    /// therefore completed, this should return [`None`].
    fn branch(&mut self, store: &Store) -> (branches: Option<Vec<Branch<Self::Var>>>)
        requires
            store.store_ok(),
        ensures
            branches is None ==> final(self).finished(store),
    ;
}

/// Picks the variable to branch on.
pub trait Selector<Var, Store: VariableStore> {
    /// Every variable the selector picks from is fixed.
    spec fn finished(&self, store: &Store) -> bool;

    /// The variable is one the selector may pick on the store.
    spec fn chooses(&self, store: &Store, var: Var) -> bool;

    /// Pick a variable to branch on, or none when every variable is fixed.
    fn select(&mut self, store: &Store) -> (var: Option<Var>)
        requires
            store.store_ok(),
        ensures
            var is None <==> final(self).finished(store),
            var matches Some(v) ==> old(self).chooses(store, v),
    ;
}

/// Splits the domain of a variable into branches.
pub trait Partitioner<Var, Store: VariableStore> {
    /// The branches are the ones the partitioner makes for the variable on the store.
    spec fn splits(&self, variable: Var, store: &Store, branches: Seq<Branch<Var>>) -> bool;

    /// Split the domain of the variable.
    fn partition(&mut self, variable: Var, store: &Store) -> (branches: Vec<Branch<Var>>)
        requires
            store.store_ok(),
        ensures
            old(self).splits(variable, store, branches@),
    ;
}

/// A brancher made of a selector and a partitioner: it partitions the selected variable.
pub struct Search<Var, S, P> {
    selector: S,
    partitioner: P,
    variable: PhantomData<Var>,
}

impl<Var, S, P> Search<Var, S, P> {
    /// The search with the selector and the partitioner.
    pub fn new(selector: S, partitioner: P) -> (search: Self)
        ensures
            search.selector_spec() == selector,
            search.partitioner_spec() == partitioner,
    {
        Search { selector, partitioner, variable: PhantomData }
    }

    /// The selector.
    pub closed spec fn selector_spec(&self) -> S {
        self.selector
    }

    /// The partitioner.
    pub closed spec fn partitioner_spec(&self) -> P {
        self.partitioner
    }
}

impl<Var, Store: VariableStore, S: Selector<Var, Store>, P: Partitioner<Var, Store>> Brancher<Store> for Search<Var, S, P> {
    type Var = Var;

    /// The selector has nothing left to pick.
    open spec fn finished(&self, store: &Store) -> bool {
        self.selector_spec().finished(store)
    }

    /// No branches exactly when the selector has nothing left to pick; otherwise the
    /// partitioner's branches for the variable the selector picks.
    fn branch(&mut self, store: &Store) -> (branches: Option<Vec<Branch<Var>>>)
        ensures
            branches is None <==> final(self).finished(store),
            branches matches Some(b) ==> exists|v: Var| #[trigger] old(self).selector_spec().chooses(store, v) && old(self).partitioner_spec().splits(v, store, b@),
    {
        match self.selector.select(store) {
            Some(variable) => {
                let ghost v = variable;
                let branches = self.partitioner.partition(variable, store);
                proof {
                    assert(old(self).selector_spec().chooses(store, v) && old(self).partitioner_spec().splits(v, store, branches@));
                }
                Some(branches)
            },
            None => None,
        }
    }
}

} // verus!
