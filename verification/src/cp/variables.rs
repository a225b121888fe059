//! Integer variables over a store of domains.
use std::marker::PhantomData;

use vstd::prelude::*;

use super::domains::{BitSetDomain, Domain, DomainChange, DomainId, DomainStore, Domains};
use super::propagators::RegistrationContext;

verus! {

/// A store that variables live in: it can be consistent, and a later state of it can have every
/// domain shrunk.
pub trait VariableStore {
    /// The store is consistent.
    spec fn store_ok(&self) -> bool;

    /// The later store is consistent, holds the domains of this one (and perhaps more), and each
    /// of them holds no value the domain here does not.
    spec fn narrows(&self, later: &Self) -> bool;

    /// The later store narrows this one, and is otherwise the same: what variables and
    /// propagators do to a store.
    spec fn shrinks(&self, later: &Self) -> bool;

    /// Shrinking narrows.
    proof fn lemma_shrinks_narrows(&self, later: &Self)
        requires
            self.shrinks(later),
        ensures
            self.narrows(later),
    ;

    /// Narrowing is transitive.
    proof fn lemma_narrows_trans(&self, mid: &Self, last: &Self)
        requires
            self.narrows(mid),
            mid.narrows(last),
        ensures
            self.narrows(last),
    ;

    /// Shrinking is reflexive on consistent stores.
    proof fn lemma_shrinks_refl(&self)
        requires
            self.store_ok(),
        ensures
            self.shrinks(self),
    ;

    /// Shrinking is transitive.
    proof fn lemma_shrinks_trans(&self, mid: &Self, last: &Self)
        requires
            self.shrinks(mid),
            mid.shrinks(last),
        ensures
            self.shrinks(last),
    ;
}

impl VariableStore for Domains {
    open spec fn store_ok(&self) -> bool {
        self.store_wf()
    }

    open spec fn narrows(&self, later: &Domains) -> bool {
        &&& later.store_wf()
        &&& later.domains_spec().len() >= self.domains_spec().len()
        &&& forall|i: int, v: int| 0 <= i < self.domains_spec().len() && #[trigger] later.domains_spec()[i].contains(v) ==> self.domains_spec()[i].contains(v)
    }

    open spec fn shrinks(&self, later: &Domains) -> bool {
        &&& self.narrows(later)
        &&& later.saved() == self.saved()
        &&& later.allocated() == self.allocated()
    }

    proof fn lemma_shrinks_narrows(&self, later: &Domains) {
    }

    proof fn lemma_narrows_trans(&self, mid: &Domains, last: &Domains) {
        assert forall|i: int, v: int| 0 <= i < self.domains_spec().len() && #[trigger] last.domains_spec()[i].contains(v) implies self.domains_spec()[i].contains(v) by {
            assert(mid.domains_spec()[i].contains(v));
        }
    }

    proof fn lemma_shrinks_refl(&self) {
    }

    proof fn lemma_shrinks_trans(&self, mid: &Domains, last: &Domains) {
        assert forall|i: int, v: int| 0 <= i < self.domains_spec().len() && #[trigger] last.domains_spec()[i].contains(v) implies self.domains_spec()[i].contains(v) by {
            assert(mid.domains_spec()[i].contains(v));
        }
    }
}

/// A variable with integer values, whose domain lives in a store.
pub trait Variable<Store: VariableStore> {
    /// Whether the value is in the domain of the variable.
    spec fn contains(&self, store: &Store, value: int) -> bool;

    /// The number of values in the domain of the variable.
    spec fn size_spec(&self, store: &Store) -> nat;

    /// The lower bound of the variable.
    spec fn min_spec(&self, store: &Store) -> i64;

    /// The upper bound of the variable.
    spec fn max_spec(&self, store: &Store) -> i64;

    /// The variable can be used with the store.
    spec fn var_wf(&self, store: &Store) -> bool;

    /// When the store narrows, the variable stays usable and its domain shrinks.
    proof fn lemma_shrink(&self, s1: &Store, s2: &Store)
        requires
            self.var_wf(s1),
            s1.narrows(s2),
        ensures
            self.var_wf(s2),
            forall|v: int| #[trigger] self.contains(s2, v) ==> self.contains(s1, v),
    ;

    /// What the domain of a usable variable holds: its bounds when nonempty, nothing outside
    /// them, and only its lower bound when its size is one.
    proof fn lemma_variable(&self, store: &Store)
        requires
            self.var_wf(store),
        ensures
            store.store_ok(),
            self.size_spec(store) > 0 ==> self.contains(store, self.min_spec(store) as int) && self.contains(store, self.max_spec(store) as int),
            forall|v: int| #[trigger] self.contains(store, v) ==> self.size_spec(store) > 0 && self.min_spec(store) <= v <= self.max_spec(store),
            self.size_spec(store) == 1 ==> forall|v: int| #[trigger] self.contains(store, v) <==> v == self.min_spec(store),
    ;

    /// Get the lower bound of the variable.
    fn min(&self, store: &Store) -> (min: i64)
        requires
            self.var_wf(store),
        ensures
            min == self.min_spec(store),
    ;

    /// Get the upper bound of the variable.
    fn max(&self, store: &Store) -> (max: i64)
        requires
            self.var_wf(store),
        ensures
            max == self.max_spec(store),
    ;

    /// Get the size of the domain.
    fn size(&self, store: &Store) -> (size: usize)
        requires
            self.var_wf(store),
        ensures
            size == self.size_spec(store),
    ;

    /// Get the value if this variable has a singleton domain.
    fn fixed_value(&self, store: &Store) -> (value: Option<i64>)
        requires
            self.var_wf(store),
        ensures
            value == if self.size_spec(store) == 1 { Some(self.min_spec(store)) } else { None::<i64> },
    ;

    /// Remove the given value from this domain. If the domain becomes empty, this returns false.
    fn remove(&self, store: &mut Store, value: &i64) -> (nonempty: bool)
        requires
            self.var_wf(old(store)),
        ensures
            self.var_wf(final(store)),
            old(store).shrinks(final(store)),
            forall|v: int| #[trigger] self.contains(final(store), v) == (self.contains(old(store), v) && v != *value),
            nonempty == (self.size_spec(final(store)) > 0),
    ;

    /// Set the lower bound for this variable.
    fn set_min(&self, store: &mut Store, value: &i64) -> (nonempty: bool)
        requires
            self.var_wf(old(store)),
        ensures
            self.var_wf(final(store)),
            old(store).shrinks(final(store)),
            forall|v: int| #[trigger] self.contains(final(store), v) == (self.contains(old(store), v) && v >= *value),
            nonempty == (self.size_spec(final(store)) > 0),
    ;

    /// Set the upper bound for this variable.
    fn set_max(&self, store: &mut Store, value: &i64) -> (nonempty: bool)
        requires
            self.var_wf(old(store)),
        ensures
            self.var_wf(final(store)),
            old(store).shrinks(final(store)),
            forall|v: int| #[trigger] self.contains(final(store), v) == (self.contains(old(store), v) && v <= *value),
            nonempty == (self.size_spec(final(store)) > 0),
    ;

    /// Fix the variable to the given value. If the domain becomes empty, this returns false.
    fn fix(&self, store: &mut Store, value: &i64) -> (nonempty: bool)
        requires
            self.var_wf(old(store)),
        ensures
            self.var_wf(final(store)),
            old(store).shrinks(final(store)),
            forall|v: int| #[trigger] self.contains(final(store), v) == (self.contains(old(store), v) && v == *value),
            nonempty == (self.size_spec(final(store)) > 0),
    ;
}

/// Something that can tell a registrar which domains it depends on.
pub trait Register<Registrar> {
    /// Going from `before` to `after` registers the domains this variable depends on.
    spec fn registers(&self, before: Registrar, after: Registrar) -> bool;

    /// Register the domain IDs this variable depends on with the registrar.
    fn register(&self, registrar: &mut Registrar)
        ensures
            self.registers(*old(registrar), *final(registrar)),
    ;
}

/// An integer variable: a handle to its domain.
pub struct IntVar<Dom, Store, Registrar> {
    domain: DomainId<Dom>,
    store: PhantomData<Store>,
    registrar: PhantomData<Registrar>,
}

impl<Dom, Store, Registrar> IntVar<Dom, Store, Registrar> {
    /// The domain of the variable.
    pub closed spec fn domain_spec(&self) -> DomainId<Dom> {
        self.domain
    }

    /// The variable of the domain.
    pub fn from_domain(domain: DomainId<Dom>) -> (var: Self)
        ensures
            var.domain_spec() == domain,
    {
        IntVar { domain, store: PhantomData, registrar: PhantomData }
    }

    /// The domain of the variable.
    pub fn domain(&self) -> (domain: DomainId<Dom>)
        ensures
            domain == self.domain_spec(),
    {
        self.domain
    }
}

impl<Dom, Store, Registrar> Clone for IntVar<Dom, Store, Registrar> {
    fn clone(&self) -> (copy: Self)
        ensures
            copy.domain_spec() == self.domain_spec(),
    {
        IntVar::from_domain(self.domain)
    }
}

impl<Dom, Store, Registrar> Copy for IntVar<Dom, Store, Registrar> {

}

impl<Registrar> Variable<Domains> for IntVar<BitSetDomain, Domains, Registrar> {
    open spec fn contains(&self, store: &Domains, value: int) -> bool {
        store.domains_spec()[self.domain_spec().index_spec() as int].contains(value)
    }

    open spec fn size_spec(&self, store: &Domains) -> nat {
        store.domains_spec()[self.domain_spec().index_spec() as int].size_spec()
    }

    open spec fn min_spec(&self, store: &Domains) -> i64 {
        store.domains_spec()[self.domain_spec().index_spec() as int].min_spec()
    }

    open spec fn max_spec(&self, store: &Domains) -> i64 {
        store.domains_spec()[self.domain_spec().index_spec() as int].max_spec()
    }

    open spec fn var_wf(&self, store: &Domains) -> bool {
        store.store_wf() && self.domain_spec().index_spec() < store.domains_spec().len()
    }

    proof fn lemma_shrink(&self, s1: &Domains, s2: &Domains) {
    }

    proof fn lemma_variable(&self, store: &Domains) {
        store.lemma_store_wf(self.domain_spec().index_spec());
        store.domains_spec()[self.domain_spec().index_spec() as int].lemma_domain();
    }

    fn min(&self, store: &Domains) -> (min: i64) {
        store.read(self.domain).min()
    }

    fn max(&self, store: &Domains) -> (max: i64) {
        store.read(self.domain).max()
    }

    fn size(&self, store: &Domains) -> (size: usize) {
        store.read(self.domain).size()
    }

    fn fixed_value(&self, store: &Domains) -> (value: Option<i64>) {
        proof {
            store.lemma_store_wf(self.domain_spec().index_spec());
        }
        store.read(self.domain).fixed_value()
    }

    fn remove(&self, store: &mut Domains, value: &i64) -> (nonempty: bool) {
        store.change(self.domain, DomainChange::Remove, value)
    }

    fn set_min(&self, store: &mut Domains, value: &i64) -> (nonempty: bool) {
        store.change(self.domain, DomainChange::SetMin, value)
    }

    fn set_max(&self, store: &mut Domains, value: &i64) -> (nonempty: bool) {
        store.change(self.domain, DomainChange::SetMax, value)
    }

    fn fix(&self, store: &mut Domains, value: &i64) -> (nonempty: bool) {
        store.change(self.domain, DomainChange::Fix, value)
    }
}

impl<Dom, Store, Registrar: RegistrationContext<Dom>> Register<Registrar> for IntVar<Dom, Store, Registrar> {
    /// The domain of the variable is added to the registered domains.
    open spec fn registers(&self, before: Registrar, after: Registrar) -> bool {
        after.registered() == before.registered().push(self.domain_spec().global_spec())
    }

    fn register(&self, registrar: &mut Registrar) {
        registrar.register(self.domain);
    }
}

impl<Dom, Store, Registrar> From<DomainId<Dom>> for IntVar<Dom, Store, Registrar> {
    fn from(value: DomainId<Dom>) -> (var: Self)
        ensures
            var.domain_spec() == value,
    {
        IntVar::from_domain(value)
    }
}

impl<Dom, Store, Registrar> vstd::std_specs::convert::FromSpecImpl<DomainId<Dom>> for IntVar<Dom, Store, Registrar> {
    open spec fn obeys_from_spec() -> bool {
        false
    }

    open spec fn from_spec(v: DomainId<Dom>) -> Self {
        choose|var: Self| var.domain_spec() == v
    }
}

} // verus!
