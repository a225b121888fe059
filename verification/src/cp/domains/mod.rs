//! Domains of integer variables, and the store that holds them.
pub mod bitset;
pub mod store;

pub use bitset::{BitSetDomain, BitSetV};
pub use store::{DomainChange, DomainId, DomainRef, DomainRefMut, DomainStore, Domains, GlobalDomainId};

use vstd::prelude::*;

verus! {

/// A domain describes the possible set of values for a variable. Domains are finite, so each
/// nonempty domain has an upper and lower bound.
pub trait Domain {
    /// Whether the value is in the domain.
    spec fn contains(&self, value: int) -> bool;

    /// The number of values in the domain.
    spec fn size_spec(&self) -> nat;

    /// The lower bound of a nonempty domain.
    spec fn min_spec(&self) -> i64;

    /// The upper bound of a nonempty domain.
    spec fn max_spec(&self) -> i64;

    /// The domain is consistent: a nonempty domain holds its bounds and nothing outside them, an
    /// empty one holds nothing, and a domain of size one holds only its lower bound.
    spec fn domain_wf(&self) -> bool;

    /// What a consistent domain holds: its bounds when nonempty, nothing outside them, and only
    /// its lower bound when its size is one.
    proof fn lemma_domain(&self)
        requires
            self.domain_wf(),
        ensures
            self.size_spec() > 0 ==> self.contains(self.min_spec() as int) && self.contains(self.max_spec() as int),
            forall|v: int| #[trigger] self.contains(v) ==> self.size_spec() > 0 && self.min_spec() <= v <= self.max_spec(),
            self.size_spec() == 1 ==> forall|v: int| #[trigger] self.contains(v) <==> v == self.min_spec(),
            self.size_spec() > 1 ==> self.min_spec() < self.max_spec(),
    ;

    /// If the domain is singleton, return the value. Otherwise, return [`None`].
    fn fixed_value(&self) -> (value: Option<i64>)
        requires
            self.domain_wf(),
        ensures
            value == if self.size_spec() == 1 { Some(self.min_spec()) } else { None::<i64> },
    ;

    /// The lower bound of the domain.
    fn min(&self) -> (min: i64)
        ensures
            min == self.min_spec(),
    ;

    /// The upper bound of the domain.
    fn max(&self) -> (max: i64)
        ensures
            max == self.max_spec(),
    ;

    /// The number of elements in the domain. This is at most the difference between the upper and
    /// lower bound, but elements in between might be missing.
    fn size(&self) -> (size: usize)
        ensures
            size == self.size_spec(),
    ;
}

/// A domain whose values can be removed.
pub trait DomainMut: Domain {
    /// Remove a value from this domain. If the domain becomes empty, false is returned. Otherwise,
    /// true is returned.
    fn remove(&mut self, value: &i64) -> (nonempty: bool)
        requires
            old(self).domain_wf(),
        ensures
            final(self).domain_wf(),
            forall|v: int| #[trigger] final(self).contains(v) == (old(self).contains(v) && v != *value),
            nonempty == (final(self).size_spec() > 0),
            final(self).size_spec() <= old(self).size_spec(),
            final(self).size_spec() == old(self).size_spec() - if old(self).contains(*value as int) { 1int } else { 0int },
    ;

    /// Remove all values above the provided value, such that it is the upper bound of the domain.
    fn set_max(&mut self, value: &i64) -> (nonempty: bool)
        requires
            old(self).domain_wf(),
        ensures
            final(self).domain_wf(),
            forall|v: int| #[trigger] final(self).contains(v) == (old(self).contains(v) && v <= *value),
            nonempty == (final(self).size_spec() > 0),
            final(self).size_spec() <= old(self).size_spec(),
    ;

    /// Remove all values below the provided value, such that it is the lower bound of the domain.
    fn set_min(&mut self, value: &i64) -> (nonempty: bool)
        requires
            old(self).domain_wf(),
        ensures
            final(self).domain_wf(),
            forall|v: int| #[trigger] final(self).contains(v) == (old(self).contains(v) && v >= *value),
            nonempty == (final(self).size_spec() > 0),
            final(self).size_spec() <= old(self).size_spec(),
    ;

    /// Remove every value but the provided one.
    fn fix(&mut self, value: &i64) -> (nonempty: bool)
        requires
            old(self).domain_wf(),
        ensures
            final(self).domain_wf(),
            forall|v: int| #[trigger] final(self).contains(v) == (old(self).contains(v) && v == *value),
            nonempty == (final(self).size_spec() > 0),
            final(self).size_spec() <= old(self).size_spec(),
    ;
}

} // verus!
