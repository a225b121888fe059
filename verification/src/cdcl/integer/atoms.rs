//! Statements about the bounds of integer domains.
use vstd::prelude::*;

use crate::cdcl::domains::{DomainId, DomainStore, TypedDomainStore};
use crate::cdcl::lit::Lit;

use super::interval_domain::{literal_index, IntInterval};
use super::Int;

verus! {

/// The statement `[domain >= bound]`.
pub struct AtLeast<Dom> {
    pub domain: DomainId<Dom>,
    pub bound: Int,
}

/// The statement `[domain <= bound]`.
pub struct AtMost<Dom> {
    pub domain: DomainId<Dom>,
    pub bound: Int,
}

impl AtLeast<IntInterval> {
    /// The literal standing for the statement.
    pub fn as_lit(&self, domains: &TypedDomainStore<IntInterval>) -> (lit: Lit)
        requires
            self.domain.index_spec() < domains.domains_spec().len(),
            domains.domains_spec()[self.domain.index_spec() as int].literals_spec().len() > 0,
        ensures
            ({
                let dom = domains.domains_spec()[self.domain.index_spec() as int];
                lit == dom.literals_spec()[literal_index(dom.origin_spec(), dom.literals_spec().len(), self.bound)]
            }),
    {
        let domain = domains.read(self.domain);
        domain.lower_bound_lit(self.bound)
    }
}

impl AtMost<IntInterval> {
    /// The literal standing for the statement.
    pub fn as_lit(&self, domains: &TypedDomainStore<IntInterval>) -> (lit: Lit)
        requires
            self.domain.index_spec() < domains.domains_spec().len(),
            domains.domains_spec()[self.domain.index_spec() as int].literals_spec().len() > 0,
            self.bound < Int::MAX,
        ensures
            ({
                let dom = domains.domains_spec()[self.domain.index_spec() as int];
                lit == dom.literals_spec()[literal_index(dom.origin_spec(), dom.literals_spec().len(), (self.bound + 1) as Int)].negated()
            }),
    {
        let domain = domains.read(self.domain);
        domain.upper_bound_lit(self.bound)
    }
}

} // verus!
