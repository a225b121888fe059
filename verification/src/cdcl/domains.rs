//! Variable domains and the stores that hold them.
use std::marker::PhantomData;
use vstd::prelude::*;

use super::clause::{ClauseDb, ClauseRef};
use super::lit::Lit;
use super::propagation::{explained_clause, explanation_clause, Explanation};
use super::storage::Indexer;

verus! {

/// A domain of a variable.
pub trait Domain {
    /// The event type this domain produces when it is mutated.
    type ProducedEvent;
}

/// The identifier of a domain, whatever its type.
#[derive(Clone, Copy, Debug, PartialEq, Eq)]
pub struct UntypedDomainId(usize);

impl UntypedDomainId {
    /// The number of the identifier.
    pub closed spec fn id_spec(self) -> nat {
        self.0 as nat
    }
}

impl Indexer for UntypedDomainId {
    open spec fn index_spec(&self) -> nat {
        self.id_spec()
    }

    fn index(&self) -> (idx: usize) {
        self.0
    }
}

/// Hands out domain identifiers, each one once.
#[derive(Default)]
pub struct GlobalDomainIdPool(usize);

impl GlobalDomainIdPool {
    /// The number of identifiers handed out so far.
    pub closed spec fn issued(&self) -> nat {
        self.0 as nat
    }

    /// A pool that has handed out nothing.
    pub fn new() -> (pool: GlobalDomainIdPool)
        ensures
            pool.issued() == 0,
    {
        GlobalDomainIdPool(0)
    }

    /// The next identifier: the number of identifiers handed out before it.
    pub fn next_id(&mut self) -> (id: UntypedDomainId)
        requires
            old(self).issued() < usize::MAX,
        ensures
            id.id_spec() == old(self).issued(),
            final(self).issued() == old(self).issued() + 1,
    {
        let id = UntypedDomainId(self.0);
        self.0 = self.0 + 1;
        id
    }
}

/// The identifier of a domain of a given type.
pub struct DomainId<Domain> {
    domain: PhantomData<Domain>,
    pub untyped_id: UntypedDomainId,
    index: usize,
}

impl<Domain> DomainId<Domain> {
    /// The position of the domain in its store.
    pub closed spec fn index_spec(&self) -> nat {
        self.index as nat
    }

    /// The untyped identifier of the domain.
    pub closed spec fn untyped_spec(&self) -> UntypedDomainId {
        self.untyped_id
    }
}

impl<Domain> DomainId<Domain> {
    /// The position of the domain in its store.
    pub fn index(&self) -> (index: usize)
        ensures
            index == self.index_spec(),
    {
        self.index
    }
}

impl<Domain> Clone for DomainId<Domain> {
    fn clone(&self) -> (id: Self)
        ensures
            id == *self,
    {
        DomainId { domain: PhantomData, untyped_id: self.untyped_id, index: self.index }
    }
}

impl<Domain> Copy for DomainId<Domain> {

}

/// A store of domains of one type.
pub trait DomainStore<Domain> {
    /// The domains of the store, by position.
    spec fn domains_spec(&self) -> Seq<Domain>;

    /// Put a domain into the store, returning its identifier.
    fn allocate(&mut self, untyped_id: UntypedDomainId, domain: Domain) -> (id: DomainId<Domain>)
        requires
            old(self).domains_spec().len() < usize::MAX,
        ensures
            final(self).domains_spec() == old(self).domains_spec().push(domain),
            id.untyped_spec() == untyped_id,
            id.index_spec() == old(self).domains_spec().len(),
    ;

    /// The domain with the given identifier.
    fn read(&self, id: DomainId<Domain>) -> (domain: &Domain)
        requires
            id.index_spec() < self.domains_spec().len(),
        ensures
            *domain == self.domains_spec()[id.index_spec() as int],
    ;
}

/// A store holding domains of a single type.
pub struct TypedDomainStore<Domain> {
    domains: Vec<Domain>,
}

impl<Domain> TypedDomainStore<Domain> {
    /// The number of domains in the store.
    pub fn len(&self) -> (len: usize)
        ensures
            len == self.domains_spec().len(),
    {
        self.domains.len()
    }
}

impl<Domain> Default for TypedDomainStore<Domain> {
    fn default() -> (store: Self)
        ensures
            store.domains_spec() == Seq::<Domain>::empty(),
    {
        TypedDomainStore { domains: Vec::new() }
    }
}

impl<Domain> DomainStore<Domain> for TypedDomainStore<Domain> {
    closed spec fn domains_spec(&self) -> Seq<Domain> {
        self.domains@
    }

    fn allocate(&mut self, untyped_id: UntypedDomainId, domain: Domain) -> (id: DomainId<Domain>) {
        self.domains.push(domain);
        DomainId { domain: PhantomData, untyped_id, index: self.domains.len() - 1 }
    }

    fn read(&self, id: DomainId<Domain>) -> (domain: &Domain) {
        &self.domains[id.index]
    }
}

/// A conflict found during propagation: a clause whose literals are all false, or a literal that
/// a propagator wanted to make true while it is false.
#[derive(Clone, Debug)]
pub enum Conflict {
    Clause(ClauseRef),
    Propagator { lit: Lit, explanation: Explanation },
}

impl Conflict {
    /// The clause which is violated.
    pub open spec fn clause_spec(self, clauses: ClauseDb) -> Seq<Lit> {
        match self {
            Conflict::Clause(clause_ref) => clauses.clause(clause_ref),
            Conflict::Propagator { lit, explanation } => explanation_clause(lit, explanation@),
        }
    }

    /// The literals of the violated clause.
    pub fn lits(&self, clauses: &ClauseDb) -> (lits: Vec<Lit>)
        requires
            *self matches Conflict::Clause(clause_ref) ==> clauses.contains(clause_ref),
        ensures
            lits@ == self.clause_spec(*clauses),
    {
        match self {
            Conflict::Clause(clause_ref) => {
                let n = clauses.clause_len(*clause_ref);
                let mut out: Vec<Lit> = Vec::new();
                let mut i: usize = 0;
                while i < n
                    invariant
                        i <= n,
                        n == clauses.clause(*clause_ref).len(),
                        clauses.contains(*clause_ref),
                        out@ == clauses.clause(*clause_ref).subrange(0, i as int),
                    decreases n - i,
                {
                    out.push(clauses.lit(*clause_ref, i));
                    i = i + 1;
                    proof {
                        assert(out@ =~= clauses.clause(*clause_ref).subrange(0, i as int));
                    }
                }
                proof {
                    assert(clauses.clause(*clause_ref).subrange(0, n as int) =~= clauses.clause(
                        *clause_ref,
                    ));
                }
                out
            },
            Conflict::Propagator { lit, explanation } => explained_clause(*lit, explanation),
        }
    }
}

impl From<ClauseRef> for Conflict {
    fn from(clause: ClauseRef) -> (conflict: Conflict) {
        Conflict::Clause(clause)
    }
}

impl vstd::std_specs::convert::FromSpecImpl<ClauseRef> for Conflict {
    open spec fn obeys_from_spec() -> bool {
        true
    }

    open spec fn from_spec(v: ClauseRef) -> Conflict {
        Conflict::Clause(v)
    }
}

} // verus!
