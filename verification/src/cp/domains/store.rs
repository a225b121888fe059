//! The store that holds the domains, saves and restores their state, and records which domains
//! shrank.
use std::marker::PhantomData;

use vstd::prelude::*;

use crate::cp::keyed_idx_vec::Key;

use super::{BitSetDomain, BitSetV, Domain, DomainMut};

verus! {

/// A handle to a domain.
pub struct DomainId<Dom> {
    index: usize,
    global_id: GlobalDomainId,
    dom: PhantomData<Dom>,
}

/// The number that identifies a domain among all domains.
#[derive(Debug, Clone, Copy, PartialEq, Eq, Structural)]
pub struct GlobalDomainId(usize);

impl GlobalDomainId {
    /// The identifier with the given number.
    pub fn from_index(index: usize) -> (id: GlobalDomainId)
        ensures
            id.index_spec() == index,
    {
        GlobalDomainId(index)
    }

    /// The number of the identifier.
    pub closed spec fn index_spec(self) -> nat {
        self.0 as nat
    }

    /// The number of the identifier.
    pub fn index(self) -> (index: usize)
        ensures
            index == self.index_spec(),
    {
        self.0
    }
}

impl Key for GlobalDomainId {
    open spec fn key_spec(&self) -> nat {
        self.index_spec()
    }

    fn to_index(&self) -> (index: usize) {
        self.0
    }
}

impl<Dom> DomainId<Dom> {
    /// The position of the domain in the store.
    pub closed spec fn index_spec(&self) -> nat {
        self.index as nat
    }

    /// The global identifier of the domain.
    pub closed spec fn global_spec(&self) -> GlobalDomainId {
        self.global_id
    }

    /// The position of the domain in the store.
    pub fn index(&self) -> (index: usize)
        ensures
            index == self.index_spec(),
    {
        self.index
    }

    /// The global identifier of the domain.
    pub fn global_id(&self) -> (id: GlobalDomainId)
        ensures
            id == self.global_spec(),
    {
        self.global_id
    }
}

impl<Dom> Clone for DomainId<Dom> {
    fn clone(&self) -> (copy: Self)
        ensures
            copy == *self,
    {
        DomainId { index: self.index, global_id: self.global_id, dom: PhantomData }
    }
}

impl<Dom> Copy for DomainId<Dom> {

}

/// The domains of the variables, with the states saved to backtrack to, and the domains that
/// shrank since the last time they were drained.
pub struct Domains {
    bitsets: Vec<BitSetDomain>,
    history: Vec<Vec<BitSetDomain>>,
    next_global_id: usize,
    updated_domains: Vec<GlobalDomainId>,
}

/// The views of the domains.
pub open spec fn views_of(domains: Seq<BitSetDomain>) -> Seq<BitSetV> {
    domains.map_values(|d: BitSetDomain| d@)
}

/// A domain store is a container of domains. Once domains have been allocated to the store, they
/// can be retrieved with their ID.
pub trait DomainStore<Dom: Domain> {
    /// The domains, by position.
    spec fn domains_spec(&self) -> Seq<Dom>;

    /// The store is consistent: every domain in it is.
    spec fn store_wf(&self) -> bool;

    /// Another domain fits into the store.
    spec fn has_room(&self) -> bool;

    /// Allocate a new domain into the store.
    fn allocate(&mut self, domain: Dom) -> (id: DomainId<Dom>)
        requires
            old(self).store_wf(),
            old(self).has_room(),
            domain.domain_wf(),
        ensures
            final(self).store_wf(),
            final(self).domains_spec() == old(self).domains_spec().push(domain),
            id.index_spec() == old(self).domains_spec().len(),
    ;

    /// Get the domain from the store.
    fn read(&self, id: DomainId<Dom>) -> (domain: DomainRef<'_, Dom>)
        requires
            self.store_wf(),
            id.index_spec() < self.domains_spec().len(),
        ensures
            *domain.inner == self.domains_spec()[id.index_spec() as int],
    ;
}

/// A change to a domain, with a value.
#[derive(Debug, Clone, Copy, PartialEq, Eq, Structural)]
pub enum DomainChange {
    /// Remove the value.
    Remove,
    /// Remove the values below the value.
    SetMin,
    /// Remove the values above the value.
    SetMax,
    /// Remove every other value.
    Fix,
}

impl DomainChange {
    /// Whether the change keeps `v`, given the value.
    pub open spec fn keeps(self, v: int, value: i64) -> bool {
        match self {
            DomainChange::Remove => v != value,
            DomainChange::SetMin => v >= value,
            DomainChange::SetMax => v <= value,
            DomainChange::Fix => v == value,
        }
    }
}

/// A domain of the store, to read.
pub struct DomainRef<'dom, Dom> {
    pub inner: &'dom Dom,
}

/// A domain of the store, to change; it records the domain as updated when it shrinks.
pub struct DomainRefMut<'dom, Dom> {
    pub inner: &'dom mut Dom,
    pub events: &'dom mut Vec<GlobalDomainId>,
    pub global_id: GlobalDomainId,
}

impl Domains {
    /// A store without domains.
    pub fn new() -> (store: Domains)
        ensures
            store.allocated() == 0,
            store.store_wf(),
            store.domains_spec().len() == 0,
            store.saved().len() == 0,
            store.updated().len() == 0,
    {
        Domains { bitsets: Vec::new(), history: Vec::new(), next_global_id: 0, updated_domains: Vec::new() }
    }

    /// Stores whose domains have the same views hold the same values.
    pub proof fn lemma_same_views(&self, other: &Domains)
        requires
            views_of(self.domains_spec()) == views_of(other.domains_spec()),
        ensures
            self.domains_spec().len() == other.domains_spec().len(),
            forall|i: int, v: int| 0 <= i < self.domains_spec().len() ==> (#[trigger] self.domains_spec()[i].contains(v) == other.domains_spec()[i].contains(v)),
    {
        assert(views_of(self.domains_spec()).len() == self.domains_spec().len());
        assert(views_of(other.domains_spec()).len() == other.domains_spec().len());
        assert forall|i: int, v: int| 0 <= i < self.domains_spec().len() implies (#[trigger] self.domains_spec()[i].contains(v) == other.domains_spec()[i].contains(v)) by {
            assert(views_of(self.domains_spec())[i] == self.domains_spec()[i]@);
            assert(views_of(other.domains_spec())[i] == other.domains_spec()[i]@);
            super::bitset::lemma_same_view(&self.domains_spec()[i], &other.domains_spec()[i]);
        }
    }

    /// The number of domains.
    pub fn num_domains(&self) -> (n: usize)
        ensures
            n == self.domains_spec().len(),
    {
        self.bitsets.len()
    }

    /// The saved states, oldest first, as views of their domains.
    pub closed spec fn saved(&self) -> Seq<Seq<BitSetV>> {
        self.history@.map_values(|s: Vec<BitSetDomain>| views_of(s@))
    }

    /// The domains that shrank since they were last drained.
    pub closed spec fn updated(&self) -> Seq<GlobalDomainId> {
        self.updated_domains@
    }

    /// The number of domains allocated so far.
    pub closed spec fn allocated(&self) -> nat {
        self.next_global_id as nat
    }

    /// Save the current state to backtrack to later.
    pub fn push(&mut self)
        requires
            old(self).store_wf(),
        ensures
            final(self).store_wf(),
            final(self).domains_spec() == old(self).domains_spec(),
            final(self).saved() == old(self).saved().push(views_of(old(self).domains_spec())),
            final(self).updated() == old(self).updated(),
            final(self).allocated() == old(self).allocated(),
    {
        let mut copy: Vec<BitSetDomain> = Vec::new();
        let mut i: usize = 0;
        while i < self.bitsets.len()
            invariant
                i <= self.bitsets@.len(),
                views_of(copy@) == views_of(self.bitsets@.subrange(0, i as int)),
                forall|k: int| 0 <= k < copy@.len() ==> (#[trigger] copy@[k]).domain_wf(),
                forall|k: int| 0 <= k < self.bitsets@.len() ==> (#[trigger] self.bitsets@[k]).domain_wf(),
            decreases self.bitsets@.len() - i,
        {
            let d = self.bitsets[i].duplicate();
            proof {
                assert(views_of(copy@.push(d)) =~= views_of(copy@).push(d@));
                assert(views_of(self.bitsets@.subrange(0, i + 1)) =~= views_of(self.bitsets@.subrange(0, i as int)).push(self.bitsets@[i as int]@));
                assert(d.domain_wf() == self.bitsets@[i as int].domain_wf());
            }
            copy.push(d);
            i = i + 1;
        }
        assert(self.bitsets@.subrange(0, i as int) =~= self.bitsets@);
        let ghost old_history = self.history@;
        self.history.push(copy);
        proof {
            assert(self.history@.map_values(|s: Vec<BitSetDomain>| views_of(s@)) =~= old_history.map_values(
                |s: Vec<BitSetDomain>| views_of(s@),
            ).push(views_of(old(self).bitsets@)));
        }
    }

    /// Return to the previously saved state.
    pub fn pop(&mut self)
        requires
            old(self).store_wf(),
        ensures
            final(self).store_wf(),
            old(self).saved().len() > 0 ==> {
                &&& views_of(final(self).domains_spec()) == old(self).saved().last()
                &&& final(self).saved() == old(self).saved().drop_last()
            },
            old(self).saved().len() == 0 ==> final(self).domains_spec() == old(self).domains_spec()
                && final(self).saved() == old(self).saved(),
            final(self).updated() == old(self).updated(),
            final(self).allocated() == old(self).allocated(),
    {
        let ghost old_history = self.history@;
        match self.history.pop() {
            Some(bitsets) => {
                proof {
                    assert(self.history@ =~= old_history.drop_last());
                    assert(self.history@.map_values(|s: Vec<BitSetDomain>| views_of(s@)) =~= old_history.map_values(
                        |s: Vec<BitSetDomain>| views_of(s@),
                    ).drop_last());
                }
                self.bitsets = bitsets;
            },
            None => {},
        }
    }

    /// Take the domains that shrank since the last time.
    pub fn drain_updated_domains(&mut self) -> (updated: Vec<GlobalDomainId>)
        requires
            old(self).store_wf(),
        ensures
            final(self).store_wf(),
            updated@ == old(self).updated(),
            final(self).updated().len() == 0,
            final(self).domains_spec() == old(self).domains_spec(),
            final(self).saved() == old(self).saved(),
            final(self).allocated() == old(self).allocated(),
    {
        let mut updated: Vec<GlobalDomainId> = Vec::new();
        std::mem::swap(&mut updated, &mut self.updated_domains);
        updated
    }

    /// The two stores saved the same states.
    pub closed spec fn same_history(&self, other: Domains) -> bool {
        self.history == other.history
    }

    /// Every domain of a consistent store is consistent.
    pub proof fn lemma_store_wf(&self, i: nat)
        requires
            self.store_wf(),
            i < self.domains_spec().len(),
        ensures
            self.domains_spec()[i as int].domain_wf(),
    {
    }

    /// Changing a domain of a consistent store into a consistent one keeps the store consistent.
    pub proof fn lemma_store_update(&self, before: Domains, i: nat)
        requires
            before.store_wf(),
            i < before.domains_spec().len(),
            self.domains_spec() == before.domains_spec().update(i as int, self.domains_spec()[i as int]),
            self.domains_spec()[i as int].domain_wf(),
            self.same_history(before),
        ensures
            self.store_wf(),
    {
        assert forall|k: int| 0 <= k < self.bitsets@.len() implies (#[trigger] self.bitsets@[k]).domain_wf() by {
            if k != i {
                assert(self.bitsets@[k] == before.bitsets@[k]);
            }
        }
    }

    /// Change the domain with the identifier; the domain is recorded as updated when it shrank and
    /// is not empty. Returns whether the domain is not empty.
    pub fn change(&mut self, id: DomainId<BitSetDomain>, change: DomainChange, value: &i64) -> (nonempty: bool)
        requires
            old(self).store_wf(),
            id.index_spec() < old(self).domains_spec().len(),
        ensures
            final(self).store_wf(),
            final(self).domains_spec().len() == old(self).domains_spec().len(),
            forall|k: int| 0 <= k < old(self).domains_spec().len() && k != id.index_spec() ==> final(self).domains_spec()[k] == old(self).domains_spec()[k],
            forall|v: int| #[trigger] final(self).domains_spec()[id.index_spec() as int].contains(v) == (old(self).domains_spec()[id.index_spec() as int].contains(v) && change.keeps(v, *value)),
            nonempty == (final(self).domains_spec()[id.index_spec() as int].size_spec() > 0),
            final(self).updated() == events_after(old(self).updated(), id.global_spec(), old(self).domains_spec()[id.index_spec() as int].size_spec(), final(self).domains_spec()[id.index_spec() as int].size_spec()),
            final(self).saved() == old(self).saved(),
            final(self).allocated() == old(self).allocated(),
    {
        let i = id.index;
        let old_size = self.bitsets[i].size();
        let nonempty = match change {
            DomainChange::Remove => self.bitsets[i].remove(value),
            DomainChange::SetMin => self.bitsets[i].set_min(value),
            DomainChange::SetMax => self.bitsets[i].set_max(value),
            DomainChange::Fix => self.bitsets[i].fix(value),
        };
        if nonempty && old_size > self.bitsets[i].size() {
            self.updated_domains.push(id.global_id);
        }
        proof {
            assert forall|k: int| 0 <= k < self.bitsets@.len() implies (#[trigger] self.bitsets@[k]).domain_wf() by {
                if k != i {
                    assert(self.bitsets@[k] == old(self).bitsets@[k]);
                }
            }
        }
        nonempty
    }

    /// Get the domain from the store, to change it.
    pub fn read_mut(&mut self, id: DomainId<BitSetDomain>) -> (domain: DomainRefMut<'_, BitSetDomain>)
        requires
            old(self).store_wf(),
            id.index_spec() < old(self).domains_spec().len(),
        ensures
            *domain.inner == old(self).domains_spec()[id.index_spec() as int],
            (*domain.events)@ == old(self).updated(),
            domain.global_id == id.global_spec(),
            final(self).domains_spec() == old(self).domains_spec().update(id.index_spec() as int, *final(domain.inner)),
            final(self).updated() == (*final(domain.events))@,
            final(self).saved() == old(self).saved(),
            final(self).allocated() == old(self).allocated(),
            final(self).same_history(*old(self)),
    {
        DomainRefMut {
            inner: &mut self.bitsets[id.index],
            events: &mut self.updated_domains,
            global_id: id.global_id,
        }
    }
}

impl Default for Domains {
    fn default() -> (store: Domains)
        ensures
            store.allocated() == 0,
            store.store_wf(),
            store.domains_spec().len() == 0,
            store.saved().len() == 0,
            store.updated().len() == 0,
    {
        Domains::new()
    }
}

impl DomainStore<BitSetDomain> for Domains {
    closed spec fn domains_spec(&self) -> Seq<BitSetDomain> {
        self.bitsets@
    }

    closed spec fn store_wf(&self) -> bool {
        &&& forall|k: int| 0 <= k < self.bitsets@.len() ==> (#[trigger] self.bitsets@[k]).domain_wf()
        &&& forall|h: int, k: int| 0 <= h < self.history@.len() && 0 <= k < self.history@[h]@.len() ==> (
        #[trigger] self.history@[h]@[k]).domain_wf()
    }

    open spec fn has_room(&self) -> bool {
        self.allocated() < usize::MAX
    }

    fn allocate(&mut self, domain: BitSetDomain) -> (id: DomainId<BitSetDomain>)
        ensures
            final(self).saved() == old(self).saved(),
            final(self).updated() == old(self).updated(),
            final(self).allocated() == old(self).allocated() + 1,
            id.global_spec().index_spec() == final(self).allocated(),
    {
        self.bitsets.push(domain);
        self.next_global_id = self.next_global_id + 1;
        DomainId { index: self.bitsets.len() - 1, global_id: GlobalDomainId(self.next_global_id), dom: PhantomData }
    }

    fn read(&self, id: DomainId<BitSetDomain>) -> (domain: DomainRef<'_, BitSetDomain>) {
        DomainRef { inner: &self.bitsets[id.index] }
    }
}

impl<'dom, Dom: Domain> Domain for DomainRef<'dom, Dom> {
    open spec fn contains(&self, value: int) -> bool {
        self.inner.contains(value)
    }

    open spec fn size_spec(&self) -> nat {
        self.inner.size_spec()
    }

    open spec fn min_spec(&self) -> i64 {
        self.inner.min_spec()
    }

    open spec fn max_spec(&self) -> i64 {
        self.inner.max_spec()
    }

    open spec fn domain_wf(&self) -> bool {
        self.inner.domain_wf()
    }

    proof fn lemma_domain(&self) {
        self.inner.lemma_domain();
    }

    fn fixed_value(&self) -> (value: Option<i64>) {
        self.inner.fixed_value()
    }

    fn min(&self) -> (min: i64) {
        self.inner.min()
    }

    fn max(&self) -> (max: i64) {
        self.inner.max()
    }

    fn size(&self) -> (size: usize) {
        self.inner.size()
    }
}

impl<'dom, Dom: Domain> Domain for DomainRefMut<'dom, Dom> {
    open spec fn contains(&self, value: int) -> bool {
        self.inner.contains(value)
    }

    open spec fn size_spec(&self) -> nat {
        self.inner.size_spec()
    }

    open spec fn min_spec(&self) -> i64 {
        self.inner.min_spec()
    }

    open spec fn max_spec(&self) -> i64 {
        self.inner.max_spec()
    }

    open spec fn domain_wf(&self) -> bool {
        self.inner.domain_wf()
    }

    proof fn lemma_domain(&self) {
        self.inner.lemma_domain();
    }

    fn fixed_value(&self) -> (value: Option<i64>) {
        self.inner.fixed_value()
    }

    fn min(&self) -> (min: i64) {
        self.inner.min()
    }

    fn max(&self) -> (max: i64) {
        self.inner.max()
    }

    fn size(&self) -> (size: usize) {
        self.inner.size()
    }
}

/// The events after a change: the domain is recorded when it shrank and is not empty.
pub open spec fn events_after(events: Seq<GlobalDomainId>, id: GlobalDomainId, old_size: nat, new_size: nat) -> Seq<GlobalDomainId> {
    if new_size > 0 && new_size < old_size {
        events.push(id)
    } else {
        events
    }
}

impl<'dom, Dom: DomainMut> DomainRefMut<'dom, Dom> {
    /// Record the domain as updated when it shrank and is not empty.
    fn record(&mut self, old_size: usize, nonempty: bool) -> (res: bool)
        requires
            nonempty == (old(self).inner.size_spec() > 0),
        ensures
            res == nonempty,
            *final(self).inner == *old(self).inner,
            final(self).global_id == old(self).global_id,
            (*final(self).events)@ == events_after((*old(self).events)@, old(self).global_id, old_size as nat, old(self).inner.size_spec()),
    {
        if nonempty && old_size > self.inner.size() {
            self.events.push(self.global_id);
        }
        nonempty
    }
}

impl<'dom, Dom: DomainMut> DomainMut for DomainRefMut<'dom, Dom> {
    fn remove(&mut self, value: &i64) -> (nonempty: bool)
        ensures
            final(self).global_id == old(self).global_id,
            (*final(self).events)@ == events_after((*old(self).events)@, old(self).global_id, old(self).size_spec(), final(self).size_spec()),
    {
        let old_size = self.inner.size();
        let nonempty = self.inner.remove(value);
        self.record(old_size, nonempty)
    }

    fn set_max(&mut self, value: &i64) -> (nonempty: bool)
        ensures
            final(self).global_id == old(self).global_id,
            (*final(self).events)@ == events_after((*old(self).events)@, old(self).global_id, old(self).size_spec(), final(self).size_spec()),
    {
        let old_size = self.inner.size();
        let nonempty = self.inner.set_max(value);
        self.record(old_size, nonempty)
    }

    fn set_min(&mut self, value: &i64) -> (nonempty: bool)
        ensures
            final(self).global_id == old(self).global_id,
            (*final(self).events)@ == events_after((*old(self).events)@, old(self).global_id, old(self).size_spec(), final(self).size_spec()),
    {
        let old_size = self.inner.size();
        let nonempty = self.inner.set_min(value);
        self.record(old_size, nonempty)
    }

    fn fix(&mut self, value: &i64) -> (nonempty: bool)
        ensures
            final(self).global_id == old(self).global_id,
            (*final(self).events)@ == events_after((*old(self).events)@, old(self).global_id, old(self).size_spec(), final(self).size_spec()),
    {
        let old_size = self.inner.size();
        let nonempty = self.inner.fix(value);
        self.record(old_size, nonempty)
    }
}

} // verus!
