//! What to wake up when a literal becomes false or a domain changes.
use vstd::prelude::*;

use crate::cdcl::clause::ClauseRef;
use crate::cdcl::domains::{DomainId, UntypedDomainId};
use crate::cdcl::integer::interval_domain::IntInterval;
use crate::cdcl::integer::IntEvent;
use crate::cdcl::lit::{group_lit, Lit};
use crate::cdcl::storage::{Indexer, KeyedVec, StaticIndexer};

use super::{LitEvent, LocalId, PropagatorId, PropagatorVar};

verus! {

broadcast use group_lit;

/// A propagator waiting for an event on a domain.
#[derive(Clone, Copy, Debug)]
pub struct PropagatorWatch {
    pub propagator_id: PropagatorId,
    pub local_id: LocalId,
}

/// What to do when a literal becomes false.
#[derive(Clone, Copy, Debug)]
pub enum LitWatch<Event> {
    /// Visit the clause, which watches the literal.
    Clause(ClauseRef),
    /// Enqueue the propagator.
    Propagator { propagator_id: PropagatorId, local_id: LocalId },
    /// Enqueue the propagators waiting for the event of the domain.
    DomainEvent { domain_id: UntypedDomainId, event: Event },
}

impl<Event> From<ClauseRef> for LitWatch<Event> {
    fn from(value: ClauseRef) -> (watch: LitWatch<Event>) {
        LitWatch::Clause(value)
    }
}

impl<Event> vstd::std_specs::convert::FromSpecImpl<ClauseRef> for LitWatch<Event> {
    open spec fn obeys_from_spec() -> bool {
        true
    }

    open spec fn from_spec(v: ClauseRef) -> LitWatch<Event> {
        LitWatch::Clause(v)
    }
}

/// The watches of the literals and of the domain events.
pub struct WatchList<Event> {
    literal_watches: KeyedVec<Lit, Vec<LitWatch<Event>>>,
    domain_event_watches: KeyedVec<Event, Vec<PropagatorWatch>>,
}

/// The watch is one of the given propagator.
pub open spec fn watch_of<Event>(watch: LitWatch<Event>, propagator_id: PropagatorId) -> bool {
    watch matches LitWatch::Propagator { propagator_id: p, .. } && p == propagator_id
}

impl<Event> WatchList<Event> {
    /// For every literal code, what to do when that literal becomes false.
    pub closed spec fn lit_watches(&self) -> Seq<Seq<LitWatch<Event>>> {
        self.literal_watches@.map_values(|v: Vec<LitWatch<Event>>| v@)
    }

    /// For every event, the propagators waiting for it.
    pub closed spec fn event_watches(&self) -> Seq<Seq<PropagatorWatch>> {
        self.domain_event_watches@.map_values(|v: Vec<PropagatorWatch>| v@)
    }

    /// The watch list holds watches for the literal.
    pub open spec fn holds(&self, lit: Lit) -> bool {
        lit.code_spec() < self.lit_watches().len()
    }

    /// `self` is `old` with watches of the given propagator appended, and nothing else.
    pub open spec fn extends_with(&self, old: WatchList<Event>, propagator_id: PropagatorId) -> bool {
        &&& self.lit_watches().len() == old.lit_watches().len()
        &&& self.event_watches().len() == old.event_watches().len()
        &&& forall|i: int, j: int|
            0 <= i < self.lit_watches().len() && 0 <= j < self.lit_watches()[i].len() ==> {
                ||| (j < old.lit_watches()[i].len() && #[trigger] self.lit_watches()[i][j] == old.lit_watches()[i][j])
                ||| watch_of(self.lit_watches()[i][j], propagator_id)
            }
        &&& forall|i: int| 0 <= i < self.lit_watches().len() ==> old.lit_watches()[i].len() <= #[trigger] self.lit_watches()[i].len()
        &&& forall|i: int, j: int|
            0 <= i < self.event_watches().len() && 0 <= j < self.event_watches()[i].len() ==> {
                ||| (j < old.event_watches()[i].len() && #[trigger] self.event_watches()[i][j] == old.event_watches()[i][j])
                ||| self.event_watches()[i][j].propagator_id == propagator_id
            }
    }

    /// A watch list extends itself.
    pub proof fn lemma_extends_refl(&self, propagator_id: PropagatorId)
        ensures
            self.extends_with(*self, propagator_id),
    {
    }

    /// Extending twice with watches of one propagator extends.
    pub proof fn lemma_extends_trans(&self, mid: WatchList<Event>, old: WatchList<Event>, propagator_id: PropagatorId)
        requires
            mid.extends_with(old, propagator_id),
            self.extends_with(mid, propagator_id),
        ensures
            self.extends_with(old, propagator_id),
    {
        assert forall|i: int, j: int|
            0 <= i < self.lit_watches().len() && 0 <= j < self.lit_watches()[i].len() implies {
                ||| (j < old.lit_watches()[i].len() && #[trigger] self.lit_watches()[i][j] == old.lit_watches()[i][j])
                ||| watch_of(self.lit_watches()[i][j], propagator_id)
            } by {
            if j < mid.lit_watches()[i].len() && self.lit_watches()[i][j] == mid.lit_watches()[i][j] {
                assert(mid.lit_watches()[i][j] == mid.lit_watches()[i][j]);
            }
        }
        assert forall|i: int| 0 <= i < self.lit_watches().len() implies old.lit_watches()[i].len() <= #[trigger] self.lit_watches()[i].len() by {
            assert(old.lit_watches()[i].len() <= mid.lit_watches()[i].len());
        }
        assert forall|i: int, j: int|
            0 <= i < self.event_watches().len() && 0 <= j < self.event_watches()[i].len() implies {
                ||| (j < old.event_watches()[i].len() && #[trigger] self.event_watches()[i][j] == old.event_watches()[i][j])
                ||| self.event_watches()[i][j].propagator_id == propagator_id
            } by {
            if j < mid.event_watches()[i].len() && self.event_watches()[i][j] == mid.event_watches()[i][j] {
                assert(mid.event_watches()[i][j] == mid.event_watches()[i][j]);
            }
        }
    }

    /// Make room for the watches of every literal up to the given one; new literals watch
    /// nothing.
    pub fn grow_to(&mut self, lit: Lit)
        requires
            lit.code_spec() < usize::MAX,
        ensures
            final(self).lit_watches().len() == if old(self).lit_watches().len() > lit.code_spec() {
                old(self).lit_watches().len()
            } else {
                (lit.code_spec() + 1) as nat
            },
            forall|i: int| 0 <= i < final(self).lit_watches().len() ==> #[trigger] final(self).lit_watches()[i]
                == if i < old(self).lit_watches().len() {
                old(self).lit_watches()[i]
            } else {
                Seq::<LitWatch<Event>>::empty()
            },
            final(self).event_watches() == old(self).event_watches(),
    {
        let ghost old_w = self.literal_watches@;
        self.literal_watches.grow_to(lit);
        proof {
            assert forall|i: int| 0 <= i < self.lit_watches().len() implies #[trigger] self.lit_watches()[i]
                == if i < old(self).lit_watches().len() {
                old(self).lit_watches()[i]
            } else {
                Seq::<LitWatch<Event>>::empty()
            } by {
                if i < old_w.len() {
                    assert(self.literal_watches@.subrange(0, old_w.len() as int)[i] == old_w[i]);
                }
            }
        }
    }

    /// Add a watch to the literal.
    pub fn add_lit_watch(&mut self, lit: Lit, watch: LitWatch<Event>)
        requires
            old(self).holds(lit),
        ensures
            final(self).lit_watches() == old(self).lit_watches().update(
                lit.code_spec() as int,
                old(self).lit_watches()[lit.code_spec() as int].push(watch),
            ),
            final(self).event_watches() == old(self).event_watches(),
    {
        let mut v = self.literal_watches.replace(lit, Vec::new());
        v.push(watch);
        self.literal_watches.set(lit, v);
        proof {
            assert(self.lit_watches() =~= old(self).lit_watches().update(
                lit.code_spec() as int,
                old(self).lit_watches()[lit.code_spec() as int].push(watch),
            ));
        }
    }

    /// Take out the watches of the literal, leaving none.
    pub fn take(&mut self, lit: Lit) -> (watches: Vec<LitWatch<Event>>)
        requires
            old(self).holds(lit),
        ensures
            watches@ == old(self).lit_watches()[lit.code_spec() as int],
            final(self).lit_watches() == old(self).lit_watches().update(
                lit.code_spec() as int,
                Seq::<LitWatch<Event>>::empty(),
            ),
            final(self).event_watches() == old(self).event_watches(),
    {
        let v = self.literal_watches.replace(lit, Vec::new());
        proof {
            assert(self.lit_watches() =~= old(self).lit_watches().update(
                lit.code_spec() as int,
                Seq::<LitWatch<Event>>::empty(),
            ));
        }
        v
    }
}

impl<Event: Indexer + Copy> WatchList<Event> {
    /// Add a watch for the event.
    pub fn add_event_watch(&mut self, event: Event, watch: PropagatorWatch)
        requires
            event.index_spec() < old(self).event_watches().len(),
        ensures
            final(self).event_watches() == old(self).event_watches().update(
                event.index_spec() as int,
                old(self).event_watches()[event.index_spec() as int].push(watch),
            ),
            final(self).lit_watches() == old(self).lit_watches(),
    {
        let mut v = self.domain_event_watches.replace(event, Vec::new());
        v.push(watch);
        self.domain_event_watches.set(event, v);
        proof {
            assert(self.event_watches() =~= old(self).event_watches().update(
                event.index_spec() as int,
                old(self).event_watches()[event.index_spec() as int].push(watch),
            ));
            assert(self.lit_watches() =~= old(self).lit_watches());
        }
    }

    /// The propagators waiting for the event.
    pub fn watches_of_event(&self, event: Event) -> (watches: &Vec<PropagatorWatch>)
        requires
            event.index_spec() < self.event_watches().len(),
        ensures
            watches@ == self.event_watches()[event.index_spec() as int],
    {
        self.domain_event_watches.get(event)
    }
}

impl<Event: StaticIndexer> WatchList<Event> {
    /// A watch list with no literals, and no watches for any event.
    pub fn new() -> (list: WatchList<Event>)
        ensures
            list.lit_watches() == Seq::<Seq<LitWatch<Event>>>::empty(),
            list.event_watches().len() == Event::len_spec(),
            forall|i: int| 0 <= i < list.event_watches().len() ==> #[trigger] list.event_watches()[i] == Seq::<PropagatorWatch>::empty(),
    {
        let list = WatchList {
            literal_watches: KeyedVec::new(),
            domain_event_watches: KeyedVec::with_static_len(),
        };
        proof {
            assert(list.lit_watches() =~= Seq::<Seq<LitWatch<Event>>>::empty());
            assert forall|i: int| 0 <= i < list.event_watches().len() implies #[trigger] list.event_watches()[i] == Seq::<PropagatorWatch>::empty() by {
                assert(call_ensures(Vec::<PropagatorWatch>::default, (), list.domain_event_watches@[i]));
            }
        }
        list
    }
}

impl<Event: StaticIndexer> Default for WatchList<Event> {
    fn default() -> (list: WatchList<Event>)
        ensures
            list.lit_watches() == Seq::<Seq<LitWatch<Event>>>::empty(),
            list.event_watches().len() == Event::len_spec(),
    {
        WatchList::new()
    }
}

/// Registers the variables a propagator watches, in the watch list it holds while the
/// propagator is being created.
pub struct VariableRegistrar<Event> {
    pub propagator: PropagatorId,
    pub watch_list: WatchList<Event>,
}

impl<Event> VariableRegistrar<Event> {
    /// A registrar for the given propagator.
    pub fn new(propagator: PropagatorId, watch_list: WatchList<Event>) -> (registrar: Self)
        ensures
            registrar.propagator == propagator,
            registrar.watch_list == watch_list,
    {
        VariableRegistrar { propagator, watch_list }
    }

    /// Watch the variable for the event, on behalf of the registrar's propagator.
    pub fn register<Var: Watchable<Event>>(&mut self, variable: Var, local_id: LocalId, event: Var::TypedEvent) -> (var: PropagatorVar<Var>)
        requires
            variable.watchable_in(old(self).watch_list),
        ensures
            final(self).propagator == old(self).propagator,
            final(self).watch_list.extends_with(old(self).watch_list, old(self).propagator),
            variable.watch_added(old(self).watch_list, final(self).watch_list, old(self).propagator, local_id, event),
            var.variable == variable,
            var.local_id == local_id,
    {
        variable.watch(&mut self.watch_list, self.propagator, local_id, event);
        PropagatorVar { variable, local_id }
    }
}

/// Something a propagator can watch.
pub trait Watchable<Event>: Sized {
    /// The events the watched thing produces.
    type TypedEvent;

    /// The watch list has room for the watches of this thing.
    spec fn watchable_in(&self, watch_list: WatchList<Event>) -> bool;

    /// `after` is `before` with the watch of the propagator for the event added to the list
    /// that the event reaches, and nothing else changed.
    spec fn watch_added(&self, before: WatchList<Event>, after: WatchList<Event>, propagator_id: PropagatorId, local_id: LocalId, event: Self::TypedEvent) -> bool;

    /// Register the propagator to be woken up when the event happens.
    fn watch(&self, watch_list: &mut WatchList<Event>, propagator_id: PropagatorId, local_id: LocalId, event: Self::TypedEvent)
        requires
            self.watchable_in(*old(watch_list)),
        ensures
            final(watch_list).extends_with(*old(watch_list), propagator_id),
            self.watch_added(*old(watch_list), *final(watch_list), propagator_id, local_id, event),
    ;
}

impl<Event> Watchable<Event> for Lit {
    type TypedEvent = LitEvent;

    open spec fn watchable_in(&self, watch_list: WatchList<Event>) -> bool {
        watch_list.holds(*self) && watch_list.holds(self.negated())
    }

    /// One propagator watch is appended: to the list of the negation for `FixedTrue`, to the
    /// literal's own list for `FixedFalse`.
    open spec fn watch_added(&self, before: WatchList<Event>, after: WatchList<Event>, propagator_id: PropagatorId, local_id: LocalId, event: LitEvent) -> bool {
        let lit = match event {
            LitEvent::FixedTrue => self.negated(),
            LitEvent::FixedFalse => *self,
        };
        &&& after.lit_watches() == before.lit_watches().update(
            lit.code_spec() as int,
            before.lit_watches()[lit.code_spec() as int].push(LitWatch::Propagator { propagator_id, local_id }),
        )
        &&& after.event_watches() == before.event_watches()
    }

    /// The list of a literal is scanned when that literal becomes false, so the propagator's
    /// watch goes to the list of the negation for `FixedTrue`, of the literal for `FixedFalse`.
    fn watch(&self, watch_list: &mut WatchList<Event>, propagator_id: PropagatorId, local_id: LocalId, event: LitEvent)
        ensures
            ({
                let lit = match event {
                    LitEvent::FixedTrue => self.negated(),
                    LitEvent::FixedFalse => *self,
                };
                let watch = LitWatch::Propagator { propagator_id, local_id };
                final(watch_list).lit_watches() == old(watch_list).lit_watches().update(
                    lit.code_spec() as int,
                    old(watch_list).lit_watches()[lit.code_spec() as int].push(watch),
                )
            }),
            final(watch_list).event_watches() == old(watch_list).event_watches(),
    {
        let watch = LitWatch::Propagator { propagator_id, local_id };
        let lit = match event {
            LitEvent::FixedTrue => core::ops::Not::not(*self),
            LitEvent::FixedFalse => *self,
        };
        watch_list.add_lit_watch(lit, watch);
        proof {
            let new = *watch_list;
            let old = *old(watch_list);
            assert forall|i: int, j: int|
                0 <= i < new.lit_watches().len() && 0 <= j < new.lit_watches()[i].len() implies {
                    ||| (j < old.lit_watches()[i].len() && #[trigger] new.lit_watches()[i][j] == old.lit_watches()[i][j])
                    ||| watch_of(new.lit_watches()[i][j], propagator_id)
                } by {
                if i == lit.code_spec() && j == old.lit_watches()[i].len() {
                    assert(new.lit_watches()[i][j] == watch);
                }
            }
        }
    }
}

impl Watchable<IntEvent> for DomainId<IntInterval> {
    type TypedEvent = IntEvent;

    open spec fn watchable_in(&self, watch_list: WatchList<IntEvent>) -> bool {
        watch_list.event_watches().len() == 2
    }

    /// One propagator watch is appended to the list of the event.
    open spec fn watch_added(&self, before: WatchList<IntEvent>, after: WatchList<IntEvent>, propagator_id: PropagatorId, local_id: LocalId, event: IntEvent) -> bool {
        &&& after.event_watches() == before.event_watches().update(
            event.index_spec() as int,
            before.event_watches()[event.index_spec() as int].push(PropagatorWatch { propagator_id, local_id }),
        )
        &&& after.lit_watches() == before.lit_watches()
    }

    /// The propagator's watch goes to the list of the event.
    fn watch(&self, watch_list: &mut WatchList<IntEvent>, propagator_id: PropagatorId, local_id: LocalId, event: IntEvent)
        ensures
            final(watch_list).event_watches() == old(watch_list).event_watches().update(
                event.index_spec() as int,
                old(watch_list).event_watches()[event.index_spec() as int].push(PropagatorWatch { propagator_id, local_id }),
            ),
            final(watch_list).lit_watches() == old(watch_list).lit_watches(),
    {
        let watch = PropagatorWatch { propagator_id, local_id };
        watch_list.add_event_watch(event, watch);
        proof {
            let new = *watch_list;
            let old = *old(watch_list);
            assert forall|i: int, j: int|
                0 <= i < new.event_watches().len() && 0 <= j < new.event_watches()[i].len() implies {
                    ||| (j < old.event_watches()[i].len() && #[trigger] new.event_watches()[i][j] == old.event_watches()[i][j])
                    ||| new.event_watches()[i][j].propagator_id == propagator_id
                } by {
                if i == event.index_spec() && j == old.event_watches()[i].len() {
                    assert(new.event_watches()[i][j] == watch);
                }
            }
        }
    }
}

} // verus!
