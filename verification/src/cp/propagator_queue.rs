//! The queue of propagators waiting to run, and the domains each propagator watches.
use std::collections::VecDeque;

use vstd::prelude::*;

use super::domains::GlobalDomainId;
use super::keyed_idx_vec::{Key, KeyedVec};
use super::propagators::PropagatorId;

verus! {

/// The propagators to run, first in first out, and the propagators watching each domain.
pub struct PropagatorQueue {
    buffer: VecDeque<PropagatorId>,
    watch_list: KeyedVec<GlobalDomainId, Vec<PropagatorId>>,
}

impl PropagatorQueue {
    /// The propagators to run, in order.
    pub closed spec fn queued(&self) -> Seq<PropagatorId> {
        self.buffer@
    }

    /// The propagators watching each domain, by the domain's global number.
    pub closed spec fn watches(&self) -> Seq<Seq<PropagatorId>> {
        self.watch_list@.map_values(|w: Vec<PropagatorId>| w@)
    }

    /// An empty queue that watches no domain.
    pub fn new() -> (queue: PropagatorQueue)
        ensures
            queue.queued().len() == 0,
            queue.watches().len() == 0,
    {
        PropagatorQueue { buffer: VecDeque::new(), watch_list: KeyedVec::default() }
    }

    /// Make room for the watches of a new domain.
    pub fn on_new_domain(&mut self, id: GlobalDomainId)
        requires
            id.index_spec() < usize::MAX,
        ensures
            final(self).queued() == old(self).queued(),
            final(self).watches().len() == id.index_spec() + 1,
            forall|i: int| 0 <= i < final(self).watches().len() ==> #[trigger] final(self).watches()[i] == if i < old(self).watches().len() {
                old(self).watches()[i]
            } else {
                Seq::<PropagatorId>::empty()
            },
    {
        let ghost old_watch = self.watch_list@;
        let empty: Vec<PropagatorId> = Vec::new();
        let ghost e = empty;
        self.watch_list.resize(id, empty);
        proof {
            assert forall|i: int| 0 <= i < self.watches().len() implies #[trigger] self.watches()[i] == if i < old(self).watches().len() {
                old(self).watches()[i]
            } else {
                Seq::<PropagatorId>::empty()
            } by {
                if i < old_watch.len() {
                    if id.index_spec() < old_watch.len() {
                        assert(self.watch_list@[i] == old_watch[i]);
                    } else {
                        assert(self.watch_list@.subrange(0, old_watch.len() as int)[i] == old_watch[i]);
                    }
                } else {
                    assert(cloned(e, self.watch_list@[i]));
                    assert(self.watch_list@[i]@.len() == 0);
                    assert(self.watch_list@[i]@ =~= Seq::<PropagatorId>::empty());
                }
            }
        }
    }

    /// The number of domains the queue has watches for.
    pub fn num_watched(&self) -> (n: usize)
        ensures
            n == self.watches().len(),
    {
        proof {
            assert(self.watches().len() == self.watch_list@.len());
        }
        self.watch_list.len()
    }

    /// The next propagator to run, if any.
    pub fn pop(&mut self) -> (next: Option<PropagatorId>)
        ensures
            old(self).queued().len() == 0 ==> next is None && final(self).queued() == old(self).queued(),
            old(self).queued().len() > 0 ==> next == Some(old(self).queued()[0]) && final(self).queued() == old(self).queued().drop_first(),
            final(self).watches() == old(self).watches(),
    {
        self.buffer.pop_front()
    }

    /// Enqueue the propagators that watch the updated domain.
    pub fn react(&mut self, updated_domain: GlobalDomainId)
        requires
            updated_domain.index_spec() < old(self).watches().len(),
        ensures
            final(self).queued() == old(self).queued() + old(self).watches()[updated_domain.index_spec() as int],
            final(self).watches() == old(self).watches(),
    {
        let watchers = self.watch_list.get(updated_domain);
        let mut i: usize = 0;
        while i < watchers.len()
            invariant
                i <= watchers@.len(),
                watchers@ == old(self).watches()[updated_domain.index_spec() as int],
                self.watch_list == old(self).watch_list,
                self.buffer@ == old(self).buffer@ + watchers@.subrange(0, i as int),
            decreases watchers@.len() - i,
        {
            self.buffer.push_back(watchers[i]);
            proof {
                assert(watchers@.subrange(0, i + 1) =~= watchers@.subrange(0, i as int).push(watchers@[i as int]));
            }
            i = i + 1;
        }
        assert(watchers@.subrange(0, i as int) =~= watchers@);
    }

    /// Let the propagator watch the domain.
    pub fn register_watch(&mut self, domain: GlobalDomainId, propagator: PropagatorId)
        requires
            domain.index_spec() < old(self).watches().len(),
        ensures
            final(self).queued() == old(self).queued(),
            final(self).watches() == old(self).watches().update(domain.index_spec() as int, old(self).watches()[domain.index_spec() as int].push(propagator)),
    {
        let watchers = self.watch_list.get_mut(domain);
        watchers.push(propagator);
        proof {
            assert(self.watches() =~= old(self).watches().update(domain.index_spec() as int, old(self).watches()[domain.index_spec() as int].push(propagator)));
        }
    }
}

impl Default for PropagatorQueue {
    fn default() -> (queue: PropagatorQueue)
        ensures
            queue.queued().len() == 0,
            queue.watches().len() == 0,
    {
        PropagatorQueue::new()
    }
}

} // verus!
