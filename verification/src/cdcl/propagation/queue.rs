//! The queue of propagators waiting to run.
use std::collections::VecDeque;
use vstd::prelude::*;

use crate::cdcl::bits::{bitvec_get, bitvec_len, bitvec_new, bitvec_resize, bitvec_set, bits_of, Bits};
use crate::cdcl::storage::Indexer;

use super::PropagatorId;

verus! {

broadcast use PropagatorId::lemma_at;

/// The queue of domain propagators that needs to be executed at the current node. Propagator id's
/// can be pushed onto the queue, but duplicate id's will be ignored.
pub struct PropagatorQueue {
    present: Bits,
    queue: VecDeque<PropagatorId>,
}

impl PropagatorQueue {
    /// The queued propagators, the next one to run first.
    pub closed spec fn queued(&self) -> Seq<PropagatorId> {
        self.queue@
    }

    /// The number of propagators the queue can hold.
    pub closed spec fn capacity(&self) -> nat {
        bits_of(self.present).len()
    }

    /// Every queued propagator fits the capacity, is marked as present and occurs once; every
    /// propagator marked as present is queued.
    pub closed spec fn wf(&self) -> bool {
        let bits = bits_of(self.present);
        &&& forall|i: int| 0 <= i < self.queue@.len() ==> #[trigger] self.queue@[i].id_spec() < bits.len()
        &&& forall|i: int| 0 <= i < self.queue@.len() ==> bits[#[trigger] self.queue@[i].id_spec() as int]
        &&& forall|i: int, j: int| 0 <= i < j < self.queue@.len() ==> #[trigger] self.queue@[i] != #[trigger] self.queue@[j]
        &&& forall|k: int| 0 <= k < bits.len() && #[trigger] bits[k] ==> exists|i: int| 0 <= i < self.queue@.len() && self.queue@[i].id_spec() == k
    }

    /// Every queued propagator fits the capacity.
    pub proof fn lemma_queued_capacity(&self)
        requires
            self.wf(),
        ensures
            forall|i: int| 0 <= i < self.queued().len() ==> #[trigger] self.queued()[i].id_spec() < self.capacity(),
    {
    }

    /// An empty queue with no capacity.
    pub fn new() -> (q: PropagatorQueue)
        ensures
            q.wf(),
            q.queued() == Seq::<PropagatorId>::empty(),
            q.capacity() == 0,
    {
        PropagatorQueue { present: bitvec_new(), queue: VecDeque::new() }
    }

    /// Set the capacity so that the given propagator is the last one the queue can hold.
    pub fn grow_to(&mut self, propagator_id: PropagatorId)
        requires
            old(self).wf(),
            propagator_id.id_spec() < usize::MAX / 8,
            forall|i: int| 0 <= i < old(self).queued().len() ==> #[trigger] old(self).queued()[i].id_spec() <= propagator_id.id_spec(),
        ensures
            final(self).wf(),
            final(self).queued() == old(self).queued(),
            final(self).capacity() == propagator_id.id_spec() + 1,
    {
        let ghost old_bits = bits_of(self.present);
        bitvec_resize(&mut self.present, propagator_id.index() + 1, false);
        proof {
            let bits = bits_of(self.present);
            assert forall|i: int| 0 <= i < self.queue@.len() implies #[trigger] self.queue@[i].id_spec() < bits.len() by {
                assert(old(self).queued()[i] == self.queue@[i]);
            }
            assert forall|i: int, j: int| 0 <= i < j < self.queue@.len() implies #[trigger] self.queue@[i] != #[trigger] self.queue@[j] by {
                assert(old(self).queue@[i] != old(self).queue@[j]);
            }
            assert forall|i: int| 0 <= i < self.queue@.len() implies bits[#[trigger] self.queue@[i].id_spec() as int] by {
                let id = self.queue@[i].id_spec() as int;
                assert(old(self).queued()[i] == self.queue@[i]);
                assert(bits.len() == propagator_id.id_spec() + 1);
                assert(id < old_bits.len());
                assert(old_bits[id]);
                assert(bits[id] == old_bits[id]);
            }
            assert forall|k: int| 0 <= k < bits.len() && #[trigger] bits[k] implies exists|i: int| 0 <= i < self.queue@.len() && self.queue@[i].id_spec() == k by {
                if k >= old_bits.len() {
                    assert(!bits[k]);
                }
                assert(old_bits[k]);
                let j = choose|j: int| 0 <= j < old(self).queue@.len() && old(self).queue@[j].id_spec() == k;
                assert(self.queue@[j].id_spec() == k);
            }
        }
    }

    /// Push a new propagator into the queue, unless it is queued already.
    pub fn push(&mut self, propagator_id: PropagatorId)
        requires
            old(self).wf(),
            propagator_id.id_spec() < old(self).capacity(),
        ensures
            final(self).wf(),
            final(self).capacity() == old(self).capacity(),
            old(self).queued().contains(propagator_id) ==> final(self).queued() == old(self).queued(),
            !old(self).queued().contains(propagator_id) ==> final(self).queued() == old(self).queued().push(propagator_id),
    {
        let idx = propagator_id.index();
        if !bitvec_get(&self.present, idx) {
            proof {
                if self.queue@.contains(propagator_id) {
                    let i = choose|i: int| 0 <= i < self.queue@.len() && self.queue@[i] == propagator_id;
                    assert(bits_of(self.present)[self.queue@[i].id_spec() as int]);
                }
            }
            let ghost old_bits = bits_of(self.present);
            bitvec_set(&mut self.present, idx, true);
            self.queue.push_back(propagator_id);
            proof {
                let bits = bits_of(self.present);
                let q = self.queue@;
                assert forall|i: int| 0 <= i < q.len() implies bits[#[trigger] q[i].id_spec() as int] by {
                    if i < q.len() - 1 {
                        assert(q[i] == old(self).queue@[i]);
                    }
                }
                assert forall|i: int, j: int| 0 <= i < j < q.len() implies #[trigger] q[i] != #[trigger] q[j] by {
                    if j == q.len() - 1 {
                        assert(q[i] == old(self).queue@[i]);
                        if q[i] == propagator_id {
                            assert(old_bits[q[i].id_spec() as int]);
                        }
                    }
                }
                assert forall|k: int| 0 <= k < bits.len() && #[trigger] bits[k] implies exists|i: int| 0 <= i < q.len() && q[i].id_spec() == k by {
                    if k == idx {
                        assert(q[q.len() - 1].id_spec() == k);
                    } else {
                        assert(old_bits[k]);
                        let i = choose|i: int| 0 <= i < old(self).queue@.len() && old(self).queue@[i].id_spec() == k;
                        assert(q[i] == old(self).queue@[i]);
                    }
                }
            }
        } else {
            proof {
                let k = idx as int;
                let i = choose|i: int| 0 <= i < self.queue@.len() && self.queue@[i].id_spec() == k;
                assert(self.queue@[i] == propagator_id);
            }
        }
    }

    /// Remove the first propagator id from the queue.
    pub fn pop(&mut self) -> (id: Option<PropagatorId>)
        requires
            old(self).wf(),
        ensures
            final(self).wf(),
            final(self).capacity() == old(self).capacity(),
            old(self).queued().len() == 0 ==> id is None && final(self).queued() == old(self).queued(),
            old(self).queued().len() > 0 ==> id == Some(old(self).queued()[0])
                && final(self).queued() == old(self).queued().subrange(1, old(self).queued().len() as int),
            id matches Some(p) ==> p.id_spec() < old(self).capacity(),
    {
        let id = self.queue.pop_front();
        match id {
            Some(id) => {
                let ghost old_bits = bits_of(self.present);
                let ghost old_q = old(self).queue@;
                bitvec_set(&mut self.present, id.index(), false);
                proof {
                    let bits = bits_of(self.present);
                    let q = self.queue@;
                    assert forall|i: int| 0 <= i < q.len() implies bits[#[trigger] q[i].id_spec() as int] by {
                        assert(q[i] == old_q[i + 1]);
                        assert(old_q[0] != old_q[i + 1]);
                        assert(old_bits[old_q[i + 1].id_spec() as int]);
                    }
                    assert forall|i: int, j: int| 0 <= i < j < q.len() implies #[trigger] q[i] != #[trigger] q[j] by {
                        assert(q[i] == old_q[i + 1]);
                        assert(q[j] == old_q[j + 1]);
                    }
                    assert forall|k: int| 0 <= k < bits.len() && #[trigger] bits[k] implies exists|i: int| 0 <= i < q.len() && q[i].id_spec() == k by {
                        assert(old_bits[k]);
                        let i = choose|i: int| 0 <= i < old_q.len() && old_q[i].id_spec() == k;
                        assert(i != 0);
                        assert(q[i - 1] == old_q[i]);
                    }
                }
                Some(id)
            },
            None => None,
        }
    }
}

impl Default for PropagatorQueue {
    fn default() -> (q: PropagatorQueue)
        ensures
            q.wf(),
            q.queued() == Seq::<PropagatorId>::empty(),
            q.capacity() == 0,
    {
        PropagatorQueue::new()
    }
}

} // verus!
