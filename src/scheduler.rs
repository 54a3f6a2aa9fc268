//! The scheduling handle: pending events, their keys, the id counter and the
//! set of cancelled ids, bound to the tick being processed.
use crate::queue::{
    is_least_key, queue_keys, queue_len, queue_new, queue_peek, queue_pop, queue_priority,
    queue_push, Entry, Key, TickQueue,
};
use crate::scheduled_wrapper::ScheduledEvent;
use std::collections::{HashMap, HashSet};
use vstd::prelude::*;

verus! {

broadcast use vstd::std_specs::hash::group_hash_axioms;

/// `a + b`, or `u64::MAX` where the sum does not fit: due ticks saturate
/// rather than wrap, so that a far-off event never sorts before a near one.
pub open spec fn saturating_sum(a: u64, b: u64) -> u64 {
    if a + b > u64::MAX {
        u64::MAX
    } else {
        (a + b) as u64
    }
}

/// The handle through which events enter the queue and are cancelled.
///
/// Every pending event has a unique id, handed out in increasing order from 1,
/// and the key `(due tick, id)`; the queue yields the smallest key first, so
/// events due on the same tick run in the order they were scheduled.
/// Cancellation only marks an id: the entry is dropped when it reaches the head.
pub struct Scheduler<E> {
    current_tick: u64,
    id_counter: u64,
    queue: TickQueue,
    events: HashMap<u64, ScheduledEvent<E>>,
    cancelled: HashSet<u64>,
    mark_counts: Ghost<Map<u64, nat>>,
}

impl<E> Scheduler<E> {
    /// The tick that delays are measured from.
    pub closed spec fn tick(&self) -> u64 {
        self.current_tick
    }

    /// The most recently assigned id (0 before the first `schedule`).
    pub closed spec fn last_id(&self) -> u64 {
        self.id_counter
    }

    /// The key `(due tick, id)` of each pending id.
    pub closed spec fn keys(&self) -> Map<u64, Key> {
        queue_keys(self.queue)
    }

    /// The event of each pending id.
    pub closed spec fn payloads(&self) -> Map<u64, E> {
        self.events@.map_values(|s: ScheduledEvent<E>| s.event)
    }

    /// The ids marked for cancellation.
    pub closed spec fn cancelled(&self) -> Set<u64> {
        self.cancelled@
    }

    /// How many times `id` has been marked for cancellation so far.
    pub closed spec fn marks(&self, id: u64) -> nat {
        if self.mark_counts@.contains_key(id) {
            self.mark_counts@[id]
        } else {
            0
        }
    }

    /// The bookkeeping behind the views above agrees with itself.
    pub closed spec fn inv(&self) -> bool {
        &&& self.events@.dom() == queue_keys(self.queue).dom()
        &&& forall|id: u64| #[trigger] self.events@.contains_key(id) ==> self.events@[id].id == id
    }

    pub open spec fn pending(&self, id: u64) -> bool {
        self.keys().contains_key(id)
    }

    /// Well-formedness: each pending id carries an event, its key ends in the
    /// id itself, and it was handed out already.
    pub open spec fn wf(&self) -> bool {
        &&& self.inv()
        &&& self.payloads().dom() == self.keys().dom()
        &&& self.keys().dom().finite()
        &&& forall|id: u64| #[trigger] self.pending(id) ==> {
            &&& self.keys()[id].1 == id
            &&& 1 <= id <= self.last_id()
        }
    }

    /// What running an event may do to the handle: add fresh entries due no
    /// earlier than the current tick, and mark ids cancelled. Entries already
    /// pending keep their keys and events.
    pub open spec fn reaches(&self, next: Self) -> bool {
        &&& next.wf()
        &&& next.tick() == self.tick()
        &&& self.last_id() <= next.last_id()
        &&& forall|id: u64| #[trigger] self.pending(id) ==> {
            &&& next.pending(id)
            &&& next.keys()[id] == self.keys()[id]
            &&& next.payloads()[id] == self.payloads()[id]
        }
        &&& forall|id: u64| #[trigger] next.pending(id) && !self.pending(id) ==> {
            &&& self.last_id() < id
            &&& next.keys()[id].0 >= self.tick()
        }
        &&& self.cancelled().subset_of(next.cancelled())
        &&& forall|id: u64| #[trigger] self.marks(id) <= next.marks(id)
        &&& forall|id: u64| #[trigger] next.cancelled().contains(id) && next.marks(id) == self.marks(id)
            ==> self.cancelled().contains(id)
    }

    proof fn lemma_wf(&self)
        requires
            self.inv(),
            forall|id: u64| #[trigger] self.pending(id) ==> {
                &&& self.keys()[id].1 == id
                &&& 1 <= id <= self.last_id()
            },
        ensures
            self.wf(),
    {
        assert(self.payloads().dom() =~= self.keys().dom());
        assert(self.keys().dom().finite()) by {
            assert(self.events@.dom().finite());
        }
    }

    /// A handle whose entries and id counter are those of a well-formed one is
    /// well-formed too.
    proof fn lemma_carry(&self, prev: &Self)
        requires
            prev.wf(),
            self.queue == prev.queue,
            self.events == prev.events,
            self.id_counter == prev.id_counter,
        ensures
            self.wf(),
            forall|j: u64| #[trigger] prev.pending(j) ==> self.pending(j),
    {
        assert forall|j: u64| #[trigger] self.pending(j) implies {
            &&& self.keys()[j].1 == j
            &&& 1 <= j <= self.last_id()
        } by {
            assert(prev.pending(j));
        }
        self.lemma_wf();
    }

    /// A handle at `current_tick` with nothing pending and nothing cancelled.
    pub fn new(current_tick: u64) -> (r: Self)
        ensures
            r.wf(),
            r.tick() == current_tick,
            r.last_id() == 0,
            r.keys().dom() == Set::<u64>::empty(),
            r.cancelled() == Set::<u64>::empty(),
            forall|id: u64| #[trigger] r.marks(id) == 0,
    {
        let r = Scheduler {
            current_tick,
            id_counter: 0,
            queue: queue_new(),
            events: HashMap::new(),
            cancelled: HashSet::new(),
            mark_counts: Ghost(Map::empty()),
        };
        proof {
            r.lemma_wf();
        }
        r
    }

    /// Schedules `event` to run `delay` ticks after the current tick, under the
    /// next id, which it returns. A due tick past `u64::MAX` saturates.
    pub fn schedule(&mut self, event: E, delay: u64) -> (id: u64)
        requires
            old(self).wf(),
            old(self).last_id() < u64::MAX,
        ensures
            id == old(self).last_id() + 1,
            final(self).last_id() == id,
            final(self).tick() == old(self).tick(),
            final(self).keys() == old(self).keys().insert(
                id,
                (saturating_sum(old(self).tick(), delay), id),
            ),
            final(self).payloads() == old(self).payloads().insert(id, event),
            final(self).cancelled() == old(self).cancelled(),
            forall|x: u64| #[trigger] final(self).marks(x) == old(self).marks(x),
            !old(self).pending(id),
            old(self).reaches(*final(self)),
    {
        self.id_counter = self.id_counter + 1;
        let id = self.id_counter;
        let due = if delay > u64::MAX - self.current_tick {
            u64::MAX
        } else {
            self.current_tick + delay
        };
        queue_push(&mut self.queue, id, (due, id));
        self.events.insert(id, ScheduledEvent { id, event });
        proof {
            assert(self.payloads() =~= old(self).payloads().insert(id, event));
            assert forall|j: u64| #[trigger] self.pending(j) implies {
                &&& self.keys()[j].1 == j
                &&& 1 <= j <= self.last_id()
            } by {
                if j != id {
                    assert(old(self).pending(j));
                }
            }
            self.lemma_wf();
            assert forall|j: u64| #[trigger] old(self).pending(j) implies {
                &&& self.pending(j)
                &&& self.keys()[j] == old(self).keys()[j]
                &&& self.payloads()[j] == old(self).payloads()[j]
            } by {
                assert(j != id);
            }
        }
        id
    }

    /// Marks `id` cancelled: when its entry reaches the head of the queue it is
    /// dropped without running. Nothing else changes; marking an id that is not
    /// pending is harmless.
    pub fn cancel(&mut self, id: u64)
        requires
            old(self).wf(),
        ensures
            final(self).tick() == old(self).tick(),
            final(self).last_id() == old(self).last_id(),
            final(self).keys() == old(self).keys(),
            final(self).payloads() == old(self).payloads(),
            final(self).cancelled() == old(self).cancelled().insert(id),
            final(self).marks(id) == old(self).marks(id) + 1,
            forall|x: u64| x != id ==> #[trigger] final(self).marks(x) == old(self).marks(x),
            old(self).reaches(*final(self)),
    {
        self.cancelled.insert(id);
        proof {
            self.mark_counts@ = self.mark_counts@.insert(id, old(self).marks(id) + 1);
        }
        proof {
            self.lemma_carry(old(self));
        }
    }

    /// The tick that delays are measured from.
    pub fn current_tick(&self) -> (r: u64)
        ensures
            r == self.tick(),
    {
        self.current_tick
    }

    /// The most recently assigned id (0 before the first `schedule`).
    pub fn latest_id(&self) -> (r: u64)
        ensures
            r == self.last_id(),
    {
        self.id_counter
    }

    /// The number of pending entries, cancelled ones included.
    pub fn len(&self) -> (r: usize)
        ensures
            r == self.keys().len(),
    {
        queue_len(&self.queue)
    }

    /// The due tick of pending id `id`, or `None` when nothing is pending under it.
    pub fn due_tick(&self, id: u64) -> (r: Option<u64>)
        ensures
            match r {
                None => !self.pending(id),
                Some(t) => self.pending(id) && self.keys()[id].0 == t,
            },
    {
        match queue_priority(&self.queue, id) {
            None => None,
            Some(key) => Some(key.0),
        }
    }

    /// Whether `id` is marked for cancellation.
    pub fn is_cancelled(&self, id: u64) -> (r: bool)
        ensures
            r == self.cancelled().contains(id),
    {
        self.cancelled.contains(&id)
    }

    /// Moves the handle on to the next tick.
    pub(crate) fn advance(&mut self)
        requires
            old(self).wf(),
            old(self).tick() < u64::MAX,
        ensures
            final(self).wf(),
            final(self).tick() == old(self).tick() + 1,
            final(self).last_id() == old(self).last_id(),
            final(self).keys() == old(self).keys(),
            final(self).payloads() == old(self).payloads(),
            final(self).cancelled() == old(self).cancelled(),
            forall|x: u64| #[trigger] final(self).marks(x) == old(self).marks(x),
    {
        self.current_tick = self.current_tick + 1;
        proof {
            self.lemma_carry(old(self));
        }
    }

    /// The pending id with the smallest key, and that key.
    pub(crate) fn peek_next(&self) -> (r: Option<Entry>)
        requires
            self.wf(),
        ensures
            match r {
                None => self.keys().dom() == Set::<u64>::empty(),
                Some((id, key)) => {
                    &&& self.pending(id)
                    &&& self.keys()[id] == key
                    &&& is_least_key(self.keys(), key)
                },
            },
    {
        queue_peek(&self.queue)
    }

    /// Removes the pending entry with the smallest key and returns it with its key.
    pub(crate) fn pop_next(&mut self) -> (r: Option<(Key, ScheduledEvent<E>)>)
        requires
            old(self).wf(),
        ensures
            final(self).wf(),
            final(self).tick() == old(self).tick(),
            final(self).last_id() == old(self).last_id(),
            final(self).cancelled() == old(self).cancelled(),
            forall|x: u64| #[trigger] final(self).marks(x) == old(self).marks(x),
            match r {
                None => {
                    &&& old(self).keys().dom() == Set::<u64>::empty()
                    &&& final(self).keys() == old(self).keys()
                    &&& final(self).payloads() == old(self).payloads()
                },
                Some((key, item)) => {
                    &&& old(self).pending(item.id)
                    &&& old(self).keys()[item.id] == key
                    &&& is_least_key(old(self).keys(), key)
                    &&& item.event == old(self).payloads()[item.id]
                    &&& final(self).keys() == old(self).keys().remove(item.id)
                    &&& final(self).payloads() == old(self).payloads().remove(item.id)
                },
            },
    {
        match queue_pop(&mut self.queue) {
            None => {
                proof {
                    assert(self.events@ == old(self).events@);
                }
                None
            },
            Some((id, key)) => {
                let removed = self.events.remove(&id);
                proof {
                    assert(self.payloads() =~= old(self).payloads().remove(id));
                    assert forall|j: u64| #[trigger] self.pending(j) implies {
                        &&& self.keys()[j].1 == j
                        &&& 1 <= j <= self.last_id()
                    } by {
                        assert(old(self).pending(j));
                    }
                    self.lemma_wf();
                }
                match removed {
                    Some(item) => Some((key, item)),
                    None => {
                        proof {
                            assert(false);
                        }
                        None
                    },
                }
            },
        }
    }

    /// Clears the cancellation mark of `id`, returning whether it was set.
    pub(crate) fn unmark(&mut self, id: u64) -> (r: bool)
        requires
            old(self).wf(),
        ensures
            final(self).wf(),
            r == old(self).cancelled().contains(id),
            final(self).cancelled() == old(self).cancelled().remove(id),
            forall|x: u64| #[trigger] final(self).marks(x) == old(self).marks(x),
            final(self).tick() == old(self).tick(),
            final(self).last_id() == old(self).last_id(),
            final(self).keys() == old(self).keys(),
            final(self).payloads() == old(self).payloads(),
    {
        let r = self.cancelled.remove(&id);
        proof {
            self.lemma_carry(old(self));
        }
        r
    }
}

} // verus!
