//! The pending-event queue: `priority_queue::PriorityQueue` keyed by event id,
//! ordered by the reversed `(due tick, id)` key so that the smallest key comes first.
use priority_queue::PriorityQueue;
use std::cmp::Reverse;
use vstd::prelude::*;

verus! {

#[verifier::external_type_specification]
#[verifier::external_body]
#[verifier::reject_recursive_types(I)]
#[verifier::reject_recursive_types(P)]
#[verifier::reject_recursive_types(H)]
pub struct ExPriorityQueue<I, P, H>(PriorityQueue<I, P, H>);

#[verifier::external_type_specification]
#[verifier::external_body]
#[verifier::reject_recursive_types(T)]
pub struct ExReverse<T>(Reverse<T>);

/// A queue key: `(due tick, id)`.
pub type Key = (u64, u64);

/// A pending id with its key.
pub type Entry = (u64, Key);

/// The queue of pending ids, greatest priority first.
pub type TickQueue = PriorityQueue<u64, Reverse<Key>>;

/// The entries of a queue: each pending id with its `(due tick, id)` key.
pub uninterp spec fn queue_keys(q: TickQueue) -> Map<u64, Key>;

/// Strict lexicographic order on `(due tick, id)` keys.
pub open spec fn key_lt(a: Key, b: Key) -> bool {
    a.0 < b.0 || (a.0 == b.0 && a.1 < b.1)
}

/// `k` is the smallest key of `m`: no entry of `m` has a key below it.
pub open spec fn is_least_key(m: Map<u64, Key>, k: Key) -> bool {
    forall|j: u64| #[trigger] m.contains_key(j) ==> !key_lt(m[j], k)
}

/// Relies on `PriorityQueue::new`: the queue starts empty.
#[verifier::external_body]
pub(crate) fn queue_new() -> (r: TickQueue)
    ensures
        queue_keys(r).dom() == Set::<u64>::empty(),
{
    PriorityQueue::new()
}

/// Relies on `PriorityQueue::push`: the item is inserted with the given
/// priority, or, if already present, its priority is replaced.
#[verifier::external_body]
pub(crate) fn queue_push(q: &mut TickQueue, id: u64, key: Key)
    ensures
        queue_keys(*final(q)) == queue_keys(*old(q)).insert(id, key),
{
    q.push(id, Reverse(key));
}

/// Relies on `PriorityQueue::peek`: the item with the greatest priority, that is
/// the smallest key under `Reverse`, or `None` when the queue is empty.
#[verifier::external_body]
pub(crate) fn queue_peek(q: &TickQueue) -> (r: Option<Entry>)
    ensures
        match r {
            None => queue_keys(*q).dom() == Set::<u64>::empty(),
            Some((id, key)) => {
                &&& queue_keys(*q).contains_key(id)
                &&& queue_keys(*q)[id] == key
                &&& is_least_key(queue_keys(*q), key)
            },
        },
{
    q.peek().map(|(i, p)| (*i, p.0))
}

/// Relies on `PriorityQueue::pop`: removes and returns the item with the
/// greatest priority, that is the smallest key under `Reverse`.
#[verifier::external_body]
pub(crate) fn queue_pop(q: &mut TickQueue) -> (r: Option<Entry>)
    ensures
        match r {
            None => {
                &&& queue_keys(*old(q)).dom() == Set::<u64>::empty()
                &&& queue_keys(*final(q)) == queue_keys(*old(q))
            },
            Some((id, key)) => {
                &&& queue_keys(*old(q)).contains_key(id)
                &&& queue_keys(*old(q))[id] == key
                &&& is_least_key(queue_keys(*old(q)), key)
                &&& queue_keys(*final(q)) == queue_keys(*old(q)).remove(id)
            },
        },
{
    q.pop().map(|(i, p)| (i, p.0))
}

/// Relies on `PriorityQueue::get_priority`: the priority of `id`, or `None`
/// when `id` is not in the queue.
#[verifier::external_body]
pub(crate) fn queue_priority(q: &TickQueue, id: u64) -> (r: Option<Key>)
    ensures
        match r {
            None => !queue_keys(*q).contains_key(id),
            Some(key) => queue_keys(*q).contains_key(id) && queue_keys(*q)[id] == key,
        },
{
    q.get_priority(&id).map(|p| p.0)
}

/// Relies on `PriorityQueue::len`: the number of items in the queue.
#[verifier::external_body]
pub(crate) fn queue_len(q: &TickQueue) -> (r: usize)
    ensures
        r == queue_keys(*q).len(),
{
    q.len()
}

} // verus!
