//! The search frontier: a keyed max-priority queue of grid point indexes.
//!
//! The queue holds each item at most once, with a priority that a later
//! push replaces; popping yields an item of greatest priority.  Both
//! searches store `u64::MAX - f` as the priority to pop the smallest `f`
//! first.
use vstd::prelude::*;
use std::collections::hash_map::RandomState;
use priority_queue::PriorityQueue;

verus! {

#[verifier::external_type_specification]
#[verifier::external_body]
#[verifier::reject_recursive_types(I)]
#[verifier::reject_recursive_types(P)]
#[verifier::reject_recursive_types(H)]
pub struct ExPriorityQueue<I, P, H>(PriorityQueue<I, P, H>);

/// The frontier's concrete queue type: point indexes keyed to priorities.
pub type Frontier = PriorityQueue<u64, u64, RandomState>;

/// The items a frontier holds, each with its priority.
pub uninterp spec fn pq_view(q: Frontier) -> Map<u64, u64>;

/// The view of a frontier with nothing in it.
pub open spec fn empty_frontier() -> Map<u64, u64> {
    Map::empty()
}

/// Relies on `PriorityQueue::new`: an empty queue.
#[verifier::external_body]
pub(crate) fn pq_new() -> (q: Frontier)
    ensures
        pq_view(q) == empty_frontier(),
{
    PriorityQueue::new()
}

/// Relies on `PriorityQueue::push`: inserts the item with the given
/// priority, or replaces the priority of an item already present.
#[verifier::external_body]
pub(crate) fn pq_push(q: &mut Frontier, item: u64, priority: u64)
    ensures
        pq_view(*final(q)) == pq_view(*old(q)).insert(item, priority),
{
    q.push(item, priority);
}

/// Relies on `PriorityQueue::pop`: removes and returns an item with the
/// greatest priority, or nothing when the queue is empty.
#[verifier::external_body]
pub(crate) fn pq_pop(q: &mut Frontier) -> (r: Option<(u64, u64)>)
    ensures
        match r {
            None => pq_view(*old(q)).dom() == Set::<u64>::empty() && pq_view(*final(q)) == pq_view(
                *old(q),
            ),
            Some(ip) => {
                &&& pq_view(*old(q)).dom().contains(ip.0)
                &&& pq_view(*old(q))[ip.0] == ip.1
                &&& pq_view(*final(q)) == pq_view(*old(q)).remove(ip.0)
                &&& forall|j: u64|
                    pq_view(*old(q)).dom().contains(j) ==> pq_view(*old(q))[j] <= ip.1
            },
        },
{
    q.pop()
}

} // verus!
