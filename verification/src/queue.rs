//! The priority queue that orders the cache's entries by their last read.

use priority_queue::PriorityQueue;
use std::collections::hash_map::RandomState;
use vstd::prelude::*;

verus! {

/// The priority queue of the `priority_queue` crate: items with a priority
/// each, no item twice.
#[verifier::external_type_specification]
#[verifier::external_body]
#[verifier::reject_recursive_types(I)]
#[verifier::reject_recursive_types(P)]
#[verifier::reject_recursive_types(H)]
pub struct ExPriorityQueue<I, P, H>(PriorityQueue<I, P, H>);

/// The items that a queue holds, each with its priority.
pub uninterp spec fn queue_items(
    queue: PriorityQueue<usize, u128, RandomState>,
) -> Map<usize, u128>;

/// Calls `PriorityQueue::new`: a queue that holds nothing.
#[verifier::external_body]
pub(crate) fn queue_new() -> (made: PriorityQueue<usize, u128, RandomState>)
    ensures
        queue_items(made) =~= Map::empty(),
{
    PriorityQueue::new()
}

/// Calls `PriorityQueue::push`: the item is in the queue with the given
/// priority afterwards, whether it was there before or not. Returns the
/// priority that it had before, if it was there.
#[verifier::external_body]
pub(crate) fn queue_push(
    queue: &mut PriorityQueue<usize, u128, RandomState>,
    item: usize,
    priority: u128,
) -> (before: Option<u128>)
    ensures
        queue_items(*final(queue)) == queue_items(*old(queue)).insert(item, priority),
        before == if queue_items(*old(queue)).dom().contains(item) {
            Some(queue_items(*old(queue))[item])
        } else {
            None
        },
{
    queue.push(item, priority)
}

/// Calls `PriorityQueue::pop`: takes an item with the greatest priority out
/// of the queue and returns it with its priority. Returns nothing, and
/// leaves the queue as it is, where the queue holds nothing.
#[verifier::external_body]
pub(crate) fn queue_pop(queue: &mut PriorityQueue<usize, u128, RandomState>) -> (popped: Option<
    (usize, u128),
>)
    ensures
        match popped {
            Some((item, priority)) => {
                &&& queue_items(*old(queue)).contains_pair(item, priority)
                &&& forall|other: usize|
                    queue_items(*old(queue)).dom().contains(other) ==> #[trigger] queue_items(
                        *old(queue),
                    )[other] <= priority
                &&& queue_items(*final(queue)) == queue_items(*old(queue)).remove(item)
            },
            None => {
                &&& forall|other: usize| !queue_items(*old(queue)).dom().contains(other)
                &&& queue_items(*final(queue)) == queue_items(*old(queue))
            },
        },
{
    queue.pop()
}

/// Calls `PriorityQueue::change_priority`: gives an item of the queue a new
/// priority and returns the one it had. Returns nothing, and leaves the
/// queue as it is, where the item is not in the queue.
#[verifier::external_body]
pub(crate) fn queue_change_priority(
    queue: &mut PriorityQueue<usize, u128, RandomState>,
    item: usize,
    priority: u128,
) -> (before: Option<u128>)
    ensures
        queue_items(*old(queue)).dom().contains(item) ==> before == Some(
            queue_items(*old(queue))[item],
        ) && queue_items(*final(queue)) == queue_items(*old(queue)).insert(item, priority),
        !queue_items(*old(queue)).dom().contains(item) ==> before is None && queue_items(
            *final(queue),
        ) == queue_items(*old(queue)),
{
    queue.change_priority(&item, priority)
}

/// Calls `PriorityQueue::remove`: takes the item out of the queue and
/// returns it with its priority. Returns nothing, and leaves the queue as
/// it is, where the item is not in the queue.
#[verifier::external_body]
pub(crate) fn queue_remove(
    queue: &mut PriorityQueue<usize, u128, RandomState>,
    item: usize,
) -> (removed: Option<(usize, u128)>)
    ensures
        queue_items(*final(queue)) == queue_items(*old(queue)).remove(item),
        removed == if queue_items(*old(queue)).dom().contains(item) {
            Some((item, queue_items(*old(queue))[item]))
        } else {
            None
        },
{
    queue.remove(&item)
}

} // verus!
