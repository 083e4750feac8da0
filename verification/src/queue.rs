//! The priority queue of circuits that wait to be rewritten.

use priority_queue::PriorityQueue;
use vstd::prelude::*;

verus! {

/// A queue of the `priority_queue` crate, opaque here. What it holds is `queue_items`.
#[verifier::external_type_specification]
#[verifier::external_body]
#[verifier::reject_recursive_types(I)]
#[verifier::reject_recursive_types(P)]
#[verifier::reject_recursive_types(H)]
pub struct ExPriorityQueue<I: std::hash::Hash + Eq, P: Ord, H>(
    priority_queue::PriorityQueue<I, P, H>,
);

/// The items of a queue, each with its priority.
pub uninterp spec fn queue_items(queue: PriorityQueue<usize, usize>) -> Map<usize, usize>;

/// `PriorityQueue::new` gives a queue without items.
#[verifier::external_body]
pub(crate) fn queue_new() -> (queue: PriorityQueue<usize, usize>)
    ensures
        (queue_items(queue) == Map::<usize, usize>::empty()),
{
    PriorityQueue::new()
}

/// `PriorityQueue::push` puts the item in with that priority. An item that is already there
/// gets the new priority, and its old one is handed back.
#[verifier::external_body]
pub(crate) fn queue_push(
    queue: &mut PriorityQueue<usize, usize>,
    item: usize,
    priority: usize,
) -> (replaced: Option<usize>)
    ensures
        queue_items(*final(queue)) == queue_items(*old(queue)).insert(item, priority),
        replaced == (if queue_items(*old(queue)).contains_key(item) {
            Some(queue_items(*old(queue))[item])
        } else {
            None
        }),
{
    queue.push(item, priority)
}

/// `PriorityQueue::pop` takes out an item of the greatest priority, together with that
/// priority. Which of several such items it takes is left open. Of an empty queue it gives
/// nothing.
#[verifier::external_body]
pub(crate) fn queue_pop(queue: &mut PriorityQueue<usize, usize>) -> (popped: Option<
    (usize, usize),
>)
    ensures
        match popped {
            Some((item, priority)) => {
                &&& queue_items(*old(queue)).contains_key(item)
                &&& queue_items(*old(queue))[item] == priority
                &&& (forall|other: usize| #[trigger]
                    queue_items(*old(queue)).contains_key(other) ==> queue_items(
                        *old(queue),
                    )[other] <= priority)
                &&& queue_items(*final(queue)) == queue_items(*old(queue)).remove(item)
            },
            None => {
                &&& (queue_items(*old(queue)) == Map::<usize, usize>::empty())
                &&& queue_items(*final(queue)) == queue_items(*old(queue))
            },
        },
{
    queue.pop()
}

/// `PriorityQueue::len` counts the items.
#[verifier::external_body]
pub(crate) fn queue_len(queue: &PriorityQueue<usize, usize>) -> (len: usize)
    ensures
        len == queue_items(*queue).len(),
{
    queue.len()
}

/// `PriorityQueue::is_empty` tells whether there is no item.
#[verifier::external_body]
pub(crate) fn queue_is_empty(queue: &PriorityQueue<usize, usize>) -> (empty: bool)
    ensures
        empty == (queue_items(*queue) == Map::<usize, usize>::empty()),
{
    queue.is_empty()
}

} // verus!
