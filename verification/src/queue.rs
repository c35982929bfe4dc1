//! A priority queue of indices, cheapest first.
use priority_queue::PriorityQueue;
use std::cmp::Reverse;
use vstd::prelude::*;

verus! {

/// `priority_queue::PriorityQueue`, carried through as an opaque value.
#[verifier::external_type_specification]
#[verifier::external_body]
#[verifier::reject_recursive_types(I)]
#[verifier::reject_recursive_types(P)]
#[verifier::reject_recursive_types(H)]
pub struct ExPriorityQueue<I, P, H>(PriorityQueue<I, P, H>);

/// `std::cmp::Reverse`, carried through as an opaque value.
#[verifier::external_type_specification]
#[verifier::external_body]
#[verifier::reject_recursive_types(T)]
pub struct ExReverse<T>(Reverse<T>);

/// What a queue holds: for each item in it, the cost it was last pushed
/// with.
pub uninterp spec fn queue_entries(queue: PriorityQueue<usize, Reverse<usize>>) -> Map<usize, usize>;

/// `PriorityQueue::new`: a queue that holds nothing.
#[verifier::external_body]
pub(crate) fn queue_new() -> (queue: PriorityQueue<usize, Reverse<usize>>)
    ensures
        queue_entries(queue).dom() == Set::<usize>::empty(),
{
    PriorityQueue::new()
}

/// `PriorityQueue::push` with the priority `Reverse(cost)`: afterwards the
/// queue holds `item` with `cost`, whether it held `item` before or not, and
/// its other items as before. The result is the cost that `item` had.
#[verifier::external_body]
pub(crate) fn queue_push(
    queue: &mut PriorityQueue<usize, Reverse<usize>>,
    item: usize,
    cost: usize,
) -> (prev: Option<usize>)
    ensures
        queue_entries(*final(queue)) == queue_entries(*old(queue)).insert(item, cost),
        prev == (if queue_entries(*old(queue)).contains_key(item) {
            Some(queue_entries(*old(queue))[item])
        } else {
            None
        }),
{
    match queue.push(item, Reverse(cost)) {
        Some(Reverse(prev)) => Some(prev),
        None => None,
    }
}

/// `PriorityQueue::pop`: takes out an item of the greatest priority, which
/// under `Reverse` is one of the least cost, and returns it with its cost.
/// The result is `None` when the queue holds nothing. Which of several items
/// of the same cost comes out is left open.
#[verifier::external_body]
pub(crate) fn queue_pop(queue: &mut PriorityQueue<usize, Reverse<usize>>) -> (top: Option<
    (usize, usize),
>)
    ensures
        match top {
            Some((item, cost)) => {
                &&& queue_entries(*old(queue)).contains_key(item)
                &&& queue_entries(*old(queue))[item] == cost
                &&& forall|other: usize| #[trigger]
                    queue_entries(*old(queue)).contains_key(other) ==> cost <= queue_entries(
                        *old(queue),
                    )[other]
                &&& queue_entries(*final(queue)) == queue_entries(*old(queue)).remove(item)
            },
            None => {
                &&& queue_entries(*old(queue)).dom() == Set::<usize>::empty()
                &&& queue_entries(*final(queue)) == queue_entries(*old(queue))
            },
        },
{
    match queue.pop() {
        Some((item, Reverse(cost))) => Some((item, cost)),
        None => None,
    }
}

/// `PriorityQueue::get_priority`: the cost with which the queue holds
/// `item`, if it holds it.
#[verifier::external_body]
pub(crate) fn queue_get_priority(queue: &PriorityQueue<usize, Reverse<usize>>, item: usize) -> (cost:
    Option<usize>)
    ensures
        cost == (if queue_entries(*queue).contains_key(item) {
            Some(queue_entries(*queue)[item])
        } else {
            None
        }),
{
    match queue.get_priority(&item) {
        Some(Reverse(cost)) => Some(*cost),
        None => None,
    }
}

} // verus!
