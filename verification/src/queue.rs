//! A keyed max-priority queue held in a `priority_queue::PriorityQueue`.
//!
//! The items in this file are the trusted boundary to the `priority_queue`
//! crate: their contracts are taken from that crate's source and are not
//! proved.

use priority_queue::PriorityQueue;
use std::collections::hash_map::RandomState;
use vstd::prelude::*;

verus! {

#[verifier::external_type_specification]
#[verifier::external_body]
#[verifier::reject_recursive_types(I)]
#[verifier::reject_recursive_types(P)]
#[verifier::reject_recursive_types(H)]
pub struct ExPriorityQueue<I, P, H>(PriorityQueue<I, P, H>);

/// The items of a queue, each with its priority.
pub uninterp spec fn queue_entries(q: PriorityQueue<u64, u128, RandomState>) -> Map<u64, u128>;

/// Whether `item` has a greatest priority among the entries of `m`.
pub open spec fn is_top(m: Map<u64, u128>, item: u64) -> bool {
    m.contains_key(item) && forall|other: u64| #[trigger] m.contains_key(other) ==> m[other] <= m[item]
}

/// The map without entries.
pub open spec fn no_entries() -> Map<u64, u128> {
    Map::empty()
}

/// `PriorityQueue::new`: an empty queue.
#[verifier::external_body]
pub(crate) fn queue_new() -> (q: PriorityQueue<u64, u128, RandomState>)
    ensures
        queue_entries(q) == no_entries(),
{
    PriorityQueue::new()
}

/// `PriorityQueue::push`: sets the priority of `item`, inserting it when it
/// is new, and returns the priority it had before, if any.
#[verifier::external_body]
pub(crate) fn queue_push(q: &mut PriorityQueue<u64, u128, RandomState>, item: u64, priority: u128) -> (before: Option<u128>)
    ensures
        queue_entries(*final(q)) == queue_entries(*old(q)).insert(item, priority),
        before == (if queue_entries(*old(q)).contains_key(item) {
            Some(queue_entries(*old(q))[item])
        } else {
            None
        }),
{
    q.push(item, priority)
}

/// `PriorityQueue::pop`: removes and returns an item with a greatest
/// priority, with that priority; nothing when the queue is empty. Which of
/// several items with the greatest priority leaves is not determined.
#[verifier::external_body]
pub(crate) fn queue_pop(q: &mut PriorityQueue<u64, u128, RandomState>) -> (top: Option<(u64, u128)>)
    ensures
        top is None <==> queue_entries(*old(q)).dom() == Set::<u64>::empty(),
        top is None ==> queue_entries(*final(q)) == queue_entries(*old(q)),
        top matches Some((item, priority)) ==> {
            &&& is_top(queue_entries(*old(q)), item)
            &&& queue_entries(*old(q))[item] == priority
            &&& queue_entries(*final(q)) == queue_entries(*old(q)).remove(item)
        },
{
    q.pop()
}

/// `PriorityQueue::change_priority`: gives `item` a new priority when it is
/// in the queue, returning the old one; otherwise changes nothing.
#[verifier::external_body]
pub(crate) fn queue_change_priority(q: &mut PriorityQueue<u64, u128, RandomState>, item: u64, priority: u128) -> (before: Option<u128>)
    ensures
        before == (if queue_entries(*old(q)).contains_key(item) {
            Some(queue_entries(*old(q))[item])
        } else {
            None
        }),
        queue_entries(*final(q)) == (if queue_entries(*old(q)).contains_key(item) {
            queue_entries(*old(q)).insert(item, priority)
        } else {
            queue_entries(*old(q))
        }),
{
    q.change_priority(&item, priority)
}

/// `PriorityQueue::get_priority`: the priority of `item`, if it is in the
/// queue.
#[verifier::external_body]
pub(crate) fn queue_get_priority(q: &PriorityQueue<u64, u128, RandomState>, item: u64) -> (priority: Option<u128>)
    ensures
        priority == (if queue_entries(*q).contains_key(item) {
            Some(queue_entries(*q)[item])
        } else {
            None
        }),
{
    q.get_priority(&item).copied()
}

} // verus!
