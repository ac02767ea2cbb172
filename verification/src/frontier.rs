//! Trusted boundary around the outside priority queue that holds a plank's
//! frontier: the pending candidate inclusion masks, each keyed by the sum of
//! lengths its adoption would produce.  The queue is used greatest-first, so
//! every priority is wrapped in `Reverse` to pop the least sum first.
//!
//! `frontier_of` names the queue's contents as a map from mask to sum; the
//! wrappers below say how each call moves that map, and everything else about
//! the frontier is proved from their contracts.

use core::cmp::Reverse;
use priority_queue::PriorityQueue;
use vstd::prelude::*;

verus! {

#[verifier::external_type_specification]
#[verifier::external_body]
#[verifier::reject_recursive_types(T)]
pub struct ExReverse<T>(Reverse<T>);

#[verifier::external_type_specification]
#[verifier::external_body]
#[verifier::reject_recursive_types(I)]
#[verifier::reject_recursive_types(P)]
#[verifier::reject_recursive_types(H)]
pub struct ExPriorityQueue<I, P, H>(PriorityQueue<I, P, H>);

/// What the frontier holds: for each queued inclusion mask, the sum of
/// lengths that adopting it would produce.
pub uninterp spec fn frontier_of(q: PriorityQueue<Vec<bool>, Reverse<u64>>) -> Map<Seq<bool>, u64>;

/// A frontier with nothing pending.
pub open spec fn empty_frontier() -> Map<Seq<bool>, u64> {
    Map::empty()
}

/// Relies on `PriorityQueue::new`: a freshly created queue is empty.
#[verifier::external_body]
pub(crate) fn fq_new() -> (q: PriorityQueue<Vec<bool>, Reverse<u64>>)
    ensures
        frontier_of(q) == empty_frontier(),
{
    PriorityQueue::new()
}

/// Relies on `PriorityQueue::push`: queues the mask with its priority, or
/// replaces the priority of a mask that is already queued.
#[verifier::external_body]
pub(crate) fn fq_push(q: &mut PriorityQueue<Vec<bool>, Reverse<u64>>, bits: Vec<bool>, sum: u64)
    ensures
        frontier_of(*final(q)) == frontier_of(*old(q)).insert(bits@, sum),
{
    q.push(bits, Reverse(sum));
}

/// Relies on `PriorityQueue::is_empty`.
#[verifier::external_body]
pub(crate) fn fq_is_empty(q: &PriorityQueue<Vec<bool>, Reverse<u64>>) -> (r: bool)
    ensures
        r <==> frontier_of(*q) == empty_frontier(),
{
    q.is_empty()
}

/// Relies on `PriorityQueue::pop`: removes and returns an entry of greatest
/// priority, which under `Reverse` is an entry of least sum (which of several
/// equal-sum entries leaves is not specified); returns `None` exactly when
/// the queue is empty.
#[verifier::external_body]
pub(crate) fn fq_pop(q: &mut PriorityQueue<Vec<bool>, Reverse<u64>>) -> (r: Option<
    (Vec<bool>, u64),
>)
    ensures
        match r {
            None => {
                &&& frontier_of(*old(q)) == empty_frontier()
                &&& frontier_of(*final(q)) == frontier_of(*old(q))
            },
            Some(entry) => {
                &&& frontier_of(*old(q)).contains_key(entry.0@)
                &&& frontier_of(*old(q))[entry.0@] == entry.1
                &&& forall|b2: Seq<bool>|
                    #[trigger] frontier_of(*old(q)).contains_key(b2) ==> entry.1 <= frontier_of(
                        *old(q),
                    )[b2]
                &&& frontier_of(*final(q)) == frontier_of(*old(q)).remove(entry.0@)
            },
        },
{
    match q.pop() {
        None => None,
        Some((bits, p)) => Some((bits, p.0)),
    }
}

} // verus!
