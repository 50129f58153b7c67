//! The places that a search has reached and not yet left, kept in the
//! priority queue of the `priority-queue` crate with the nearest first.
use priority_queue::PriorityQueue;
use std::cmp::Reverse;
use std::collections::hash_map::RandomState;
use std::hash::Hash;
use vstd::prelude::*;

verus! {

/// The queue of the `priority-queue` crate.
#[verifier::external_type_specification]
#[verifier::external_body]
#[verifier::reject_recursive_types(I)]
#[verifier::reject_recursive_types(P)]
#[verifier::reject_recursive_types(H)]
pub struct ExPriorityQueue<I: Hash + Eq, P: Ord, H>(PriorityQueue<I, P, H>);

/// The wrapper of std that turns an order round.
#[verifier::external_type_specification]
#[verifier::external_body]
#[verifier::reject_recursive_types(T)]
pub struct ExReverse<T>(Reverse<T>);

/// A place: a column and a row.
pub type Place = (usize, usize);

/// A queue of places, the one with the least distance first.
pub type Frontier = PriorityQueue<Place, Reverse<usize>, RandomState>;

/// What the queue holds: the places in it, each with its distance.
pub uninterp spec fn queued(q: Frontier) -> Map<Place, usize>;

/// `PriorityQueue::new`: an empty queue.
#[verifier::external_body]
pub(crate) fn queue_new() -> (queue: Frontier)
    ensures
        (queued(queue) == Map::<Place, usize>::empty()),
{
    PriorityQueue::new()
}

/// `PriorityQueue::push`: enters the place with the distance; where the
/// queue holds the place already, its distance is replaced.
#[verifier::external_body]
pub(crate) fn queue_push(
    q: &mut Frontier,
    place: Place,
    distance: usize,
)
    ensures
        queued(*final(q)) == queued(*old(q)).insert(place, distance),
{
    q.push(place, Reverse(distance));
}

/// `PriorityQueue::pop`: takes out a place of the greatest priority, which
/// in the reversed order is one of the least distance; `None` where the
/// queue is empty. Which of several places at the least distance it takes
/// is left open.
#[verifier::external_body]
pub(crate) fn queue_pop(
    q: &mut Frontier,
) -> (r: Option<(Place, usize)>)
    ensures
        match r {
            Some((place, distance)) => {
                &&& queued(*old(q)).contains_key(place)
                &&& queued(*old(q))[place] == distance
                &&& queued(*final(q)) == queued(*old(q)).remove(place)
                &&& forall|other: Place|
                    queued(*old(q)).contains_key(other) ==> distance <= #[trigger] queued(
                        *old(q),
                    )[other]
            },
            None => queued(*old(q)).dom() == Set::<Place>::empty() && queued(*final(q))
                == queued(*old(q)),
        },
{
    match q.pop() {
        Some((place, Reverse(distance))) => Some((place, distance)),
        None => None,
    }
}

} // verus!
