use vstd::prelude::*;
use priority_queue::PriorityQueue;
use std::hash::Hash;

verus! {

#[verifier::external_type_specification]
#[verifier::external_body]
#[verifier::reject_recursive_types(I)]
#[verifier::reject_recursive_types(P)]
#[verifier::reject_recursive_types(H)]
pub struct ExPriorityQueue<I, P, H>(PriorityQueue<I, P, H>) where I: Hash + Eq, P: Ord;

/// A queue of retransmission deadlines, keyed by sequence number.
pub type Deadlines = PriorityQueue<u64, u64>;

/// What a queue of retransmission deadlines holds: each item's priority.
pub uninterp spec fn pq_contents(q: Deadlines) -> Map<u64, u64>;

/// Relies on `PriorityQueue::new`: the queue starts empty.
#[verifier::external_body]
pub(crate) fn pq_new() -> (r: Deadlines)
    ensures
        pq_contents(r).dom() == Set::<u64>::empty(),
        pq_contents(r).dom().finite(),
{
    PriorityQueue::new()
}

/// Relies on `PriorityQueue::push`: an item already present has its priority
/// replaced and the old one returned; otherwise the pair is added.
#[verifier::external_body]
pub(crate) fn pq_push(q: &mut Deadlines, item: u64, priority: u64) -> (r: Option<u64>)
    ensures
        pq_contents(*final(q)) == pq_contents(*old(q)).insert(item, priority),
        r == (if pq_contents(*old(q)).contains_key(item) {
            Some(pq_contents(*old(q))[item])
        } else {
            None
        }),
{
    q.push(item, priority)
}

/// Relies on `PriorityQueue::peek`: a pair of greatest priority, or `None`
/// when the queue is empty.
#[verifier::external_body]
pub(crate) fn pq_peek(q: &Deadlines) -> (r: Option<(u64, u64)>)
    ensures
        match r {
            None => pq_contents(*q).dom() == Set::<u64>::empty(),
            Some((i, p)) => {
                &&& pq_contents(*q).contains_key(i)
                &&& pq_contents(*q)[i] == p
                &&& forall|j: u64| #[trigger] pq_contents(*q).contains_key(j) ==> pq_contents(*q)[j] <= p
            },
        },
{
    q.peek().map(|(i, p)| (*i, *p))
}

/// Relies on `PriorityQueue::pop`: removes and returns a pair of greatest
/// priority, or `None` when the queue is empty.
#[verifier::external_body]
pub(crate) fn pq_pop(q: &mut Deadlines) -> (r: Option<(u64, u64)>)
    ensures
        match r {
            None => {
                &&& pq_contents(*old(q)).dom() == Set::<u64>::empty()
                &&& pq_contents(*final(q)) == pq_contents(*old(q))
            },
            Some((i, p)) => {
                &&& pq_contents(*old(q)).contains_key(i)
                &&& pq_contents(*old(q))[i] == p
                &&& forall|j: u64| #[trigger] pq_contents(*old(q)).contains_key(j) ==> pq_contents(*old(q))[j] <= p
                &&& pq_contents(*final(q)) == pq_contents(*old(q)).remove(i)
            },
        },
{
    q.pop()
}

} // verus!
