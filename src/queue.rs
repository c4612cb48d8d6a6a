//! First-in-first-out queues of waiting market orders, held by
//! `crossbeam_queue::SegQueue`.
use vstd::prelude::*;
use crossbeam_queue::SegQueue;

verus! {

#[verifier::external_type_specification]
#[verifier::external_body]
#[verifier::reject_recursive_types(T)]
pub struct ExSegQueue<T>(SegQueue<T>);

/// The entries of a queue, oldest first: order identifier and the quantity
/// still wanted.
pub uninterp spec fn queued(q: SegQueue<(u128, u64)>) -> Seq<(u128, u64)>;

/// Relies on `SegQueue::new`: a new queue is empty.
#[verifier::external_body]
pub(crate) fn queue_new() -> (r: SegQueue<(u128, u64)>)
    ensures
        queued(r).len() == 0,
{
    SegQueue::new()
}

/// Relies on `SegQueue::push`: the entry goes to the back.
#[verifier::external_body]
pub(crate) fn queue_push(q: &mut SegQueue<(u128, u64)>, e: (u128, u64))
    ensures
        queued(*final(q)) == queued(*old(q)).push(e),
{
    q.push(e)
}

/// Relies on `SegQueue::pop`: the oldest entry leaves, if there is one.
#[verifier::external_body]
pub(crate) fn queue_pop(q: &mut SegQueue<(u128, u64)>) -> (r: Option<(u128, u64)>)
    ensures
        queued(*old(q)).len() == 0 ==> r is None && queued(*final(q)) == queued(*old(q)),
        queued(*old(q)).len() > 0 ==> r == Some(queued(*old(q))[0]) && queued(*final(q)) == queued(
            *old(q),
        ).drop_first(),
{
    q.pop()
}

/// Relies on `SegQueue::len`: the number of entries.
#[verifier::external_body]
pub(crate) fn queue_len(q: &SegQueue<(u128, u64)>) -> (r: usize)
    ensures
        r == queued(*q).len(),
{
    q.len()
}

} // verus!
