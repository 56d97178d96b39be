//! The queue of ids whose entries wait to be taken out.
use crossbeam::queue::SegQueue;
use vstd::prelude::*;

use crate::entry::EntryId;

verus! {

/// The declaration of `crossbeam::queue::SegQueue`.
#[verifier::external_type_specification]
#[verifier::external_body]
#[verifier::reject_recursive_types(T)]
pub struct ExSegQueue<T>(crossbeam::queue::SegQueue<T>);

/// The lists in a queue, the oldest first.
pub uninterp spec fn queued(queue: SegQueue<Vec<Option<EntryId>>>) -> Seq<Seq<Option<EntryId>>>;

/// `SegQueue::new`: an empty queue.
#[verifier::external_body]
pub(crate) fn new_queue() -> (queue: SegQueue<Vec<Option<EntryId>>>)
    ensures
        queued(queue).len() == 0,
{
    SegQueue::new()
}

/// `SegQueue::push`: the list becomes the youngest of the queue.
#[verifier::external_body]
pub(crate) fn push(queue: &mut SegQueue<Vec<Option<EntryId>>>, list: Vec<Option<EntryId>>)
    ensures
        queued(*final(queue)) == queued(*old(queue)).push(list@),
{
    queue.push(list)
}

/// `SegQueue::pop`: takes the oldest list out of the queue, if it holds one.
#[verifier::external_body]
pub(crate) fn pop(queue: &mut SegQueue<Vec<Option<EntryId>>>) -> (list: Option<
    Vec<Option<EntryId>>,
>)
    ensures
        match list {
            Some(list) => {
                &&& queued(*old(queue)).len() > 0
                &&& list@ == queued(*old(queue))[0]
                &&& queued(*final(queue)) == queued(*old(queue)).drop_first()
            },
            None => queued(*old(queue)).len() == 0 && queued(*final(queue)) == queued(*old(queue)),
        },
{
    queue.pop()
}

/// `SegQueue::is_empty`: whether the queue holds no list.
#[verifier::external_body]
pub(crate) fn is_empty(queue: &SegQueue<Vec<Option<EntryId>>>) -> (empty: bool)
    ensures
        empty == (queued(*queue).len() == 0),
{
    queue.is_empty()
}

} // verus!
