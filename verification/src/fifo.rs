//! The queue in which the searches keep the cells they have yet to look at.

use queues::IsQueue;
use queues::Queue;
use vstd::prelude::*;

verus! {

/// `queues::Queue`, a first-in, first-out queue over a vector.
#[verifier::external_type_specification]
#[verifier::external_body]
#[verifier::reject_recursive_types(T)]
pub struct ExQueue<T: Clone>(Queue<T>);

/// The items that wait in a queue, the oldest first.
pub uninterp spec fn queued(queue: Queue<u64>) -> Seq<u64>;

/// `Queue::new`: a queue in which nothing waits.
#[verifier::external_body]
pub(crate) fn queue_new() -> (queue: Queue<u64>)
    ensures
        queued(queue) == Seq::<u64>::empty(),
{
    Queue::new()
}

/// `IsQueue::add` on a `Queue`: the item is put behind all that wait. On
/// this kind of queue the call never fails and hands nothing back.
#[verifier::external_body]
pub(crate) fn queue_add(queue: &mut Queue<u64>, item: u64)
    ensures
        queued(*final(queue)) == queued(*old(queue)).push(item),
{
    let _ = queue.add(item);
}

/// `IsQueue::remove` on a `Queue`: the oldest item leaves the queue and is
/// handed back; a queue in which nothing waits stays as it is and hands
/// back nothing.
#[verifier::external_body]
pub(crate) fn queue_remove(queue: &mut Queue<u64>) -> (item: Option<u64>)
    ensures
        match item {
            Some(oldest) => {
                &&& queued(*old(queue)).len() > 0
                &&& oldest == queued(*old(queue))[0]
                &&& queued(*final(queue)) == queued(*old(queue)).drop_first()
            },
            None => queued(*old(queue)).len() == 0 && queued(*final(queue)) == queued(*old(queue)),
        },
{
    queue.remove().ok()
}

/// `IsQueue::size` on a `Queue`: the number of items that wait.
#[verifier::external_body]
pub(crate) fn queue_size(queue: &Queue<u64>) -> (size: usize)
    ensures
        size == queued(*queue).len(),
{
    queue.size()
}

} // verus!
