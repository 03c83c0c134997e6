//! First-in-first-out work queues of the collector.

use vstd::prelude::*;

verus! {

/// One entry of a work queue.
pub type WorkItem = (u64, u64, u64, u64);

#[verifier::external_type_specification]
#[verifier::external_body]
#[verifier::reject_recursive_types(T)]
pub struct ExSegQueue<T>(crossbeam_queue::SegQueue<T>);

/// The entries of a queue, the oldest first.
pub uninterp spec fn queue_items(queue: crossbeam_queue::SegQueue<WorkItem>) -> Seq<WorkItem>;

/// `SegQueue::new`: an empty queue.
#[verifier::external_body]
fn queue_new() -> (queue: crossbeam_queue::SegQueue<WorkItem>)
    ensures
        queue_items(queue).len() == 0,
{
    crossbeam_queue::SegQueue::new()
}

/// `SegQueue::push`: puts an entry behind all others.
#[verifier::external_body]
fn queue_push(queue: &mut crossbeam_queue::SegQueue<WorkItem>, item: WorkItem)
    ensures
        queue_items(*final(queue)) == queue_items(*old(queue)).push(item),
{
    queue.push(item)
}

/// `SegQueue::pop`: takes the oldest entry, if there is one.
#[verifier::external_body]
fn queue_pop(queue: &mut crossbeam_queue::SegQueue<WorkItem>) -> (item: Option<WorkItem>)
    ensures
        queue_items(*old(queue)).len() == 0 ==> item is None && queue_items(*final(queue))
            == queue_items(*old(queue)),
        queue_items(*old(queue)).len() > 0 ==> item == Some(queue_items(*old(queue))[0])
            && queue_items(*final(queue)) == queue_items(*old(queue)).drop_first(),
{
    queue.pop()
}

/// `SegQueue::len`: the number of entries.
#[verifier::external_body]
fn queue_len(queue: &crossbeam_queue::SegQueue<WorkItem>) -> (length: usize)
    ensures
        length == queue_items(*queue).len(),
{
    queue.len()
}

/// A queue of work for the collector.
pub struct WorkQueue {
    inner: crossbeam_queue::SegQueue<WorkItem>,
}

impl View for WorkQueue {
    type V = Seq<WorkItem>;

    closed spec fn view(&self) -> Seq<WorkItem> {
        queue_items(self.inner)
    }
}

impl WorkQueue {
    pub fn new() -> (queue: Self)
        ensures
            queue@ == Seq::<WorkItem>::empty(),
    {
        let queue = Self { inner: queue_new() };
        assert(queue@ =~= Seq::empty());
        queue
    }

    pub fn push(&mut self, item: WorkItem)
        ensures
            final(self)@ == old(self)@.push(item),
    {
        queue_push(&mut self.inner, item);
    }

    pub fn pop(&mut self) -> (item: Option<WorkItem>)
        ensures
            old(self)@.len() == 0 ==> item is None && final(self)@ == old(self)@,
            old(self)@.len() > 0 ==> item == Some(old(self)@[0]) && final(self)@ == old(
                self,
            )@.drop_first(),
    {
        queue_pop(&mut self.inner)
    }

    pub fn len(&self) -> (length: usize)
        ensures
            length == self@.len(),
    {
        queue_len(&self.inner)
    }
}

} // verus!
