//! The queues through which the notifications of the engine reach the frame.
//!
//! The engine calls back whenever it pleases. What it tells is put into a
//! queue, and once in every frame the queue is drained into the events of
//! that frame: what was put before the drain is seen in this frame, in the
//! order in which it came, and what is put later waits for the next one.
use vstd::prelude::*;

verus! {

/// A queue of notifications without a bound. Its value is the row of what
/// waits in it, the oldest first.
#[derive(Debug)]
pub struct NotificationChannel<T> {
    queue: Vec<T>,
}

impl<T> View for NotificationChannel<T> {
    type V = Seq<T>;

    closed spec fn view(&self) -> Seq<T> {
        self.queue@
    }
}

impl<T> NotificationChannel<T> {
    /// The empty queue.
    pub fn new() -> (channel: Self)
        ensures
            channel@ == Seq::<T>::empty(),
    {
        NotificationChannel { queue: Vec::new() }
    }

    /// Puts one notification behind those that wait.
    pub fn send(&mut self, item: T)
        ensures
            final(self)@ == old(self)@.push(item),
    {
        self.queue.push(item);
    }

    /// How many notifications wait.
    pub fn len(&self) -> (len: usize)
        ensures
            len == self@.len(),
    {
        self.queue.len()
    }

    /// Whether nothing waits.
    pub fn is_empty(&self) -> (empty: bool)
        ensures
            empty == (self@.len() == 0),
    {
        self.queue.len() == 0
    }

    /// Takes out everything that waits, the oldest first, and leaves the
    /// queue empty. Never waits for more.
    pub fn try_drain(&mut self) -> (drained: Vec<T>)
        ensures
            drained@ == old(self)@,
            final(self)@ == Seq::<T>::empty(),
    {
        let mut drained: Vec<T> = Vec::new();
        std::mem::swap(&mut drained, &mut self.queue);
        drained
    }
}

/// The queue after a row of notifications was sent, one after the other.
pub open spec fn sent_all<T>(queue: Seq<T>, items: Seq<T>) -> Seq<T>
    decreases items.len(),
{
    if items.len() == 0 {
        queue
    } else {
        sent_all(queue, items.drop_last()).push(items.last())
    }
}

/// Sending a row of notifications puts the row behind what waits.
pub proof fn lemma_sent_all<T>(queue: Seq<T>, items: Seq<T>)
    ensures
        sent_all(queue, items) == queue + items,
    decreases items.len(),
{
    if items.len() == 0 {
        assert(queue + items == queue);
    } else {
        lemma_sent_all(queue, items.drop_last());
        assert(queue + items == (queue + items.drop_last()).push(items.last()));
    }
}

/// Every frame sees what came before its drain, each notification once and
/// in its order.
///
/// What waits when a row of notifications comes is seen with that row by
/// the next drain, the waiting ones first. What comes after that drain finds
/// the queue empty, and so is seen by the drain after it, and by no other.
pub proof fn lemma_nothing_lost<T>(waiting: Seq<T>, before: Seq<T>, after: Seq<T>)
    ensures
        sent_all(waiting, before) == waiting + before,
        sent_all(Seq::<T>::empty(), after) == after,
{
    lemma_sent_all(waiting, before);
    lemma_sent_all(Seq::<T>::empty(), after);
    assert(Seq::<T>::empty() + after == after);
}

} // verus!
