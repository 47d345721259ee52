//! Input events of the engine on their way into the frame.
//!
//! The engine hands an input event over either before or after the scene had
//! its chance to handle it. Both kinds come through one queue; the frame
//! sees them as two streams.
use vstd::prelude::*;
use crate::channel::NotificationChannel;

verus! {

/// Through which callback an input event came.
#[derive(Debug, PartialEq, Eq, Clone, Copy, Structural)]
pub enum InputEventType {
    /// Before the scene could handle it.
    Normal,
    /// After nothing in the scene has handled it.
    Unhandled,
}

/// An input event that came before the scene could handle it. `E` is the
/// reference to the event that the engine handed over.
#[derive(Debug)]
pub struct InputEvent<E>(pub E);

/// An input event that nothing in the scene has handled. `E` is the
/// reference to the event that the engine handed over.
#[derive(Debug)]
pub struct UnhandledInputEvent<E>(pub E);

impl<E> InputEvent<E> {
    /// The event of the engine.
    pub fn get(&self) -> (event: &E)
        ensures
            *event == self.0,
    {
        &self.0
    }
}

impl<E> UnhandledInputEvent<E> {
    /// The event of the engine.
    pub fn get(&self) -> (event: &E)
        ensures
            *event == self.0,
    {
        &self.0
    }
}

/// The end of the queue of input events from which the frame reads.
#[derive(Debug)]
pub struct InputEventReader<E>(pub NotificationChannel<(InputEventType, E)>);

/// The events of one kind among those that came, in the order in which they
/// came.
pub open spec fn of_kind<E>(arrived: Seq<(InputEventType, E)>, kind: InputEventType) -> Seq<E>
    decreases arrived.len(),
{
    if arrived.len() == 0 {
        Seq::empty()
    } else {
        let front = of_kind(arrived.drop_last(), kind);
        if arrived.last().0 == kind {
            front.push(arrived.last().1)
        } else {
            front
        }
    }
}

/// The events that `InputEvent`s carry.
pub open spec fn normal_view<E>(events: Seq<InputEvent<E>>) -> Seq<E> {
    Seq::new(events.len(), |i: int| events[i].0)
}

/// The events that `UnhandledInputEvent`s carry.
pub open spec fn unhandled_view<E>(events: Seq<UnhandledInputEvent<E>>) -> Seq<E> {
    Seq::new(events.len(), |i: int| events[i].0)
}

/// Drains the queue of input events into the two streams of the frame: the
/// events of each kind, in the order in which they came.
pub fn write_input_events<E>(events: &mut InputEventReader<E>) -> (streams: (
    Vec<InputEvent<E>>,
    Vec<UnhandledInputEvent<E>>,
))
    ensures
        normal_view(streams.0@) == of_kind(old(events).0@, InputEventType::Normal),
        unhandled_view(streams.1@) == of_kind(old(events).0@, InputEventType::Unhandled),
        final(events).0@ == Seq::<(InputEventType, E)>::empty(),
{
    let arrived = events.0.try_drain();
    let ghost all = arrived@;
    let mut normal: Vec<InputEvent<E>> = Vec::new();
    let mut unhandled: Vec<UnhandledInputEvent<E>> = Vec::new();
    for pair in it: arrived
        invariant
            all == it.seq(),
            normal_view(normal@) == of_kind(all.take(it.index()), InputEventType::Normal),
            unhandled_view(unhandled@) == of_kind(all.take(it.index()), InputEventType::Unhandled),
    {
        let ghost i = it.index();
        let ghost normal_before = normal_view(normal@);
        let ghost unhandled_before = unhandled_view(unhandled@);
        proof {
            assert(all.take(i + 1).drop_last() == all.take(i));
            assert(all.take(i + 1).last() == pair);
        }
        let (kind, event) = pair;
        match kind {
            InputEventType::Normal => {
                normal.push(InputEvent(event));
                assert(normal_view(normal@) =~= normal_before.push(event));
            },
            InputEventType::Unhandled => {
                unhandled.push(UnhandledInputEvent(event));
                assert(unhandled_view(unhandled@) =~= unhandled_before.push(event));
            },
        }
    }
    proof {
        assert(all.take(all.len() as int) == all);
    }
    (normal, unhandled)
}

} // verus!
