//! Signals of the engine, relayed into the frame.
//!
//! Whoever wants to hear a signal of an object has the engine route it
//! through one shared relay. The engine then calls the relay with the values
//! of the signal, followed by what was bound when the signal was connected:
//! the relay itself, the object that emits, and the name of the signal. The
//! relay finds its own reference among the values and so tells the values of
//! the signal from the frame around them.
use vstd::prelude::*;
use crate::channel::NotificationChannel;
use crate::godot_ref::ErasedGodotRef;

verus! {

/// How many values a signal can carry through the relay.
pub const MAX_RELAYED_VALUES: usize = 9;

/// How many values the engine hands to the relay in one call at most: the
/// values of the signal and the three that are bound to the connection.
pub const RELAY_SLOTS: usize = 12;

/// One value as it reaches the relay, with what the relay reads from it.
#[derive(Debug)]
pub struct RelayedValue<V> {
    /// The value of the engine.
    pub value: V,
    /// Whether the value is the reference to the relay itself.
    pub is_relay: bool,
    /// The object that the value refers to, if it refers to one.
    pub object: Option<ErasedGodotRef>,
    /// The text that the value holds, if it holds text.
    pub text: Option<String>,
}

/// A signal that an object of the engine has emitted.
#[derive(Debug)]
pub struct GodotSignal<V> {
    name: String,
    origin: ErasedGodotRef,
    args: Vec<V>,
}

/// The end of the queue of signals from which the frame reads.
#[derive(Debug)]
pub struct GodotSignalReader<V>(pub NotificationChannel<GodotSignal<V>>);

/// Why a call of the relay gives no signal.
#[derive(Clone, Copy, Debug, PartialEq, Eq, Structural)]
pub enum SignalError {
    /// The reference to the relay is not among the values.
    NoRelay,
    /// More values stand before the reference to the relay than a signal
    /// can carry.
    TooManyValues,
    /// No value follows the reference to the relay.
    NoOrigin,
    /// The value behind the reference to the relay refers to no object.
    OriginNotObject,
    /// No value follows the origin.
    NoName,
    /// The value behind the origin holds no text.
    NameNotText,
}

/// The values that are there, in the order of their slots.
pub open spec fn present<A>(slots: Seq<Option<A>>) -> Seq<A>
    decreases slots.len(),
{
    if slots.len() == 0 {
        Seq::empty()
    } else {
        let front = present(slots.drop_last());
        match slots.last() {
            Some(a) => front.push(a),
            None => front,
        }
    }
}

/// Whether place `n` holds the first reference to the relay.
pub open spec fn relay_at<V>(values: Seq<RelayedValue<V>>, n: int) -> bool {
    &&& 0 <= n < values.len()
    &&& values[n].is_relay
    &&& forall|j: int| 0 <= j < n ==> !(#[trigger] values[j]).is_relay
}

/// Whether the reference to the relay is among the values.
pub open spec fn has_relay<V>(values: Seq<RelayedValue<V>>) -> bool {
    exists|n: int| relay_at(values, n)
}

/// The place of the first reference to the relay.
pub open spec fn relay_place<V>(values: Seq<RelayedValue<V>>) -> int {
    choose|n: int| relay_at(values, n)
}

/// Why the values give no signal, or `None` where they give one.
pub open spec fn frame_error<V>(values: Seq<RelayedValue<V>>) -> Option<SignalError> {
    let n = relay_place(values);
    if !has_relay(values) {
        Some(SignalError::NoRelay)
    } else if n > MAX_RELAYED_VALUES {
        Some(SignalError::TooManyValues)
    } else if n + 1 >= values.len() {
        Some(SignalError::NoOrigin)
    } else if values[n + 1].object is None {
        Some(SignalError::OriginNotObject)
    } else if n + 2 >= values.len() {
        Some(SignalError::NoName)
    } else if values[n + 2].text is None {
        Some(SignalError::NameNotText)
    } else {
        None
    }
}

/// Whether `signal` is the signal that the values give: its values are those
/// before the reference to the relay, its origin is the object behind that
/// reference, and its name is the text behind the origin.
pub open spec fn framed<V>(values: Seq<RelayedValue<V>>, signal: GodotSignal<V>) -> bool {
    let n = relay_place(values);
    &&& signal.spec_args() == Seq::new(n as nat, |j: int| values[j].value)
    &&& Some(signal.spec_origin()) == values[n + 1].object
    &&& values[n + 2].text matches Some(text)
    &&& signal.spec_name() == text@
}

/// The first reference to the relay stands at one place only.
pub proof fn lemma_relay_place<V>(values: Seq<RelayedValue<V>>, n: int)
    requires
        relay_at(values, n),
    ensures
        has_relay(values),
        relay_place(values) == n,
{
    let m = relay_place(values);
    assert(relay_at(values, m));
    if m < n {
        assert(!values[m].is_relay);
    }
    if n < m {
        assert(!values[n].is_relay);
    }
}

impl<V> GodotSignal<V> {
    /// The name of the signal.
    pub closed spec fn spec_name(self) -> Seq<char> {
        self.name@
    }

    /// The object that emitted the signal.
    pub closed spec fn spec_origin(self) -> ErasedGodotRef {
        self.origin
    }

    /// The values of the signal.
    pub closed spec fn spec_args(self) -> Seq<V> {
        self.args@
    }

    /// The signal of the given name, origin and values.
    pub fn new(name: String, origin: ErasedGodotRef, args: Vec<V>) -> (signal: Self)
        ensures
            signal.spec_name() == name@,
            signal.spec_origin() == origin,
            signal.spec_args() == args@,
    {
        GodotSignal { name, origin, args }
    }

    /// The name of the signal.
    pub fn name(&self) -> (name: &str)
        ensures
            name@ == self.spec_name(),
    {
        self.name.as_str()
    }

    /// The object that emitted the signal, as it was named when the signal
    /// came.
    pub fn origin(&self) -> (origin: ErasedGodotRef)
        ensures
            origin@ == self.spec_origin()@,
    {
        self.origin.clone()
    }

    /// The values of the signal.
    pub fn args(&self) -> (args: &[V])
        ensures
            args@ == self.spec_args(),
    {
        self.args.as_slice()
    }
}

/// The values that are there among the slots of one call of the relay.
pub fn present_values<A>(slots: Vec<Option<A>>) -> (values: Vec<A>)
    ensures
        values@ == present(slots@),
{
    let ghost all = slots@;
    let mut values: Vec<A> = Vec::new();
    for slot in it: slots
        invariant
            all == it.seq(),
            values@ == present(all.take(it.index())),
    {
        proof {
            assert(all.take(it.index() + 1).drop_last() == all.take(it.index()));
        }
        match slot {
            Some(value) => {
                values.push(value);
            },
            None => {},
        }
    }
    proof {
        assert(all.take(all.len() as int) == all);
    }
    values
}

/// Makes the signal out of the values of one call of the relay.
///
/// The values before the first reference to the relay are the values of the
/// signal, of which there may be nine. The value behind that reference names
/// the object that emitted, and the value behind that one holds the name of
/// the signal.
pub fn frame_signal<V>(values: Vec<RelayedValue<V>>) -> (signal: Result<
    GodotSignal<V>,
    SignalError,
>)
    ensures
        match signal {
            Ok(s) => frame_error(values@) is None && framed(values@, s),
            Err(e) => frame_error(values@) == Some(e),
        },
{
    let ghost all = values@;
    let mut args: Vec<V> = Vec::new();
    let mut seen: bool = false;
    let mut origin: Option<Option<ErasedGodotRef>> = None;
    let mut name: Option<Option<String>> = None;
    for relayed in it: values
        invariant
            all == it.seq(),
            args@.len() <= it.index(),
            args@ == Seq::new(args@.len(), |j: int| all[j].value),
            forall|j: int| 0 <= j < args@.len() ==> !(#[trigger] all[j]).is_relay,
            !seen ==> args@.len() == it.index() && origin is None && name is None,
            seen ==> args@.len() < it.index() && all[args@.len() as int].is_relay,
            seen ==> (origin is Some <==> it.index() > args@.len() + 1),
            seen ==> (name is Some <==> it.index() > args@.len() + 2),
            origin matches Some(found) ==> found == all[args@.len() as int + 1].object,
            name matches Some(found) ==> found == all[args@.len() as int + 2].text,
    {
        let RelayedValue { value, is_relay, object, text } = relayed;
        if !seen {
            if is_relay {
                seen = true;
            } else {
                args.push(value);
                assert(args@ =~= Seq::new(args@.len(), |j: int| all[j].value));
            }
        } else if origin.is_none() {
            origin = Some(object);
        } else if name.is_none() {
            name = Some(text);
        }
    }
    if !seen {
        proof {
            if has_relay(all) {
                let n = relay_place(all);
                assert(relay_at(all, n));
                assert(!all[n].is_relay);
            }
        }
        return Err(SignalError::NoRelay);
    }
    proof {
        lemma_relay_place(all, args@.len() as int);
    }
    if args.len() > MAX_RELAYED_VALUES {
        return Err(SignalError::TooManyValues);
    }
    let origin = match origin {
        None => {
            return Err(SignalError::NoOrigin);
        },
        Some(None) => {
            return Err(SignalError::OriginNotObject);
        },
        Some(Some(object)) => object,
    };
    let name = match name {
        None => {
            return Err(SignalError::NoName);
        },
        Some(None) => {
            return Err(SignalError::NameNotText);
        },
        Some(Some(text)) => text,
    };
    Ok(GodotSignal::new(name, origin, args))
}

/// Drains the queue of signals into the events of the frame.
pub fn write_godot_signal_events<V>(events: &mut GodotSignalReader<V>) -> (stream: Vec<
    GodotSignal<V>,
>)
    ensures
        stream@ == old(events).0@,
        final(events).0@ == Seq::<GodotSignal<V>>::empty(),
{
    events.0.try_drain()
}

/// The values of one call of the relay: the values of the signal, followed
/// by what the connection binds.
pub open spec fn relayed<V>(
    args: Seq<RelayedValue<V>>,
    relay: RelayedValue<V>,
    origin: RelayedValue<V>,
    name: RelayedValue<V>,
) -> Seq<RelayedValue<V>> {
    args.push(relay).push(origin).push(name)
}

/// What is bound to the connection frames the signal.
///
/// When the values of a signal, nine at most and none of them the relay, are
/// followed by the relay, the origin and the name, as the connection binds
/// them, the
/// relay makes a signal of them, and that signal has exactly the values that
/// came before the relay, the origin and the name that were bound.
pub proof fn lemma_bound_values_frame<V>(
    args: Seq<RelayedValue<V>>,
    relay: RelayedValue<V>,
    origin: RelayedValue<V>,
    name: RelayedValue<V>,
    signal: GodotSignal<V>,
)
    requires
        args.len() <= MAX_RELAYED_VALUES,
        forall|i: int| 0 <= i < args.len() ==> !(#[trigger] args[i]).is_relay,
        relay.is_relay,
        origin.object is Some,
        name.text is Some,
    ensures
        frame_error(relayed(args, relay, origin, name)) is None,
        framed(relayed(args, relay, origin, name), signal) <==> {
            &&& signal.spec_args() == Seq::new(args.len(), |j: int| args[j].value)
            &&& Some(signal.spec_origin()) == origin.object
            &&& signal.spec_name() == name.text->Some_0@
        },
{
    let values = relayed(args, relay, origin, name);
    let n = args.len() as int;
    assert(values[n] == relay);
    assert(values[n + 1] == origin);
    assert(values[n + 2] == name);
    assert forall|j: int| 0 <= j < n implies !(#[trigger] values[j]).is_relay by {
        assert(values[j] == args[j]);
    }
    lemma_relay_place(values, n);
    assert(Seq::new(n as nat, |j: int| values[j].value) =~= Seq::new(
        args.len(),
        |j: int| args[j].value,
    ));
}

} // verus!
