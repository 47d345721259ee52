use bevy_godot::autoload::{
    godot_init, Autoload, FatalError, FrameKind, GodotSignalWatcher, NativeClass,
};
use bevy_godot::channel::NotificationChannel;
use bevy_godot::godot_ref::ErasedGodotRef;
use bevy_godot::input_event::{
    write_input_events, InputEvent, InputEventReader, InputEventType, UnhandledInputEvent,
};
use bevy_godot::signals::{
    frame_signal, present_values, write_godot_signal_events, GodotSignal, GodotSignalReader,
    RelayedValue, SignalError, MAX_RELAYED_VALUES, RELAY_SLOTS,
};
use bevy_godot::traversal::TreeWalk;

fn plain(value: i32) -> RelayedValue<i32> {
    RelayedValue { value, is_relay: false, object: None, text: None }
}

fn relay() -> RelayedValue<i32> {
    RelayedValue {
        value: -1,
        is_relay: true,
        object: Some(ErasedGodotRef::new(100, "Node".to_string())),
        text: None,
    }
}

fn object(id: i64) -> RelayedValue<i32> {
    RelayedValue {
        value: -2,
        is_relay: false,
        object: Some(ErasedGodotRef::new(id, "Button".to_string())),
        text: None,
    }
}

fn text(name: &str) -> RelayedValue<i32> {
    RelayedValue { value: -3, is_relay: false, object: None, text: Some(name.to_string()) }
}

#[test]
fn a_signal_is_framed_by_the_relay_the_origin_and_the_name() {
    let signal =
        frame_signal(vec![plain(1), plain(2), relay(), object(7), text("pressed")]).unwrap();
    assert_eq!(signal.name(), "pressed");
    assert_eq!(signal.origin().instance_id(), 7);
    assert_eq!(signal.origin().class_name(), "Button");
    assert_eq!(signal.args(), &[1, 2]);

    let bare = frame_signal(vec![relay(), object(8), text("timeout")]).unwrap();
    assert_eq!(bare.name(), "timeout");
    assert_eq!(bare.origin().instance_id(), 8);
    assert!(bare.args().is_empty());
}

#[test]
fn values_of_the_signal_may_be_objects_and_texts() {
    let signal = frame_signal(vec![object(5), text("hit"), relay(), object(7), text("body_entered")])
        .unwrap();
    assert_eq!(signal.args(), &[-2, -3]);
    assert_eq!(signal.origin().instance_id(), 7);
    assert_eq!(signal.name(), "body_entered");
    // what follows the name is not looked at; a second reference to the relay counts as a value
    let signal =
        frame_signal(vec![plain(1), relay(), relay(), text("again"), plain(4)]).unwrap();
    assert_eq!(signal.args(), &[1]);
    assert_eq!(signal.origin().instance_id(), 100);
    assert_eq!(signal.name(), "again");
}

#[test]
fn values_that_give_no_signal_are_told_apart() {
    assert_eq!(frame_signal(vec![plain(1), plain(2)]).err(), Some(SignalError::NoRelay));
    assert_eq!(frame_signal::<i32>(vec![]).err(), Some(SignalError::NoRelay));
    assert_eq!(frame_signal(vec![plain(1), relay()]).err(), Some(SignalError::NoOrigin));
    assert_eq!(
        frame_signal(vec![relay(), plain(1), text("x")]).err(),
        Some(SignalError::OriginNotObject)
    );
    assert_eq!(frame_signal(vec![relay(), object(7)]).err(), Some(SignalError::NoName));
    assert_eq!(
        frame_signal(vec![relay(), object(7), plain(3)]).err(),
        Some(SignalError::NameNotText)
    );
    let mut many: Vec<RelayedValue<i32>> = (0..10).map(plain).collect();
    many.push(relay());
    many.push(object(7));
    many.push(text("x"));
    assert_eq!(frame_signal(many).err(), Some(SignalError::TooManyValues));
    // without the relay, the number of values does not matter
    let lost: Vec<RelayedValue<i32>> = (0..20).map(plain).collect();
    assert_eq!(frame_signal(lost).err(), Some(SignalError::NoRelay));
}

#[test]
fn a_signal_carries_up_to_nine_values() {
    assert_eq!(MAX_RELAYED_VALUES, 9);
    assert_eq!(RELAY_SLOTS, 12);
    for count in 0..=9 {
        let mut values: Vec<RelayedValue<i32>> = (0..count).map(plain).collect();
        values.push(relay());
        values.push(object(7));
        values.push(text("fired"));
        let signal = frame_signal(values).unwrap();
        assert_eq!(signal.args(), (0..count).collect::<Vec<i32>>().as_slice());
        assert_eq!(signal.origin().instance_id(), 7);
        assert_eq!(signal.name(), "fired");
    }
    let mut reader: GodotSignalReader<i32> = GodotSignalReader(NotificationChannel::new());
    let mut slots: Vec<Option<RelayedValue<i32>>> = (0..9).map(|value| Some(plain(value))).collect();
    slots.push(Some(relay()));
    slots.push(Some(object(7)));
    slots.push(Some(text("fired")));
    assert_eq!(slots.len(), RELAY_SLOTS);
    assert_eq!(GodotSignalWatcher::new().event(&mut reader, slots), Ok(()));
    let stream = write_godot_signal_events(&mut reader);
    assert_eq!(stream.len(), 1);
    assert_eq!(stream[0].args(), &[0, 1, 2, 3, 4, 5, 6, 7, 8]);
}

#[test]
fn empty_slots_are_passed_over() {
    assert_eq!(present_values(vec![Some(1), None, Some(3), None, None]), vec![1, 3]);
    assert_eq!(present_values::<i32>(vec![None, None]), Vec::<i32>::new());
    assert_eq!(present_values::<i32>(vec![]), Vec::<i32>::new());
}

#[test]
fn every_call_of_the_relay_gives_one_signal() {
    let mut reader: GodotSignalReader<i32> = GodotSignalReader(NotificationChannel::new());
    let watcher = GodotSignalWatcher::new();
    let sent = watcher.event(
        &mut reader,
        vec![Some(plain(1)), Some(relay()), Some(object(7)), Some(text("pressed")), None, None, None, None, None],
    );
    assert_eq!(sent, Ok(()));
    assert_eq!(
        watcher.event(&mut reader, vec![Some(plain(1)), None, None]),
        Err(SignalError::NoRelay)
    );
    assert_eq!(watcher.event(&mut reader, vec![Some(relay()), Some(object(9)), Some(text("b"))]), Ok(()));
    let stream = write_godot_signal_events(&mut reader);
    assert_eq!(stream.len(), 2);
    assert_eq!(stream[0].name(), "pressed");
    assert_eq!(stream[0].args(), &[1]);
    assert_eq!(stream[1].name(), "b");
    assert_eq!(stream[1].origin().instance_id(), 9);
    assert!(write_godot_signal_events(&mut reader).is_empty());
    let made = GodotSignal::new("made".to_string(), ErasedGodotRef::new(1, "Node".to_string()), vec![5, 6]);
    assert_eq!(made.name(), "made");
    assert_eq!(made.args(), &[5, 6]);
    assert_eq!(made.origin().instance_id(), 1);
}

#[test]
fn input_events_are_parted_by_kind_in_their_order() {
    let mut reader: InputEventReader<&str> = InputEventReader(NotificationChannel::new());
    reader.0.send((InputEventType::Normal, "a"));
    reader.0.send((InputEventType::Unhandled, "b"));
    reader.0.send((InputEventType::Normal, "c"));
    reader.0.send((InputEventType::Unhandled, "d"));
    reader.0.send((InputEventType::Unhandled, "e"));
    let (normal, unhandled) = write_input_events(&mut reader);
    let normal: Vec<&str> = normal.iter().map(|event| *event.get()).collect();
    let unhandled: Vec<&str> = unhandled.iter().map(|event| *event.get()).collect();
    assert_eq!(normal, vec!["a", "c"]);
    assert_eq!(unhandled, vec!["b", "d", "e"]);
    assert!(reader.0.is_empty());
    let (normal, unhandled) = write_input_events(&mut reader);
    assert!(normal.is_empty() && unhandled.is_empty());
    assert_eq!(*InputEvent(5).get(), 5);
    assert_eq!(*UnhandledInputEvent(6).get(), 6);
}

#[test]
fn a_queue_gives_what_was_sent_once_and_in_order() {
    let mut channel: NotificationChannel<u8> = NotificationChannel::new();
    assert!(channel.is_empty());
    assert!(channel.try_drain().is_empty());
    channel.send(1);
    channel.send(2);
    assert_eq!(channel.len(), 2);
    assert_eq!(channel.try_drain(), vec![1, 2]);
    assert!(channel.is_empty());
    channel.send(3);
    assert_eq!(channel.try_drain(), vec![3]);
    assert_eq!(channel.try_drain(), Vec::<u8>::new());
}

#[test]
fn the_engine_learns_four_classes() {
    assert_eq!(
        godot_init(),
        vec![
            NativeClass::Autoload,
            NativeClass::SceneTreeWatcher,
            NativeClass::CollisionWatcher,
            NativeClass::GodotSignalWatcher,
        ]
    );
}

#[test]
fn a_failed_update_disables_the_application() {
    let mut autoload: Autoload<u32> = Autoload::new();
    assert!(!autoload.is_enabled());
    assert!(autoload._process().is_none());
    assert!(autoload._physics_process().is_none());

    autoload._ready(41);
    assert!(autoload.is_enabled());
    let mut frame = autoload._process().unwrap();
    assert_eq!(frame.kind, FrameKind::Visual);
    assert_eq!(frame.app, 41);
    assert!(!autoload.is_enabled());
    frame.app += 1;
    assert_eq!(autoload.end_frame(frame, Ok(())), Ok(()));
    assert!(autoload.is_enabled());

    let frame = autoload._physics_process().unwrap();
    assert_eq!(frame.kind, FrameKind::Physics);
    assert_eq!(frame.app, 42);
    assert_eq!(autoload.end_frame(frame, Err(FatalError)), Err(FatalError));
    assert!(!autoload.is_enabled());
    assert!(autoload._process().is_none());
    assert!(autoload.begin_frame(FrameKind::Physics).is_none());
}

#[test]
fn the_walk_names_every_node_after_its_parent() {
    // 1 -> [2 -> [4, 5], 3 -> [6]]
    let children = |id: i64| -> Vec<i64> {
        match id {
            1 => vec![2, 3],
            2 => vec![4, 5],
            3 => vec![6],
            _ => vec![],
        }
    };
    let mut walk = TreeWalk::start(1);
    let mut named = Vec::new();
    while let Some(id) = walk.next() {
        named.push(id);
        walk.expand(&children(id));
    }
    assert!(walk.is_done());
    assert_eq!(named, vec![1, 2, 4, 5, 3, 6]);
    assert_eq!(walk.next(), None);
}
