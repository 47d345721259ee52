//! How the engine is asked to call the watchers.
//!
//! A watcher hears of something because a signal of the engine is connected
//! to one of its methods. This file names the signals, the watchers and the
//! methods, and the values that are bound to a connection so that the
//! watcher can tell what it hears.
use vstd::prelude::*;
use crate::collisions::CollisionEventType;
use crate::scene_tree::SceneTreeEventType;

verus! {

/// One connection: the signal, the path of the watcher in the scene tree,
/// and the method of the watcher that the signal calls.
#[derive(Clone, Copy, Debug)]
pub struct Connection {
    pub signal: &'static str,
    pub watcher: &'static str,
    pub method: &'static str,
}

/// What is bound to the connection of a relayed signal, in this order behind
/// the values of the signal.
#[derive(Clone, Copy, Debug, PartialEq, Eq, Structural)]
pub enum Bound {
    /// The relay itself.
    Relay,
    /// The object whose signal is heard.
    Origin,
    /// The name of the signal.
    SignalName,
}

impl SceneTreeEventType {
    /// The name of the signal with which the scene tree tells of this.
    pub open spec fn spec_signal(self) -> Seq<char> {
        match self {
            SceneTreeEventType::NodeAdded => "node_added"@,
            SceneTreeEventType::NodeRemoved => "node_removed"@,
            SceneTreeEventType::NodeRenamed => "node_renamed"@,
        }
    }

    /// The connection through which the scene tree tells of this. The path
    /// of the watcher starts at the root of the scene tree.
    pub fn connection(self) -> (connection: Connection)
        ensures
            connection.signal@ == self.spec_signal(),
            connection.watcher@ == "Autoload/SceneTreeWatcher"@,
            connection.method@ == "scene_tree_event"@,
    {
        let signal = match self {
            SceneTreeEventType::NodeAdded => "node_added",
            SceneTreeEventType::NodeRemoved => "node_removed",
            SceneTreeEventType::NodeRenamed => "node_renamed",
        };
        Connection { signal, watcher: "Autoload/SceneTreeWatcher", method: "scene_tree_event" }
    }
}

impl CollisionEventType {
    /// The name of the signal with which a body tells of this.
    pub open spec fn spec_signal(self) -> Seq<char> {
        match self {
            CollisionEventType::Started => "body_entered"@,
            CollisionEventType::Ended => "body_exited"@,
        }
    }

    /// The connection through which a body tells of this.
    pub fn connection(self) -> (connection: Connection)
        ensures
            connection.signal@ == self.spec_signal(),
            connection.watcher@ == "/root/Autoload/CollisionWatcher"@,
            connection.method@ == "collision_event"@,
    {
        let signal = match self {
            CollisionEventType::Started => "body_entered",
            CollisionEventType::Ended => "body_exited",
        };
        Connection { signal, watcher: "/root/Autoload/CollisionWatcher", method: "collision_event" }
    }
}

/// The three connections of the scene tree, with what each tells.
pub fn connect_scene_tree() -> (connections: Vec<(SceneTreeEventType, Connection)>)
    ensures
        connections@.len() == 3,
        connections@[0].0 == SceneTreeEventType::NodeAdded,
        connections@[1].0 == SceneTreeEventType::NodeRemoved,
        connections@[2].0 == SceneTreeEventType::NodeRenamed,
        forall|i: int|
            0 <= i < 3 ==> {
                &&& (#[trigger] connections@[i]).1.signal@ == connections@[i].0.spec_signal()
                &&& connections@[i].1.watcher@ == "Autoload/SceneTreeWatcher"@
                &&& connections@[i].1.method@ == "scene_tree_event"@
            },
{
    let mut connections: Vec<(SceneTreeEventType, Connection)> = Vec::new();
    connections.push((SceneTreeEventType::NodeAdded, SceneTreeEventType::NodeAdded.connection()));
    connections.push(
        (SceneTreeEventType::NodeRemoved, SceneTreeEventType::NodeRemoved.connection()),
    );
    connections.push(
        (SceneTreeEventType::NodeRenamed, SceneTreeEventType::NodeRenamed.connection()),
    );
    connections
}

/// The two connections of a body that reports what it meets, with what each
/// tells.
pub fn connect_collisions() -> (connections: Vec<(CollisionEventType, Connection)>)
    ensures
        connections@.len() == 2,
        connections@[0].0 == CollisionEventType::Started,
        connections@[1].0 == CollisionEventType::Ended,
        forall|i: int|
            0 <= i < 2 ==> {
                &&& (#[trigger] connections@[i]).1.signal@ == connections@[i].0.spec_signal()
                &&& connections@[i].1.watcher@ == "/root/Autoload/CollisionWatcher"@
                &&& connections@[i].1.method@ == "collision_event"@
            },
{
    let mut connections: Vec<(CollisionEventType, Connection)> = Vec::new();
    connections.push((CollisionEventType::Started, CollisionEventType::Started.connection()));
    connections.push((CollisionEventType::Ended, CollisionEventType::Ended.connection()));
    connections
}

/// The connection through which a signal of any object reaches the relay,
/// and what is bound to it.
pub fn connect_godot_signal(signal_name: &'static str) -> (connection: (Connection, Vec<Bound>))
    ensures
        connection.0.signal@ == signal_name@,
        connection.0.watcher@ == "/root/Autoload/GodotSignalWatcher"@,
        connection.0.method@ == "event"@,
        connection.1@ == seq![Bound::Relay, Bound::Origin, Bound::SignalName],
{
    let mut bound: Vec<Bound> = Vec::new();
    bound.push(Bound::Relay);
    bound.push(Bound::Origin);
    bound.push(Bound::SignalName);
    (
        Connection {
            signal: signal_name,
            watcher: "/root/Autoload/GodotSignalWatcher",
            method: "event",
        },
        bound,
    )
}

impl SceneTreeEventType {
    /// The number under which this kind of notice goes through the engine,
    /// bound to its connection.
    pub open spec fn spec_code(self) -> i64 {
        match self {
            SceneTreeEventType::NodeAdded => 0,
            SceneTreeEventType::NodeRemoved => 1,
            SceneTreeEventType::NodeRenamed => 2,
        }
    }

    /// The kind of notice that goes through the engine under `code`.
    pub open spec fn spec_from_code(code: i64) -> Option<SceneTreeEventType> {
        if code == 0 {
            Some(SceneTreeEventType::NodeAdded)
        } else if code == 1 {
            Some(SceneTreeEventType::NodeRemoved)
        } else if code == 2 {
            Some(SceneTreeEventType::NodeRenamed)
        } else {
            None
        }
    }

    /// The number under which this kind of notice goes through the engine.
    #[verifier::when_used_as_spec(spec_code)]
    pub fn code(self) -> (code: i64)
        ensures
            code == self.spec_code(),
    {
        match self {
            SceneTreeEventType::NodeAdded => 0,
            SceneTreeEventType::NodeRemoved => 1,
            SceneTreeEventType::NodeRenamed => 2,
        }
    }

    /// The kind of notice that goes through the engine under `code`, if
    /// there is one.
    pub fn from_code(code: i64) -> (kind: Option<SceneTreeEventType>)
        ensures
            kind == Self::spec_from_code(code),
            kind matches Some(k) ==> k.spec_code() == code,
    {
        if code == 0 {
            Some(SceneTreeEventType::NodeAdded)
        } else if code == 1 {
            Some(SceneTreeEventType::NodeRemoved)
        } else if code == 2 {
            Some(SceneTreeEventType::NodeRenamed)
        } else {
            None
        }
    }
}

impl CollisionEventType {
    /// The number under which this kind of contact event goes through the
    /// engine, bound to its connection.
    pub open spec fn spec_code(self) -> i64 {
        match self {
            CollisionEventType::Started => 0,
            CollisionEventType::Ended => 1,
        }
    }

    /// The kind of contact event that goes through the engine under `code`.
    pub open spec fn spec_from_code(code: i64) -> Option<CollisionEventType> {
        if code == 0 {
            Some(CollisionEventType::Started)
        } else if code == 1 {
            Some(CollisionEventType::Ended)
        } else {
            None
        }
    }

    /// The number under which this kind of contact event goes through the
    /// engine.
    #[verifier::when_used_as_spec(spec_code)]
    pub fn code(self) -> (code: i64)
        ensures
            code == self.spec_code(),
    {
        match self {
            CollisionEventType::Started => 0,
            CollisionEventType::Ended => 1,
        }
    }

    /// The kind of contact event that goes through the engine under `code`,
    /// if there is one.
    pub fn from_code(code: i64) -> (kind: Option<CollisionEventType>)
        ensures
            kind == Self::spec_from_code(code),
            kind matches Some(k) ==> k.spec_code() == code,
    {
        if code == 0 {
            Some(CollisionEventType::Started)
        } else if code == 1 {
            Some(CollisionEventType::Ended)
        } else {
            None
        }
    }
}

/// What is bound to a connection comes back as it was bound: the number of a
/// kind stands for that kind and for no other.
pub proof fn lemma_codes_come_back(notice: SceneTreeEventType, contact: CollisionEventType)
    ensures
        SceneTreeEventType::spec_from_code(notice.spec_code()) == Some(notice),
        CollisionEventType::spec_from_code(contact.spec_code()) == Some(contact),
{
}

} // verus!
