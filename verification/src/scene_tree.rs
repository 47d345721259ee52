//! What the engine tells of its scene tree, and what the bridge reads from a
//! node when it takes such a notice up.
use vstd::prelude::*;
use crate::channel::NotificationChannel;
use crate::godot_ref::{ErasedGodotRef, GodotRefView};
use crate::transforms::{Transform, Transform2D};

verus! {

/// What happened to a node of the scene tree.
#[derive(Clone, Copy, Debug, PartialEq, Eq, Structural)]
pub enum SceneTreeEventType {
    NodeAdded,
    NodeRemoved,
    NodeRenamed,
}

/// One notice of the scene tree: the node it is about, and what happened.
#[derive(Debug)]
pub struct SceneTreeEvent {
    pub node: ErasedGodotRef,
    pub event_type: SceneTreeEventType,
}

/// The mathematical value of a notice.
pub struct SceneTreeEventView {
    pub node: GodotRefView,
    pub event_type: SceneTreeEventType,
}

impl View for SceneTreeEvent {
    type V = SceneTreeEventView;

    open spec fn view(&self) -> SceneTreeEventView {
        SceneTreeEventView { node: self.node@, event_type: self.event_type }
    }
}

impl Clone for SceneTreeEvent {
    fn clone(&self) -> (copy: Self)
        ensures
            copy@ == self@,
    {
        SceneTreeEvent { node: self.node.clone(), event_type: self.event_type }
    }
}

/// The end of the queue of notices from which the frame reads.
#[derive(Debug)]
pub struct SceneTreeEventReader(pub NotificationChannel<SceneTreeEvent>);

/// Drains the queue of notices into the events of the frame.
pub fn write_scene_tree_events(events: &mut SceneTreeEventReader) -> (stream: Vec<
    SceneTreeEvent,
>)
    ensures
        stream@ == old(events).0@,
        final(events).0@ == Seq::<SceneTreeEvent>::empty(),
{
    events.0.try_drain()
}

/// The groups that a node belongs to.
#[derive(Debug)]
pub struct Groups {
    groups: Vec<String>,
}

impl View for Groups {
    type V = Seq<Seq<char>>;

    closed spec fn view(&self) -> Seq<Seq<char>> {
        Seq::new(self.groups@.len(), |i: int| self.groups@[i]@)
    }
}

impl Default for Groups {
    fn default() -> (groups: Self)
        ensures
            groups@ == Seq::<Seq<char>>::empty(),
    {
        Groups { groups: Vec::new() }
    }
}

impl Clone for Groups {
    fn clone(&self) -> (copy: Self)
        ensures
            copy@ == self@,
    {
        let mut names: Vec<String> = Vec::new();
        let mut i: usize = 0;
        while i < self.groups.len()
            invariant
                i <= self.groups.len(),
                names@.len() == i,
                forall|j: int| 0 <= j < i ==> (#[trigger] names@[j])@ == self.groups@[j]@,
            decreases self.groups.len() - i,
        {
            names.push(self.groups[i].clone());
            i = i + 1;
        }
        Groups { groups: names }
    }
}

impl Groups {
    /// The groups with the given names, in the given order.
    pub fn new(names: Vec<String>) -> (groups: Self)
        ensures
            groups@.len() == names@.len(),
            forall|i: int| 0 <= i < names@.len() ==> groups@[i] == (#[trigger] names@[i])@,
    {
        Groups { groups: names }
    }

    /// The names of the groups.
    pub fn names(&self) -> (names: &[String])
        ensures
            names@.len() == self@.len(),
            forall|i: int| 0 <= i < names@.len() ==> (#[trigger] names@[i])@ == self@[i],
    {
        self.groups.as_slice()
    }

    /// Whether the node belongs to the group of the given name.
    pub fn is(&self, group_name: &str) -> (member: bool)
        ensures
            member == self@.contains(group_name@),
    {
        let wanted: String = group_name.to_owned();
        let mut i: usize = 0;
        while i < self.groups.len()
            invariant
                i <= self.groups.len(),
                wanted@ == group_name@,
                forall|j: int| 0 <= j < i ==> self@[j] != group_name@,
            decreases self.groups.len() - i,
        {
            if self.groups[i] == wanted {
                assert(self@[i as int] == group_name@);
                return true;
            }
            i = i + 1;
        }
        false
    }
}

/// What the bridge reads from a live node when it takes up a notice about
/// it.
#[derive(Debug)]
pub struct NodeSnapshot {
    /// The name of the node.
    pub name: String,
    /// The instance id of the node's parent; `None` for the root of the scene
    /// tree.
    pub parent: Option<i64>,
    /// The transform of the node, where the node lives in space.
    pub transform: Option<Transform>,
    /// The transform of the node, where the node lives in the plane.
    pub transform_2d: Option<Transform2D>,
    /// Whether the node reports the bodies that enter and leave it.
    pub reports_bodies: bool,
    /// The groups of the node.
    pub groups: Groups,
}

/// The mathematical value of a snapshot.
pub struct NodeSnapshotView {
    pub name: Seq<char>,
    pub parent: Option<i64>,
    pub transform: Option<Transform>,
    pub transform_2d: Option<Transform2D>,
    pub reports_bodies: bool,
    pub groups: Seq<Seq<char>>,
}

impl View for NodeSnapshot {
    type V = NodeSnapshotView;

    open spec fn view(&self) -> NodeSnapshotView {
        NodeSnapshotView {
            name: self.name@,
            parent: self.parent,
            transform: self.transform,
            transform_2d: self.transform_2d,
            reports_bodies: self.reports_bodies,
            groups: self.groups@,
        }
    }
}

impl Clone for NodeSnapshot {
    fn clone(&self) -> (copy: Self)
        ensures
            copy@ == self@,
    {
        NodeSnapshot {
            name: self.name.clone(),
            parent: self.parent,
            transform: self.transform,
            transform_2d: self.transform_2d,
            reports_bodies: self.reports_bodies,
            groups: self.groups.clone(),
        }
    }
}

} // verus!
