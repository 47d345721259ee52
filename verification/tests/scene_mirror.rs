use bevy_godot::entity::Entity;
use bevy_godot::godot_ref::ErasedGodotRef;
use bevy_godot::mirror::{MirrorChange, MirrorError, ObservedEvent, SceneMirror};
use bevy_godot::scene_tree::{
    write_scene_tree_events, Groups, NodeSnapshot, SceneTreeEvent, SceneTreeEventReader,
    SceneTreeEventType,
};
use bevy_godot::autoload::SceneTreeWatcher;
use bevy_godot::channel::NotificationChannel;

fn snapshot(name: &str, parent: Option<i64>) -> NodeSnapshot {
    NodeSnapshot {
        name: name.to_string(),
        parent,
        transform: None,
        transform_2d: None,
        reports_bodies: false,
        groups: Groups::new(vec![]),
    }
}

fn event(id: i64, event_type: SceneTreeEventType) -> SceneTreeEvent {
    SceneTreeEvent { node: ErasedGodotRef::new(id, "Node".to_string()), event_type }
}

fn added(id: i64, name: &str, parent: Option<i64>) -> ObservedEvent {
    ObservedEvent {
        event: event(id, SceneTreeEventType::NodeAdded),
        live: Some(snapshot(name, parent)),
    }
}

fn removed(id: i64) -> ObservedEvent {
    ObservedEvent { event: event(id, SceneTreeEventType::NodeRemoved), live: None }
}

fn renamed(id: i64, name: &str) -> ObservedEvent {
    ObservedEvent {
        event: event(id, SceneTreeEventType::NodeRenamed),
        live: Some(snapshot(name, None)),
    }
}

fn answer(mirror: &mut SceneMirror, observed: ObservedEvent) -> MirrorChange {
    mirror.apply(observed).change
}

fn skipped(reason: MirrorError) -> MirrorChange {
    MirrorChange::Skipped { reason }
}

#[test]
fn empty_mirror_holds_nothing() {
    let mirror = SceneMirror::new();
    assert!(!mirror.contains(1));
    assert!(mirror.get(1).is_none());
    assert_eq!(mirror.entity_of(1), None);
}

#[test]
fn removing_a_node_despawns_what_lies_below_it() {
    let mut mirror = SceneMirror::new();
    let changes = mirror.read_scene_tree_events(vec![
        added(1, "root", None),
        added(2, "A", Some(1)),
        added(3, "B", Some(2)),
    ]);
    assert_eq!(changes.len(), 3);
    let root = mirror.entity_of(1).unwrap();
    let a = mirror.entity_of(2).unwrap();
    let b = mirror.entity_of(3).unwrap();
    assert_eq!(changes[0], MirrorChange::Spawned { entity: root, parent: None });
    assert_eq!(changes[1], MirrorChange::Spawned { entity: a, parent: Some(root) });
    assert_eq!(changes[2], MirrorChange::Spawned { entity: b, parent: Some(a) });
    assert_eq!(mirror.get(3).unwrap().parent, Some(2));
    assert_eq!(mirror.get(2).unwrap().parent, Some(1));
    assert_eq!(mirror.get(1).unwrap().parent, None);

    let changes = mirror.read_scene_tree_events(vec![removed(2)]);
    assert_eq!(changes, vec![MirrorChange::Despawned { entity: a }]);
    assert!(mirror.contains(1));
    assert!(!mirror.contains(2));
    assert!(!mirror.contains(3));
    assert_eq!(answer(&mut mirror, removed(3)), skipped(MirrorError::UnknownNode));
}

#[test]
fn entities_are_handed_out_in_rising_order() {
    let mut mirror = SceneMirror::new();
    mirror.read_scene_tree_events(vec![added(10, "root", None), added(20, "A", Some(10))]);
    assert_eq!(mirror.entity_of(10), Some(Entity::from_raw(0)));
    assert_eq!(mirror.entity_of(20), Some(Entity::from_raw(1)));
    answer(&mut mirror, removed(20));
    answer(&mut mirror, added(30, "B", Some(10)));
    assert_eq!(mirror.entity_of(30), Some(Entity::from_raw(2)));
    assert_eq!(Entity::from_raw(2).id(), 2);
}

#[test]
fn a_node_added_twice_is_held_once() {
    let mut mirror = SceneMirror::new();
    answer(&mut mirror, added(1, "root", None));
    let first = answer(&mut mirror, added(2, "first", Some(1)));
    let entity = mirror.entity_of(2).unwrap();
    assert_eq!(first, MirrorChange::Spawned { entity, parent: mirror.entity_of(1) });

    let mut again = snapshot("second", Some(1));
    again.reports_bodies = true;
    again.groups = Groups::new(vec!["mobs".to_string()]);
    let second = answer(&mut mirror, ObservedEvent {
        event: SceneTreeEvent {
            node: ErasedGodotRef::new(2, "RigidBody".to_string()),
            event_type: SceneTreeEventType::NodeAdded,
        },
        live: Some(again),
    });
    assert_eq!(second, MirrorChange::Refreshed { entity, parent: mirror.entity_of(1) });
    let record = mirror.get(2).unwrap();
    assert_eq!(record.entity, entity);
    assert_eq!(record.name, "second");
    assert_eq!(record.node.class_name(), "RigidBody");
    assert!(record.groups.is("mobs"));
    assert!(record.collisions.is_some());
    // no entity was spent on the second notice
    answer(&mut mirror, added(3, "next", Some(1)));
    assert_eq!(mirror.entity_of(3), Some(Entity::from_raw(entity.id() + 1)));
}

#[test]
fn a_renamed_node_keeps_everything_but_its_name() {
    let mut mirror = SceneMirror::new();
    answer(&mut mirror, added(1, "root", None));
    answer(&mut mirror, added(2, "old", Some(1)));
    let entity = mirror.entity_of(2).unwrap();
    assert_eq!(answer(&mut mirror, renamed(2, "new")), MirrorChange::Renamed { entity });
    let record = mirror.get(2).unwrap();
    assert_eq!(record.name, "new");
    assert_eq!(record.parent, Some(1));
    assert_eq!(record.entity, entity);
    assert_eq!(answer(&mut mirror, renamed(7, "x")), skipped(MirrorError::UnknownNode));
    assert_eq!(mirror.node_renamed(7, "x".to_string()), skipped(MirrorError::UnknownNode));
}

#[test]
fn a_node_added_before_its_parent_is_left_aside() {
    let mut mirror = SceneMirror::new();
    answer(&mut mirror, added(1, "root", None));
    assert_eq!(answer(&mut mirror, added(3, "B", Some(2))), skipped(MirrorError::MissingParent));
    assert!(!mirror.contains(3));
    // the entity was not spent
    answer(&mut mirror, added(2, "A", Some(1)));
    assert_eq!(mirror.entity_of(2), Some(Entity::from_raw(1)));
    // once the parent is there, the node is taken in
    assert_eq!(
        answer(&mut mirror, added(3, "B", Some(2))),
        MirrorChange::Spawned { entity: Entity::from_raw(2), parent: Some(Entity::from_raw(1)) }
    );
}

#[test]
fn a_node_that_is_gone_is_left_aside() {
    let mut mirror = SceneMirror::new();
    answer(&mut mirror, added(1, "root", None));
    let gone = ObservedEvent { event: event(2, SceneTreeEventType::NodeAdded), live: None };
    assert_eq!(answer(&mut mirror, gone), skipped(MirrorError::Dangling));
    assert!(!mirror.contains(2));
    let gone = ObservedEvent { event: event(1, SceneTreeEventType::NodeRenamed), live: None };
    assert_eq!(answer(&mut mirror, gone), skipped(MirrorError::Dangling));
    assert_eq!(mirror.get(1).unwrap().name, "root");
}

#[test]
fn a_node_cannot_hang_below_itself() {
    let mut mirror = SceneMirror::new();
    mirror.read_scene_tree_events(vec![
        added(1, "root", None),
        added(2, "A", Some(1)),
        added(3, "B", Some(2)),
    ]);
    assert_eq!(answer(&mut mirror, added(2, "A", Some(3))), skipped(MirrorError::CyclicParent));
    assert_eq!(answer(&mut mirror, added(2, "A", Some(2))), skipped(MirrorError::CyclicParent));
    assert_eq!(mirror.get(2).unwrap().parent, Some(1));
    assert_eq!(answer(&mut mirror, added(9, "self", Some(9))), skipped(MirrorError::MissingParent));
}

#[test]
fn a_node_can_move_below_a_younger_parent() {
    let mut mirror = SceneMirror::new();
    mirror.read_scene_tree_events(vec![
        added(1, "root", None),
        added(2, "A", Some(1)),
        added(3, "B", Some(2)),
        added(4, "C", Some(1)),
    ]);
    let a = mirror.entity_of(2).unwrap();
    let c = mirror.entity_of(4).unwrap();
    assert_eq!(
        answer(&mut mirror, added(2, "A", Some(4))),
        MirrorChange::Refreshed { entity: a, parent: Some(c) }
    );
    assert_eq!(mirror.get(2).unwrap().parent, Some(4));
    assert_eq!(mirror.get(3).unwrap().parent, Some(2));
    // what hangs below the new parent goes with it
    answer(&mut mirror, removed(4));
    assert!(mirror.contains(1));
    assert!(!mirror.contains(4));
    assert!(!mirror.contains(2));
    assert!(!mirror.contains(3));
}

#[test]
fn a_node_can_move_below_an_older_parent() {
    let mut mirror = SceneMirror::new();
    mirror.read_scene_tree_events(vec![
        added(1, "root", None),
        added(2, "A", Some(1)),
        added(3, "B", Some(2)),
    ]);
    let b = mirror.entity_of(3).unwrap();
    let root = mirror.entity_of(1).unwrap();
    assert_eq!(
        answer(&mut mirror, added(3, "B", Some(1))),
        MirrorChange::Refreshed { entity: b, parent: Some(root) }
    );
    answer(&mut mirror, removed(2));
    assert!(mirror.contains(3));
    assert!(!mirror.contains(2));
}

#[test]
fn the_mirror_follows_the_tree_of_the_engine() {
    // engine: root(1) -> {A(2) -> {B(3), C(4)}, D(5)}; then B is removed and E(6) added below D
    let mut mirror = SceneMirror::new();
    mirror.read_scene_tree_events(vec![
        added(1, "root", None),
        added(2, "A", Some(1)),
        added(3, "B", Some(2)),
        added(4, "C", Some(2)),
        added(5, "D", Some(1)),
        removed(3),
        renamed(4, "C2"),
        added(6, "E", Some(5)),
    ]);
    let engine: Vec<(i64, Option<i64>)> =
        vec![(1, None), (2, Some(1)), (4, Some(2)), (5, Some(1)), (6, Some(5))];
    for (id, parent) in engine.iter() {
        assert_eq!(mirror.get(*id).unwrap().parent, *parent);
    }
    for id in [0i64, 3, 7] {
        assert!(!mirror.contains(id));
    }
    assert_eq!(mirror.get(4).unwrap().name, "C2");
}

#[test]
fn the_events_of_a_frame_are_drained_in_their_order() {
    let mut reader = SceneTreeEventReader(NotificationChannel::new());
    let watcher = SceneTreeWatcher::new();
    watcher.scene_tree_event(
        &mut reader,
        ErasedGodotRef::new(1, "Viewport".to_string()),
        SceneTreeEventType::NodeAdded,
    );
    watcher.scene_tree_event(
        &mut reader,
        ErasedGodotRef::new(2, "Node".to_string()),
        SceneTreeEventType::NodeRenamed,
    );
    let stream = write_scene_tree_events(&mut reader);
    assert_eq!(stream.len(), 2);
    assert_eq!(stream[0].node.instance_id(), 1);
    assert_eq!(stream[0].event_type, SceneTreeEventType::NodeAdded);
    assert_eq!(stream[1].node.instance_id(), 2);
    assert_eq!(stream[1].event_type, SceneTreeEventType::NodeRenamed);
    assert!(write_scene_tree_events(&mut reader).is_empty());
}

#[test]
fn groups_tell_membership_by_name() {
    let groups = Groups::new(vec!["enemies".to_string(), "mobs".to_string()]);
    assert!(groups.is("mobs"));
    assert!(groups.is("enemies"));
    assert!(!groups.is("mob"));
    assert!(!groups.is(""));
    assert_eq!(groups.names().len(), 2);
    assert!(!Groups::default().is("mobs"));
    assert!(groups.clone().is("enemies"));
}

#[test]
fn handles_are_told_apart_by_instance_id() {
    let a = ErasedGodotRef::new(7, "Node".to_string());
    let b = ErasedGodotRef::new(7, "Spatial".to_string());
    let c = ErasedGodotRef::new(8, "Node".to_string());
    assert_eq!(a.instance_id(), 7);
    assert_eq!(a.class_name(), "Node");
    assert!(a.same_object(&b));
    assert!(!a.same_object(&c));
    assert_eq!(a.clone().instance_id(), 7);
    assert_eq!(b.clone().class_name(), "Spatial");
}

#[test]
fn when_no_entity_is_left_new_nodes_are_left_aside() {
    let mut mirror = SceneMirror::starting_at(Entity::from_raw(u64::MAX - 1));
    assert_eq!(
        answer(&mut mirror, added(1, "root", None)),
        MirrorChange::Spawned { entity: Entity::from_raw(u64::MAX - 1), parent: None }
    );
    assert_eq!(answer(&mut mirror, added(2, "A", Some(1))), skipped(MirrorError::Exhausted));
    assert!(!mirror.contains(2));
    // a node that is held needs no entity
    assert_eq!(
        answer(&mut mirror, added(1, "again", None)),
        MirrorChange::Refreshed { entity: Entity::from_raw(u64::MAX - 1), parent: None }
    );
    assert_eq!(mirror.get(1).unwrap().name, "again");
    assert_eq!(SceneMirror::starting_at(Entity::from_raw(5)).len(), 0);
}

#[test]
fn children_are_the_nodes_that_name_the_parent() {
    let mut mirror = SceneMirror::new();
    mirror.read_scene_tree_events(vec![
        added(1, "root", None),
        added(2, "A", Some(1)),
        added(3, "B", Some(2)),
        added(4, "C", Some(1)),
        added(5, "D", Some(1)),
    ]);
    assert_eq!(mirror.children_of(1), vec![2, 4, 5]);
    assert_eq!(mirror.children_of(2), vec![3]);
    assert!(mirror.children_of(3).is_empty());
    assert!(mirror.children_of(99).is_empty());
    answer(&mut mirror, removed(4));
    answer(&mut mirror, added(3, "B", Some(1)));
    let mut children = mirror.children_of(1);
    children.sort();
    assert_eq!(children, vec![2, 3, 5]);
    assert!(mirror.children_of(2).is_empty());
}

#[test]
fn a_removal_names_every_entity_that_went() {
    let mut mirror = SceneMirror::new();
    mirror.read_scene_tree_events(vec![
        added(1, "root", None),
        added(2, "A", Some(1)),
        added(3, "B", Some(2)),
        added(4, "C", Some(3)),
        added(5, "D", Some(1)),
    ]);
    let a = mirror.entity_of(2).unwrap();
    let b = mirror.entity_of(3).unwrap();
    let c = mirror.entity_of(4).unwrap();
    let applied = mirror.apply(removed(2));
    assert_eq!(applied.change, MirrorChange::Despawned { entity: a });
    let mut despawned = applied.despawned.clone();
    despawned.sort_by_key(|entity| entity.id());
    assert_eq!(despawned, vec![a, b, c]);
    assert!(mirror.apply(removed(2)).despawned.is_empty());
    assert!(mirror.apply(added(6, "E", Some(1))).despawned.is_empty());
    assert!(mirror.apply(renamed(6, "F")).despawned.is_empty());
    let removal = mirror.node_removed(5);
    assert_eq!(removal.despawned.len(), 1);
    assert_eq!(mirror.len(), 2);
}

#[test]
fn a_node_that_moved_is_removed_and_added_again() {
    let mut mirror = SceneMirror::new();
    mirror.read_scene_tree_events(vec![
        added(1, "root", None),
        added(2, "P1", Some(1)),
        added(3, "P2", Some(1)),
        added(4, "X", Some(2)),
    ]);
    let changes = mirror.read_scene_tree_events(vec![removed(4), added(4, "X", Some(3))]);
    let x = mirror.entity_of(4).unwrap();
    assert_eq!(changes[1], MirrorChange::Spawned { entity: x, parent: mirror.entity_of(3) });
    assert_eq!(mirror.get(4).unwrap().parent, Some(3));
    assert!(mirror.children_of(2).is_empty());
    assert_eq!(mirror.children_of(3), vec![4]);
    assert_eq!(mirror.len(), 4);
}

#[test]
fn a_second_add_that_is_left_aside_changes_nothing() {
    let mut mirror = SceneMirror::new();
    mirror.apply(added(1, "root", None));
    mirror.apply(added(2, "first", Some(1)));
    let entity = mirror.entity_of(2).unwrap();
    // the second notice names a parent that the mirror does not hold
    assert_eq!(answer(&mut mirror, added(2, "second", Some(9))), skipped(MirrorError::MissingParent));
    let record = mirror.get(2).unwrap();
    assert_eq!(record.entity, entity);
    assert_eq!(record.name, "first");
    assert_eq!(record.parent, Some(1));
    assert_eq!(mirror.len(), 2);
}
