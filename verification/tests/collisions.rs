use bevy_godot::autoload::CollisionWatcher;
use bevy_godot::channel::NotificationChannel;
use bevy_godot::collisions::{
    write_godot_collision_events, CollisionEvent, CollisionEventReader, CollisionEventType,
    Collisions,
};
use bevy_godot::entity::Entity;
use bevy_godot::godot_ref::ErasedGodotRef;
use bevy_godot::mirror::SceneMirror;
use bevy_godot::scene_tree::{Groups, NodeSnapshot};

fn body(parent: Option<i64>, reports_bodies: bool) -> NodeSnapshot {
    NodeSnapshot {
        name: "body".to_string(),
        parent,
        transform: None,
        transform_2d: None,
        reports_bodies,
        groups: Groups::new(vec![]),
    }
}

/// root(1) with the bodies X(2) and Y(3), which report, and Z(4), which does not
fn scene() -> SceneMirror {
    let mut mirror = SceneMirror::new();
    mirror.node_added(ErasedGodotRef::new(1, "Viewport".to_string()), body(None, false));
    mirror.node_added(ErasedGodotRef::new(2, "Area".to_string()), body(Some(1), true));
    mirror.node_added(ErasedGodotRef::new(3, "Area".to_string()), body(Some(1), true));
    mirror.node_added(ErasedGodotRef::new(4, "Spatial".to_string()), body(Some(1), false));
    mirror
}

fn started(origin: i64, target: i64) -> CollisionEvent {
    CollisionEvent { event_type: CollisionEventType::Started, origin, target }
}

fn ended(origin: i64, target: i64) -> CollisionEvent {
    CollisionEvent { event_type: CollisionEventType::Ended, origin, target }
}

fn contacts(mirror: &SceneMirror, id: i64) -> (Vec<Entity>, Vec<Entity>) {
    let record = mirror.get(id).unwrap().collisions.as_ref().unwrap();
    (record.colliding().to_vec(), record.recent_collisions().to_vec())
}

#[test]
fn a_contact_that_starts_and_ends_in_one_frame_is_recent_only() {
    let mut mirror = scene();
    let y = mirror.entity_of(3).unwrap();
    mirror.update_godot_collisions(&vec![started(2, 3), ended(2, 3)]);
    let (colliding, recent) = contacts(&mirror, 2);
    assert_eq!(recent, vec![y]);
    assert!(colliding.is_empty());
}

#[test]
fn recent_contacts_are_forgotten_with_every_frame() {
    let mut mirror = scene();
    let y = mirror.entity_of(3).unwrap();
    let z = mirror.entity_of(4).unwrap();
    mirror.update_godot_collisions(&vec![started(2, 3)]);
    assert_eq!(contacts(&mirror, 2), (vec![y], vec![y]));
    mirror.clear_recent_collisions();
    assert_eq!(contacts(&mirror, 2), (vec![y], vec![]));
    mirror.update_godot_collisions(&vec![started(2, 4)]);
    assert_eq!(contacts(&mirror, 2), (vec![y, z], vec![z]));
    mirror.update_godot_collisions(&vec![]);
    assert_eq!(contacts(&mirror, 2), (vec![y, z], vec![]));
    mirror.update_godot_collisions(&vec![ended(2, 3)]);
    assert_eq!(contacts(&mirror, 2), (vec![z], vec![]));
    assert_eq!(contacts(&mirror, 3), (vec![], vec![]));
}

#[test]
fn events_about_bodies_that_are_not_mirrored_are_left_aside() {
    let mut mirror = scene();
    let y = mirror.entity_of(3).unwrap();
    // target unknown, origin unknown, origin without record; the event behind them still counts
    mirror.update_godot_collisions(&vec![
        started(2, 99),
        started(99, 3),
        started(4, 3),
        started(2, 3),
    ]);
    assert_eq!(contacts(&mirror, 2), (vec![y], vec![y]));
    assert!(mirror.get(4).unwrap().collisions.is_none());
    assert!(!mirror.collision(&started(2, 99)));
    assert!(!mirror.collision(&started(4, 3)));
    assert!(mirror.collision(&ended(2, 3)));
}

#[test]
fn the_last_event_about_a_pair_decides() {
    let mut mirror = scene();
    let y = mirror.entity_of(3).unwrap();
    mirror.update_godot_collisions(&vec![started(2, 3), started(2, 3), ended(2, 3), started(2, 3)]);
    assert_eq!(contacts(&mirror, 2), (vec![y], vec![y]));
    mirror.update_godot_collisions(&vec![started(2, 3), ended(2, 3)]);
    assert_eq!(contacts(&mirror, 2), (vec![], vec![y]));
}

#[test]
fn a_record_of_contacts_by_itself() {
    let mut record = Collisions::default();
    assert!(record.colliding().is_empty());
    assert!(record.recent_collisions().is_empty());
    let a = Entity::from_raw(1);
    let b = Entity::from_raw(2);
    record.started(a);
    record.record(CollisionEventType::Started, b);
    record.started(a);
    assert_eq!(record.colliding(), &[a, b]);
    assert_eq!(record.recent_collisions(), &[a, b]);
    assert!(record.is_colliding(a));
    record.ended(a);
    assert!(!record.is_colliding(a));
    assert_eq!(record.colliding(), &[b]);
    assert_eq!(record.recent_collisions(), &[a, b]);
    record.started(a);
    assert_eq!(record.colliding(), &[b, a]);
    assert_eq!(record.recent_collisions(), &[a, b]);
    record.ended(a);
    record.clear_recent();
    assert_eq!(record.colliding(), &[b]);
    assert!(record.recent_collisions().is_empty());
    record.record(CollisionEventType::Ended, b);
    assert!(record.colliding().is_empty());
    let copy = record.clone();
    assert!(copy.colliding().is_empty());
}

#[test]
fn the_watcher_names_the_target_first() {
    let mut reader = CollisionEventReader(NotificationChannel::new());
    let watcher = CollisionWatcher::new();
    watcher.collision_event(&mut reader, 3, 2, CollisionEventType::Started);
    watcher.collision_event(&mut reader, 3, 2, CollisionEventType::Ended);
    let stream = write_godot_collision_events(&mut reader);
    assert_eq!(stream.len(), 2);
    assert_eq!(stream[0].origin, 2);
    assert_eq!(stream[0].target, 3);
    assert_eq!(stream[0].event_type, CollisionEventType::Started);
    assert_eq!(stream[1].event_type, CollisionEventType::Ended);
    assert!(write_godot_collision_events(&mut reader).is_empty());
}

#[test]
fn a_partner_is_held_once_however_often_its_contact_starts() {
    let mut mirror = scene();
    let y = mirror.entity_of(3).unwrap();
    let z = mirror.entity_of(4).unwrap();
    mirror.update_godot_collisions(&vec![started(2, 3), started(2, 3), started(2, 4), started(2, 3)]);
    assert_eq!(contacts(&mirror, 2), (vec![y, z], vec![y, z]));
    // a contact that runs on and starts again is recent again, and held once
    mirror.update_godot_collisions(&vec![started(2, 3)]);
    assert_eq!(contacts(&mirror, 2), (vec![y, z], vec![y]));
}
