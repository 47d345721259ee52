use bevy_godot::collisions::{CollisionEvent, CollisionEventType};
use bevy_godot::connections::{connect_collisions, connect_godot_signal, connect_scene_tree, Bound};
use bevy_godot::entity::Entity;
use bevy_godot::godot_ref::ErasedGodotRef;
use bevy_godot::mirror::{MirrorChange, MirrorError, SceneMirror};
use bevy_godot::packed_scene::{GodotScene, GodotSceneResource};
use bevy_godot::scene_tree::{Groups, NodeSnapshot, SceneTreeEventType};
use bevy_godot::schedule::{
    DefaultGodotPlugin, GodotCollisionsPlugin, GodotCorePlugin, GodotInputEventPlugin,
    GodotPlugin, GodotSceneTreePlugin, GodotSignalsPlugin, GodotTransformsPlugin,
    PackedScenePlugin, Schedule, Stage, System, Turn,
};
use bevy_godot::time::SystemDelta;

fn node(id: i64, name: &str, parent: Option<i64>) -> (ErasedGodotRef, NodeSnapshot) {
    (
        ErasedGodotRef::new(id, "Node".to_string()),
        NodeSnapshot {
            name: name.to_string(),
            parent,
            transform: None,
            transform_2d: None,
            reports_bodies: false,
            groups: Groups::new(vec![]),
        },
    )
}

fn shape(mirror: &SceneMirror) -> Vec<(i64, Option<i64>)> {
    let mut shape: Vec<(i64, Option<i64>)> =
        mirror.records().iter().map(|record| (record.node.instance_id(), record.parent)).collect();
    shape.sort();
    shape
}

#[test]
fn setting_right_fills_an_empty_mirror() {
    let mut mirror = SceneMirror::new();
    assert!(mirror.is_empty());
    let diff = mirror.on_scene_tree_change(vec![
        node(1, "root", None),
        node(2, "A", Some(1)),
        node(3, "B", Some(2)),
        node(4, "C", Some(1)),
    ]);
    assert_eq!(diff.changes.len(), 4);
    assert_eq!(diff.changes[0], MirrorChange::Spawned { entity: Entity::from_raw(0), parent: None });
    assert_eq!(
        diff.changes[2],
        MirrorChange::Spawned { entity: Entity::from_raw(2), parent: Some(Entity::from_raw(1)) }
    );
    assert!(diff.despawned.is_empty());
    assert_eq!(mirror.len(), 4);
    assert_eq!(shape(&mirror), vec![(1, None), (2, Some(1)), (3, Some(2)), (4, Some(1))]);
}

#[test]
fn setting_right_moves_adds_and_lets_go() {
    let mut mirror = SceneMirror::new();
    mirror.on_scene_tree_change(vec![
        node(1, "root", None),
        node(2, "A", Some(1)),
        node(3, "B", Some(2)),
        node(4, "C", Some(1)),
        node(5, "D", Some(4)),
    ]);
    let a = mirror.entity_of(2).unwrap();
    let b = mirror.entity_of(3).unwrap();
    let c = mirror.entity_of(4).unwrap();
    let d = mirror.entity_of(5).unwrap();
    // the engine now: root -> B -> A, root -> E; C and D are gone
    let diff = mirror.on_scene_tree_change(vec![
        node(1, "root", None),
        node(3, "B", Some(1)),
        node(2, "A", Some(3)),
        node(6, "E", Some(1)),
    ]);
    assert_eq!(shape(&mirror), vec![(1, None), (2, Some(3)), (3, Some(1)), (6, Some(1))]);
    // nodes that moved keep their entities
    assert_eq!(mirror.entity_of(2), Some(a));
    assert_eq!(mirror.entity_of(3), Some(b));
    assert_eq!(diff.changes[0], MirrorChange::Kept { entity: mirror.entity_of(1).unwrap(), parent: None });
    assert_eq!(diff.changes[1], MirrorChange::Kept { entity: b, parent: mirror.entity_of(1) });
    assert_eq!(diff.changes[2], MirrorChange::Kept { entity: a, parent: Some(b) });
    assert_eq!(
        diff.changes[3],
        MirrorChange::Spawned { entity: mirror.entity_of(6).unwrap(), parent: mirror.entity_of(1) }
    );
    let mut despawned = diff.despawned.clone();
    despawned.sort_by_key(|entity| entity.id());
    assert_eq!(despawned, vec![c, d]);
}

#[test]
fn setting_right_leaves_what_the_mirror_holds_of_known_nodes() {
    let mut mirror = SceneMirror::new();
    let body = |id: i64, parent: Option<i64>| {
        let (handle, mut snapshot) = node(id, "body", parent);
        snapshot.reports_bodies = true;
        (handle, snapshot)
    };
    mirror.on_scene_tree_change(vec![node(1, "root", None), body(2, Some(1)), body(3, Some(1))]);
    let y = mirror.entity_of(3).unwrap();
    mirror.update_godot_collisions(&vec![CollisionEvent {
        event_type: CollisionEventType::Started,
        origin: 2,
        target: 3,
    }]);
    mirror.node_renamed(2, "kept".to_string());
    // the tree has not changed: the walk changes nothing
    let diff = mirror.on_scene_tree_change(vec![
        node(1, "root", None),
        body(2, Some(1)),
        body(3, Some(1)),
    ]);
    assert_eq!(diff.changes[1], MirrorChange::Kept { entity: mirror.entity_of(2).unwrap(), parent: mirror.entity_of(1) });
    assert!(diff.despawned.is_empty());
    let record = mirror.get(2).unwrap();
    assert_eq!(record.collisions.as_ref().unwrap().colliding(), &[y]);
    assert_eq!(record.name, "kept");
    // a node that moved keeps its contacts as well
    mirror.on_scene_tree_change(vec![node(1, "root", None), body(3, Some(1)), body(2, Some(3))]);
    let record = mirror.get(2).unwrap();
    assert_eq!(record.parent, Some(3));
    assert_eq!(record.collisions.as_ref().unwrap().colliding(), &[y]);
    assert_eq!(
        mirror.node_seen(node(2, "x", Some(2)).0, node(2, "x", Some(2)).1),
        MirrorChange::Skipped { reason: MirrorError::CyclicParent }
    );
    assert_eq!(
        mirror.node_seen(node(2, "x", Some(9)).0, node(2, "x", Some(9)).1),
        MirrorChange::Skipped { reason: MirrorError::MissingParent }
    );
    assert_eq!(
        mirror.node_seen(node(7, "new", Some(2)).0, node(7, "new", Some(2)).1),
        MirrorChange::Spawned { entity: Entity::from_raw(3), parent: mirror.entity_of(2) }
    );
}

#[test]
fn the_kinds_go_through_the_engine_as_numbers() {
    for kind in [
        SceneTreeEventType::NodeAdded,
        SceneTreeEventType::NodeRemoved,
        SceneTreeEventType::NodeRenamed,
    ] {
        assert_eq!(SceneTreeEventType::from_code(kind.code()), Some(kind));
    }
    assert_eq!(SceneTreeEventType::NodeAdded.code(), 0);
    assert_eq!(SceneTreeEventType::NodeRemoved.code(), 1);
    assert_eq!(SceneTreeEventType::NodeRenamed.code(), 2);
    assert_eq!(SceneTreeEventType::from_code(3), None);
    assert_eq!(SceneTreeEventType::from_code(-1), None);
    for kind in [CollisionEventType::Started, CollisionEventType::Ended] {
        assert_eq!(CollisionEventType::from_code(kind.code()), Some(kind));
    }
    assert_eq!(CollisionEventType::Started.code(), 0);
    assert_eq!(CollisionEventType::Ended.code(), 1);
    assert_eq!(CollisionEventType::from_code(2), None);
}

#[test]
fn a_walk_out_of_order_leaves_nodes_aside() {
    let mut mirror = SceneMirror::new();
    let diff = mirror.on_scene_tree_change(vec![node(2, "A", Some(1)), node(1, "root", None)]);
    assert_eq!(diff.changes[0], MirrorChange::Skipped { reason: MirrorError::MissingParent });
    assert_eq!(shape(&mirror), vec![(1, None)]);
}

#[test]
fn keeping_only_some_nodes_takes_what_lies_below_the_others() {
    let mut mirror = SceneMirror::new();
    mirror.on_scene_tree_change(vec![
        node(1, "root", None),
        node(2, "A", Some(1)),
        node(3, "B", Some(2)),
        node(4, "C", Some(1)),
    ]);
    let a = mirror.entity_of(2).unwrap();
    let b = mirror.entity_of(3).unwrap();
    // B is to be kept, but hangs below A, which is not
    let mut despawned = mirror.keep_only(&vec![1, 3, 4, 99]);
    despawned.sort_by_key(|entity| entity.id());
    assert_eq!(despawned, vec![a, b]);
    assert_eq!(shape(&mirror), vec![(1, None), (4, Some(1))]);
    assert!(mirror.keep_only(&vec![4, 1]).is_empty());
    assert_eq!(mirror.keep_only(&vec![]).len(), 2);
    assert!(mirror.is_empty());
    assert_eq!(mirror.len(), 0);
}

#[test]
fn records_stand_parents_first() {
    let mut mirror = SceneMirror::new();
    mirror.on_scene_tree_change(vec![
        node(1, "root", None),
        node(2, "A", Some(1)),
        node(3, "B", Some(2)),
        node(4, "C", Some(1)),
    ]);
    // A moves below C, which is younger
    mirror.node_added(node(2, "A", Some(4)).0, node(2, "A", Some(4)).1);
    let records = mirror.records();
    assert_eq!(records.len(), 4);
    for (i, record) in records.iter().enumerate() {
        if let Some(parent) = record.parent {
            assert!(records[..i].iter().any(|earlier| earlier.node.instance_id() == parent));
        }
    }
}

#[test]
fn every_plugin_brings_its_systems() {
    let mut schedule = Schedule::new();
    GodotSceneTreePlugin.build(&mut schedule);
    assert_eq!(
        schedule.systems(),
        &[
            System::InitializeSceneTree,
            System::ConnectSceneTree,
            System::WriteSceneTreeEvents,
            System::ReadSceneTreeEvents
        ]
    );
    let mut schedule = Schedule::new();
    GodotTransformsPlugin.build(&mut schedule);
    GodotCollisionsPlugin.build(&mut schedule);
    GodotSignalsPlugin.build(&mut schedule);
    GodotInputEventPlugin.build(&mut schedule);
    PackedScenePlugin.build(&mut schedule);
    assert_eq!(
        schedule.systems(),
        &[
            System::PostUpdateTransforms,
            System::PreUpdateTransforms,
            System::PostUpdateTransforms2D,
            System::PreUpdateTransforms2D,
            System::UpdateCollisions,
            System::WriteCollisionEvents,
            System::WriteSignalEvents,
            System::WriteInputEvents,
            System::SpawnScene
        ]
    );
    let mut core = Schedule::new();
    GodotCorePlugin.build(&mut core);
    assert_eq!(core.systems().len(), 12);
    let mut all = Schedule::new();
    GodotPlugin.build(&mut all);
    let mut default = Schedule::new();
    DefaultGodotPlugin.build(&mut default);
    assert_eq!(all.systems(), default.systems());
    assert_eq!(all.systems().len(), 13);
    assert_eq!(&all.systems()[..12], core.systems());
    assert_eq!(all.systems()[12], System::SpawnScene);
    let mut extended = Schedule::new();
    extended.add_system(System::SpawnScene);
    assert_eq!(extended.systems(), &[System::SpawnScene]);
}

#[test]
fn every_system_has_its_place_in_the_frame() {
    assert_eq!(System::InitializeSceneTree.stage(), Stage::PreStartup);
    assert_eq!(System::ConnectSceneTree.stage(), Stage::PreStartup);
    for system in [
        System::WriteSceneTreeEvents,
        System::WriteCollisionEvents,
        System::WriteSignalEvents,
        System::WriteInputEvents,
    ] {
        assert_eq!(system.stage(), Stage::First);
        assert_eq!(system.turn(), Turn::BeforeEvents);
    }
    assert_eq!(System::ReadSceneTreeEvents.stage(), Stage::First);
    assert_eq!(System::ReadSceneTreeEvents.turn(), Turn::AfterEvents);
    for system in
        [System::UpdateCollisions, System::PreUpdateTransforms, System::PreUpdateTransforms2D]
    {
        assert_eq!(system.stage(), Stage::PreUpdate);
        assert_eq!(system.turn(), Turn::Free);
    }
    for system in
        [System::PostUpdateTransforms, System::PostUpdateTransforms2D, System::SpawnScene]
    {
        assert_eq!(system.stage(), Stage::PostUpdate);
        assert_eq!(system.turn(), Turn::Free);
    }
    assert_eq!(System::InitializeSceneTree.turn(), Turn::Free);
}

#[test]
fn the_engine_is_asked_by_these_names() {
    let tree = connect_scene_tree();
    assert_eq!(tree.len(), 3);
    assert_eq!(tree[0].0, SceneTreeEventType::NodeAdded);
    assert_eq!(tree[0].1.signal, "node_added");
    assert_eq!(tree[1].0, SceneTreeEventType::NodeRemoved);
    assert_eq!(tree[1].1.signal, "node_removed");
    assert_eq!(tree[2].0, SceneTreeEventType::NodeRenamed);
    assert_eq!(tree[2].1.signal, "node_renamed");
    for (_, connection) in tree.iter() {
        assert_eq!(connection.watcher, "Autoload/SceneTreeWatcher");
        assert_eq!(connection.method, "scene_tree_event");
    }
    let bodies = connect_collisions();
    assert_eq!(bodies.len(), 2);
    assert_eq!(bodies[0].0, CollisionEventType::Started);
    assert_eq!(bodies[0].1.signal, "body_entered");
    assert_eq!(bodies[1].0, CollisionEventType::Ended);
    assert_eq!(bodies[1].1.signal, "body_exited");
    for (_, connection) in bodies.iter() {
        assert_eq!(connection.watcher, "/root/Autoload/CollisionWatcher");
        assert_eq!(connection.method, "collision_event");
    }
    assert_eq!(SceneTreeEventType::NodeRenamed.connection().signal, "node_renamed");
    assert_eq!(CollisionEventType::Ended.connection().signal, "body_exited");
    let (connection, bound) = connect_godot_signal("pressed");
    assert_eq!(connection.signal, "pressed");
    assert_eq!(connection.watcher, "/root/Autoload/GodotSignalWatcher");
    assert_eq!(connection.method, "event");
    assert_eq!(bound, vec![Bound::Relay, Bound::Origin, Bound::SignalName]);
}

#[test]
fn a_system_counts_its_own_time() {
    let mut account = SystemDelta::new();
    assert_eq!(account.delta(1_000), 0);
    assert_eq!(account.delta(1_500), 500);
    assert_eq!(account.delta(1_500), 0);
    assert_eq!(account.delta(4_000), 2_500);
    assert_eq!(account.delta(3_000), 0);
    assert_eq!(account.delta(3_001), 1);
    assert_eq!(account.delta(u64::MAX), u64::MAX - 3_001);
}

#[test]
fn a_scene_is_named_by_path_or_handle() {
    let scene = GodotScene::<u8>::from_path("res://level.tscn", None);
    match scene.resource() {
        GodotSceneResource::Path(path) => assert_eq!(path, "res://level.tscn"),
        GodotSceneResource::Handle(_) => panic!("a path was given"),
    }
    assert!(scene.parent().is_none());
    let scene = GodotScene::from_handle(7u8, Some(ErasedGodotRef::new(4, "Node".to_string())));
    match scene.resource() {
        GodotSceneResource::Handle(handle) => assert_eq!(*handle, 7),
        GodotSceneResource::Path(_) => panic!("a handle was given"),
    }
    assert_eq!(scene.parent().unwrap().instance_id(), 4);
    let scene = GodotScene::<u8>::default();
    match scene.resource() {
        GodotSceneResource::Path(path) => assert_eq!(path, ""),
        GodotSceneResource::Handle(_) => panic!("the default is a path"),
    }
    assert!(scene.parent().is_none());
}
