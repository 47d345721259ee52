use bevy_godot::godot_ref::ErasedGodotRef;
use bevy_godot::mirror::SceneMirror;
use bevy_godot::scene_tree::{Groups, NodeSnapshot};
use bevy_godot::transforms::{
    number_equals, numbers_equal, LiveTransform, LiveTransform2D, Transform, Transform2D,
};

fn bits(values: [f32; 3]) -> [u32; 3] {
    [values[0].to_bits(), values[1].to_bits(), values[2].to_bits()]
}

fn at(x: f32, y: f32, z: f32) -> Transform {
    let one = 1.0f32.to_bits();
    let zero = 0.0f32.to_bits();
    Transform { basis: [one, zero, zero, zero, one, zero, zero, zero, one], origin: bits([x, y, z]) }
}

fn at_2d(x: f32, y: f32) -> Transform2D {
    let one = 1.0f32.to_bits();
    let zero = 0.0f32.to_bits();
    Transform2D { a: [one, zero], b: [zero, one], origin: [x.to_bits(), y.to_bits()] }
}

fn node(parent: Option<i64>, transform: Option<Transform>, transform_2d: Option<Transform2D>) -> NodeSnapshot {
    NodeSnapshot {
        name: "node".to_string(),
        parent,
        transform,
        transform_2d,
        reports_bodies: false,
        groups: Groups::new(vec![]),
    }
}

/// root(1), a node in space (2), a node in the plane (3)
fn scene() -> SceneMirror {
    let mut mirror = SceneMirror::new();
    mirror.node_added(ErasedGodotRef::new(1, "Viewport".to_string()), node(None, None, None));
    mirror.node_added(
        ErasedGodotRef::new(2, "Spatial".to_string()),
        node(Some(1), Some(at(1.0, 2.0, 3.0)), None),
    );
    mirror.node_added(
        ErasedGodotRef::new(3, "Node2D".to_string()),
        node(Some(1), None, Some(at_2d(4.0, 5.0))),
    );
    mirror
}

#[test]
fn numbers_are_compared_by_value() {
    let nan = f32::NAN.to_bits();
    assert!(number_equals(1.5f32.to_bits(), 1.5f32.to_bits()));
    assert!(!number_equals(1.5f32.to_bits(), 2.5f32.to_bits()));
    assert!(number_equals(0.0f32.to_bits(), (-0.0f32).to_bits()));
    assert!(number_equals(0x8000_0000, 0x0000_0000));
    assert!(!number_equals(nan, nan));
    assert!(!number_equals(nan, 1.0f32.to_bits()));
    assert!(!number_equals(0x7f80_0001, 0x7f80_0001));
    assert!(!number_equals(0xffc0_0000, 0xffc0_0000));
    assert!(number_equals(f32::INFINITY.to_bits(), f32::INFINITY.to_bits()));
    assert!(number_equals(0x7f80_0000, 0x7f80_0000));
    assert!(!number_equals(f32::INFINITY.to_bits(), f32::NEG_INFINITY.to_bits()));
    for (a, b) in [(1.0f32, 1.0f32), (0.0, -0.0), (f32::NAN, f32::NAN), (3.0, -3.0), (f32::MIN_POSITIVE, 0.0)] {
        assert_eq!(number_equals(a.to_bits(), b.to_bits()), a == b);
    }
    assert!(numbers_equal(&bits([1.0, 0.0, 2.0]), &bits([1.0, -0.0, 2.0])));
    assert!(!numbers_equal(&bits([1.0, 0.0, 2.0]), &bits([1.0, 0.0, 2.5])));
    assert!(!numbers_equal(&bits([1.0, f32::NAN, 2.0]), &bits([1.0, f32::NAN, 2.0])));
}

#[test]
fn transforms_are_compared_number_by_number() {
    assert!(at(1.0, 2.0, 3.0).equals(&at(1.0, 2.0, 3.0)));
    assert!(!at(1.0, 2.0, 3.0).equals(&at(1.0, 2.0, 3.5)));
    assert!(at(0.0, 2.0, 3.0).equals(&at(-0.0, 2.0, 3.0)));
    assert!(!at(f32::NAN, 2.0, 3.0).equals(&at(f32::NAN, 2.0, 3.0)));
    let mut turned = at(1.0, 2.0, 3.0);
    turned.basis[4] = (-1.0f32).to_bits();
    assert!(!turned.equals(&at(1.0, 2.0, 3.0)));
    assert!(at_2d(1.0, 2.0).equals(&at_2d(1.0, 2.0)));
    assert!(!at_2d(1.0, 2.0).equals(&at_2d(1.0, 2.5)));
    let mut scaled = at_2d(1.0, 2.0);
    scaled.b[1] = 2.0f32.to_bits();
    assert!(!scaled.equals(&at_2d(1.0, 2.0)));
    scaled = at_2d(1.0, 2.0);
    scaled.a[0] = 2.0f32.to_bits();
    assert!(!scaled.equals(&at_2d(1.0, 2.0)));
}

#[test]
fn a_new_transform_is_pushed_only_where_the_engine_differs() {
    let mut mirror = scene();
    assert!(mirror.get(2).unwrap().transform_changed);
    // the engine shows what was read when the node was added: nothing to write
    let live = vec![LiveTransform { object_id: 2, transform: at(1.0, 2.0, 3.0) }];
    assert!(mirror.post_update_godot_transforms(&live).is_empty());
    assert!(!mirror.get(2).unwrap().transform_changed);
}

#[test]
fn the_pull_copies_what_differs_and_the_push_writes_what_was_set() {
    let mut mirror = scene();
    mirror.post_update_godot_transforms(&vec![]);

    // the engine moved the node: the pull copies, and the push has nothing to write back
    let live = vec![LiveTransform { object_id: 2, transform: at(9.0, 2.0, 3.0) }];
    mirror.pre_update_godot_transforms(&live);
    assert_eq!(mirror.get(2).unwrap().transform.unwrap().origin, bits([9.0, 2.0, 3.0]));
    assert!(mirror.get(2).unwrap().transform_changed);
    assert!(mirror.post_update_godot_transforms(&live).is_empty());
    assert!(!mirror.get(2).unwrap().transform_changed);

    // the game moved the node: the push writes the value of the mirror
    mirror.pre_update_godot_transforms(&live);
    assert!(!mirror.get(2).unwrap().transform_changed);
    assert!(mirror.set_transform(2, at(7.0, 7.0, 7.0)));
    let writes = mirror.post_update_godot_transforms(&live);
    assert_eq!(writes.len(), 1);
    assert_eq!(writes[0].object_id, 2);
    assert_eq!(writes[0].transform.origin, bits([7.0, 7.0, 7.0]));
    assert_eq!(writes[0].transform.basis, at(0.0, 0.0, 0.0).basis);
}

#[test]
fn nothing_is_written_twice() {
    let mut mirror = scene();
    mirror.set_transform(2, at(7.0, 7.0, 7.0));
    let before = vec![LiveTransform { object_id: 2, transform: at(1.0, 2.0, 3.0) }];
    mirror.pre_update_godot_transforms(&vec![]);
    let writes = mirror.post_update_godot_transforms(&before);
    assert_eq!(writes.len(), 1);
    // the next frame finds the engine as it was written
    let after = vec![LiveTransform { object_id: 2, transform: writes[0].transform }];
    mirror.pre_update_godot_transforms(&after);
    assert!(!mirror.get(2).unwrap().transform_changed);
    assert_eq!(mirror.get(2).unwrap().transform.unwrap().origin, bits([7.0, 7.0, 7.0]));
    assert!(mirror.post_update_godot_transforms(&after).is_empty());
}

#[test]
fn a_transform_that_is_not_a_number_never_settles() {
    let mut mirror = scene();
    mirror.set_transform(2, at(f32::NAN, 0.0, 0.0));
    let live = vec![LiveTransform { object_id: 2, transform: at(1.0, 2.0, 3.0) }];
    let writes = mirror.post_update_godot_transforms(&live);
    assert_eq!(writes.len(), 1);
    let after = vec![LiveTransform { object_id: 2, transform: writes[0].transform }];
    assert!(mirror.pull_transform(&after[0]));
    assert_eq!(mirror.post_update_godot_transforms(&after).len(), 1);
}

#[test]
fn readings_of_nodes_without_a_transform_are_left_aside() {
    let mut mirror = scene();
    mirror.post_update_godot_transforms(&vec![]);
    let live = vec![
        LiveTransform { object_id: 1, transform: at(9.0, 9.0, 9.0) },
        LiveTransform { object_id: 3, transform: at(9.0, 9.0, 9.0) },
        LiveTransform { object_id: 99, transform: at(9.0, 9.0, 9.0) },
    ];
    mirror.pre_update_godot_transforms(&live);
    assert!(mirror.get(1).unwrap().transform.is_none());
    assert!(mirror.get(3).unwrap().transform.is_none());
    assert!(!mirror.set_transform(1, at(0.0, 0.0, 0.0)));
    assert!(!mirror.set_transform(99, at(0.0, 0.0, 0.0)));
    assert!(!mirror.set_transform_2d(2, at_2d(0.0, 0.0)));
    assert!(!mirror.pull_transform(&live[0]));
    assert!(mirror.post_update_godot_transforms(&live).is_empty());
}

#[test]
fn transforms_in_the_plane_go_the_same_way() {
    let mut mirror = scene();
    assert!(mirror.get(3).unwrap().transform_2d_changed);
    let live = vec![LiveTransform2D { object_id: 3, transform: at_2d(4.0, 5.0) }];
    assert!(mirror.post_update_godot_transforms_2d(&live).is_empty());
    assert!(!mirror.get(3).unwrap().transform_2d_changed);

    let moved = vec![LiveTransform2D { object_id: 3, transform: at_2d(6.0, 5.0) }];
    mirror.pre_update_godot_transforms_2d(&moved);
    assert_eq!(mirror.get(3).unwrap().transform_2d.unwrap().origin, [6.0f32.to_bits(), 5.0f32.to_bits()]);
    assert!(mirror.post_update_godot_transforms_2d(&moved).is_empty());

    assert!(mirror.set_transform_2d(3, at_2d(8.0, 8.0)));
    let writes = mirror.post_update_godot_transforms_2d(&moved);
    assert_eq!(writes.len(), 1);
    assert_eq!(writes[0].object_id, 3);
    assert_eq!(writes[0].transform.origin, [8.0f32.to_bits(), 8.0f32.to_bits()]);
    let after = vec![LiveTransform2D { object_id: 3, transform: writes[0].transform }];
    mirror.pre_update_godot_transforms_2d(&after);
    assert!(mirror.post_update_godot_transforms_2d(&after).is_empty());
    assert!(!mirror.pull_transform_2d(&after[0]));
}
