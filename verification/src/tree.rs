//! The mathematical model of the mirror.
//!
//! The mirror is a finite map from instance ids to records. Each record
//! names its parent by instance id, so the map is a forest, and what the
//! engine tells of its scene tree becomes a function from one map to the
//! next.
use vstd::prelude::*;
use crate::collisions::{CollisionEvent, CollisionsView};
use crate::entity::Entity;
use crate::godot_ref::GodotRefView;
use crate::scene_tree::NodeSnapshotView;
use crate::transforms::{LiveTransform, LiveTransform2D, Transform, Transform2D};

verus! {

/// What the mirror holds of one node.
pub struct MirrorNode {
    /// The entity that stands for the node.
    pub entity: Entity,
    /// The instance id of the node.
    pub object_id: i64,
    /// The class of the node.
    pub class_name: Seq<char>,
    /// The name of the node.
    pub name: Seq<char>,
    /// The instance id of the node's parent; `None` for a root.
    pub parent: Option<i64>,
    /// The transform in space, where the node has one.
    pub transform: Option<Transform>,
    /// Whether the transform in space was written since it was last pushed
    /// to the engine.
    pub transform_changed: bool,
    /// The transform in the plane, where the node has one.
    pub transform_2d: Option<Transform2D>,
    /// Whether the transform in the plane was written since it was last
    /// pushed to the engine.
    pub transform_2d_changed: bool,
    /// The contacts of the node, where the node reports bodies.
    pub collisions: Option<CollisionsView>,
    /// The groups of the node.
    pub groups: Seq<Seq<char>>,
}

/// The mirror as a map from instance ids to records.
pub type MirrorTree = Map<i64, MirrorNode>;

/// The node that is reached from `id` by going up `steps` times, if the
/// walk stays inside the mirror.
pub open spec fn ancestor(t: MirrorTree, id: i64, steps: nat) -> Option<i64>
    decreases steps,
{
    if !t.contains_key(id) {
        None
    } else if steps == 0 {
        Some(id)
    } else {
        match t[id].parent {
            Some(p) => ancestor(t, p, (steps - 1) as nat),
            None => None,
        }
    }
}

/// Whether `id` is `top` or lies below it.
pub open spec fn within(t: MirrorTree, id: i64, top: i64) -> bool {
    exists|steps: nat| ancestor(t, id, steps) == Some(top)
}

/// The node `top` with everything below it.
pub open spec fn subtree(t: MirrorTree, top: i64) -> Set<i64> {
    Set::new(|id: i64| within(t, id, top))
}

/// Whether the walk up from `id` ends, after `steps` steps, at a node
/// without a parent.
pub open spec fn root_after(t: MirrorTree, id: i64, steps: nat) -> bool {
    match ancestor(t, id, steps) {
        Some(r) => t[r].parent is None,
        None => false,
    }
}

/// Whether `id` hangs below a root of the mirror.
pub open spec fn rooted(t: MirrorTree, id: i64) -> bool {
    exists|steps: nat| root_after(t, id, steps)
}

/// The nodes that hang below a root of the mirror.
pub open spec fn reachable(t: MirrorTree) -> Set<i64> {
    Set::new(|id: i64| rooted(t, id))
}

/// Whether every record is filed under its own instance id.
pub open spec fn keyed(t: MirrorTree) -> bool {
    forall|id: i64| #[trigger] t.contains_key(id) ==> t[id].object_id == id
}

/// Whether every parent that a record names is in the mirror.
pub open spec fn parents_present(t: MirrorTree) -> bool {
    forall|id: i64| #[trigger]
        t.contains_key(id) ==> (t[id].parent matches Some(p) ==> t.contains_key(p))
}

/// Whether every node of the mirror hangs below a root: no node is lost
/// and no chain of parents runs in a circle.
pub open spec fn all_rooted(t: MirrorTree) -> bool {
    forall|id: i64| #[trigger] t.contains_key(id) ==> rooted(t, id)
}

/// Whether no entity stands for two nodes.
pub open spec fn entities_distinct(t: MirrorTree) -> bool {
    forall|a: i64, b: i64|
        #![trigger t[a], t[b]]
        t.contains_key(a) && t.contains_key(b) && a != b ==> t[a].entity != t[b].entity
}

/// Whether every entity of the mirror has a number below `bound`.
pub open spec fn entities_below(t: MirrorTree, bound: u64) -> bool {
    forall|id: i64| #[trigger] t.contains_key(id) ==> t[id].entity.id < bound
}

/// What holds of the mirror at all times.
pub open spec fn tree_wf(t: MirrorTree) -> bool {
    &&& t.dom().finite()
    &&& keyed(t)
    &&& parents_present(t)
    &&& all_rooted(t)
    &&& entities_distinct(t)
}

/// The record that an added node gets.
pub open spec fn record_of(node: GodotRefView, snapshot: NodeSnapshotView, entity: Entity)
    -> MirrorNode {
    MirrorNode {
        entity,
        object_id: node.object_id,
        class_name: node.class_name,
        name: snapshot.name,
        parent: snapshot.parent,
        transform: snapshot.transform,
        transform_changed: snapshot.transform is Some,
        transform_2d: snapshot.transform_2d,
        transform_2d_changed: snapshot.transform_2d is Some,
        collisions: if snapshot.reports_bodies {
            Some(CollisionsView::empty())
        } else {
            None
        },
        groups: snapshot.groups,
    }
}

/// Whether an added node names a parent that the mirror does not hold.
pub open spec fn parent_missing(t: MirrorTree, snapshot: NodeSnapshotView) -> bool {
    snapshot.parent matches Some(p) && !t.contains_key(p)
}

/// Whether a node that the mirror holds is added again below itself or
/// below one of its own descendants.
pub open spec fn parent_below(t: MirrorTree, id: i64, snapshot: NodeSnapshotView) -> bool {
    snapshot.parent matches Some(p) && t.contains_key(id) && within(t, p, id)
}

/// Whether the mirror has no entity left for a node that it does not hold
/// yet.
pub open spec fn out_of_entities(t: MirrorTree, id: i64, fresh: Entity) -> bool {
    !t.contains_key(id) && fresh.id == u64::MAX
}

/// Whether the mirror takes an added node in.
pub open spec fn add_accepted(
    t: MirrorTree,
    id: i64,
    snapshot: NodeSnapshotView,
    fresh: Entity,
) -> bool {
    &&& !parent_missing(t, snapshot)
    &&& !parent_below(t, id, snapshot)
    &&& !out_of_entities(t, id, fresh)
}

/// The mirror after a node was added.
///
/// A node that the mirror does not hold gets the entity `fresh`. A node that
/// it holds keeps its entity, and everything else of its record is written
/// anew. A node that is not accepted leaves the mirror as it was.
pub open spec fn tree_added(
    t: MirrorTree,
    node: GodotRefView,
    snapshot: NodeSnapshotView,
    fresh: Entity,
) -> MirrorTree {
    let id = node.object_id;
    if add_accepted(t, id, snapshot, fresh) {
        let entity = if t.contains_key(id) {
            t[id].entity
        } else {
            fresh
        };
        t.insert(id, record_of(node, snapshot, entity))
    } else {
        t
    }
}

/// The mirror after a walk over the scene tree met a node.
///
/// A node that the mirror does not hold is taken in as if it had been
/// added. A node that it holds keeps its record, its contacts and its
/// transforms among it; only the parent is written anew, where the new
/// parent is in the mirror and does not lie below the node.
pub open spec fn tree_seen(
    t: MirrorTree,
    node: GodotRefView,
    snapshot: NodeSnapshotView,
    fresh: Entity,
) -> MirrorTree {
    let id = node.object_id;
    if !t.contains_key(id) {
        tree_added(t, node, snapshot, fresh)
    } else if parent_missing(t, snapshot) || parent_below(t, id, snapshot) {
        t
    } else {
        t.insert(id, MirrorNode { parent: snapshot.parent, ..t[id] })
    }
}

/// The mirror after a node was removed: the node goes, with everything
/// below it.
pub open spec fn tree_removed(t: MirrorTree, id: i64) -> MirrorTree {
    t.remove_keys(subtree(t, id))
}

/// The mirror after a node was renamed: only the name of its record
/// changes.
pub open spec fn tree_renamed(t: MirrorTree, id: i64, name: Seq<char>) -> MirrorTree {
    if t.contains_key(id) {
        t.insert(id, MirrorNode { name, ..t[id] })
    } else {
        t
    }
}

/// Whether `entity` stands for a node that `before` holds and `after` does
/// not.
pub open spec fn let_go(before: MirrorTree, after: MirrorTree, entity: Entity) -> bool {
    exists|id: i64|
        #![trigger before[id]]
        before.contains_key(id) && !after.contains_key(id) && before[id].entity == entity
}

/// Whether `id` is a node that is not to be kept, or lies below one.
pub open spec fn below_lost(t: MirrorTree, id: i64, keep: Set<i64>) -> bool {
    exists|top: i64| !keep.contains(top) && within(t, id, top)
}

/// The nodes that go when only the nodes of `keep` are to stay: every node
/// that is not in `keep`, with everything below it.
pub open spec fn lost(t: MirrorTree, keep: Set<i64>) -> Set<i64> {
    Set::new(|id: i64| below_lost(t, id, keep))
}

/// The mirror after every node that is not to be kept has gone, with
/// everything below it.
pub open spec fn tree_kept(t: MirrorTree, keep: Set<i64>) -> MirrorTree {
    t.remove_keys(lost(t, keep))
}

/// A node goes if it is not to be kept, or if its parent goes.
pub proof fn lemma_below_lost_unfold(t: MirrorTree, id: i64, keep: Set<i64>)
    requires
        t.contains_key(id),
    ensures
        below_lost(t, id, keep) <==> (!keep.contains(id) || (t[id].parent matches Some(p)
            && below_lost(t, p, keep))),
{
    if below_lost(t, id, keep) {
        let top = choose|top: i64| !keep.contains(top) && within(t, id, top);
        lemma_within_unfold(t, id, top);
    }
    if !keep.contains(id) {
        lemma_within_unfold(t, id, id);
    }
    if let Some(p) = t[id].parent {
        if below_lost(t, p, keep) {
            let top = choose|top: i64| !keep.contains(top) && within(t, p, top);
            lemma_within_unfold(t, id, top);
        }
    }
}

/// The record at the start of a frame: its recent contacts are forgotten.
pub open spec fn node_cleared(n: MirrorNode) -> MirrorNode {
    MirrorNode {
        collisions: match n.collisions {
            Some(c) => Some(c.cleared()),
            None => None,
        },
        ..n
    }
}

/// The mirror at the start of a frame: every record has its recent contacts
/// forgotten.
pub open spec fn recents_cleared(t: MirrorTree) -> MirrorTree {
    t.map_values(|n: MirrorNode| node_cleared(n))
}

/// Whether a contact event counts: the mirror holds both bodies, and the
/// origin keeps track of its contacts.
pub open spec fn collision_counts(t: MirrorTree, event: CollisionEvent) -> bool {
    &&& t.contains_key(event.target)
    &&& t.contains_key(event.origin)
    &&& t[event.origin].collisions is Some
}

/// The mirror after one contact event. An event that does not count
/// changes nothing; one that counts changes the contacts of the origin, in
/// which the target stands as its entity.
pub open spec fn tree_collided(t: MirrorTree, event: CollisionEvent) -> MirrorTree {
    if collision_counts(t, event) {
        let origin = t[event.origin];
        let contacts = origin.collisions->Some_0.after(event.event_type, t[event.target].entity);
        t.insert(event.origin, MirrorNode { collisions: Some(contacts), ..origin })
    } else {
        t
    }
}

/// The mirror after a row of contact events, taken up in their order.
pub open spec fn tree_collided_all(t: MirrorTree, events: Seq<CollisionEvent>) -> MirrorTree
    decreases events.len(),
{
    if events.len() == 0 {
        t
    } else {
        tree_collided(tree_collided_all(t, events.drop_last()), events.last())
    }
}

/// Whether a reading of the engine is to be copied into the mirror: the
/// mirror holds a transform in space for the node, and the reading differs
/// from it by value.
pub open spec fn pull_due(t: MirrorTree, reading: LiveTransform) -> bool {
    &&& t.contains_key(reading.object_id)
    &&& t[reading.object_id].transform matches Some(held)
    &&& !held.same_as(reading.transform)
}

/// The mirror after one reading of the engine was pulled in. A reading that
/// is copied marks the transform as written.
pub open spec fn tree_pulled(t: MirrorTree, reading: LiveTransform) -> MirrorTree {
    if pull_due(t, reading) {
        t.insert(
            reading.object_id,
            MirrorNode {
                transform: Some(reading.transform),
                transform_changed: true,
                ..t[reading.object_id]
            },
        )
    } else {
        t
    }
}

/// The mirror after a row of readings was pulled in, in their order.
pub open spec fn tree_pulled_all(t: MirrorTree, readings: Seq<LiveTransform>) -> MirrorTree
    decreases readings.len(),
{
    if readings.len() == 0 {
        t
    } else {
        tree_pulled(tree_pulled_all(t, readings.drop_last()), readings.last())
    }
}

/// Whether the transform that the mirror holds is to be written to the
/// engine: it was written in the mirror since the last push, and the engine
/// shows another value.
pub open spec fn push_due(t: MirrorTree, reading: LiveTransform) -> bool {
    &&& t.contains_key(reading.object_id)
    &&& t[reading.object_id].transform matches Some(held)
    &&& t[reading.object_id].transform_changed
    &&& !held.same_as(reading.transform)
}

/// What is written to the engine for a reading that is due.
pub open spec fn push_write(t: MirrorTree, reading: LiveTransform) -> LiveTransform {
    LiveTransform {
        object_id: reading.object_id,
        transform: t[reading.object_id].transform->Some_0,
    }
}

/// What is written to the engine for a row of readings: one write for each
/// reading that is due, in the order of the readings.
pub open spec fn tree_pushes(t: MirrorTree, readings: Seq<LiveTransform>) -> Seq<LiveTransform>
    decreases readings.len(),
{
    if readings.len() == 0 {
        Seq::empty()
    } else {
        let front = tree_pushes(t, readings.drop_last());
        if push_due(t, readings.last()) {
            front.push(push_write(t, readings.last()))
        } else {
            front
        }
    }
}

/// The record after a push: its transform in space counts as not written.
pub open spec fn node_settled(n: MirrorNode) -> MirrorNode {
    MirrorNode { transform_changed: false, ..n }
}

/// The mirror after a push: no transform in space counts as written.
pub open spec fn tree_settled(t: MirrorTree) -> MirrorTree {
    t.map_values(|n: MirrorNode| node_settled(n))
}

/// The mirror after the transform in space of a node was set. A node that
/// the mirror does not hold, or that has no such transform, changes nothing.
pub open spec fn tree_transformed(t: MirrorTree, id: i64, transform: Transform) -> MirrorTree {
    if t.contains_key(id) && t[id].transform is Some {
        t.insert(id, MirrorNode { transform: Some(transform), transform_changed: true, ..t[id] })
    } else {
        t
    }
}

/// Whether a reading of the engine is to be copied into the mirror: the
/// mirror holds a transform in the plane for the node, and the reading
/// differs from it by value.
pub open spec fn pull_due_2d(t: MirrorTree, reading: LiveTransform2D) -> bool {
    &&& t.contains_key(reading.object_id)
    &&& t[reading.object_id].transform_2d matches Some(held)
    &&& !held.same_as(reading.transform)
}

/// The mirror after one reading of the engine was pulled in. A reading that
/// is copied marks the transform as written.
pub open spec fn tree_pulled_2d(t: MirrorTree, reading: LiveTransform2D) -> MirrorTree {
    if pull_due_2d(t, reading) {
        t.insert(
            reading.object_id,
            MirrorNode {
                transform_2d: Some(reading.transform),
                transform_2d_changed: true,
                ..t[reading.object_id]
            },
        )
    } else {
        t
    }
}

/// The mirror after a row of readings was pulled in, in their order.
pub open spec fn tree_pulled_all_2d(t: MirrorTree, readings: Seq<LiveTransform2D>) -> MirrorTree
    decreases readings.len(),
{
    if readings.len() == 0 {
        t
    } else {
        tree_pulled_2d(tree_pulled_all_2d(t, readings.drop_last()), readings.last())
    }
}

/// Whether the transform that the mirror holds is to be written to the
/// engine: it was written in the mirror since the last push, and the engine
/// shows another value.
pub open spec fn push_due_2d(t: MirrorTree, reading: LiveTransform2D) -> bool {
    &&& t.contains_key(reading.object_id)
    &&& t[reading.object_id].transform_2d matches Some(held)
    &&& t[reading.object_id].transform_2d_changed
    &&& !held.same_as(reading.transform)
}

/// What is written to the engine for a reading that is due.
pub open spec fn push_write_2d(t: MirrorTree, reading: LiveTransform2D) -> LiveTransform2D {
    LiveTransform2D {
        object_id: reading.object_id,
        transform: t[reading.object_id].transform_2d->Some_0,
    }
}

/// What is written to the engine for a row of readings: one write for each
/// reading that is due, in the order of the readings.
pub open spec fn tree_pushes_2d(t: MirrorTree, readings: Seq<LiveTransform2D>) -> Seq<
    LiveTransform2D,
>
    decreases readings.len(),
{
    if readings.len() == 0 {
        Seq::empty()
    } else {
        let front = tree_pushes_2d(t, readings.drop_last());
        if push_due_2d(t, readings.last()) {
            front.push(push_write_2d(t, readings.last()))
        } else {
            front
        }
    }
}

/// The record after a push: its transform in the plane counts as not
/// written.
pub open spec fn node_settled_2d(n: MirrorNode) -> MirrorNode {
    MirrorNode { transform_2d_changed: false, ..n }
}

/// The mirror after a push: no transform in the plane counts as written.
pub open spec fn tree_settled_2d(t: MirrorTree) -> MirrorTree {
    t.map_values(|n: MirrorNode| node_settled_2d(n))
}

/// The mirror after the transform in the plane of a node was set. A node
/// that the mirror does not hold, or that has no such transform, changes
/// nothing.
pub open spec fn tree_transformed_2d(t: MirrorTree, id: i64, transform: Transform2D)
    -> MirrorTree {
    if t.contains_key(id) && t[id].transform_2d is Some {
        t.insert(
            id,
            MirrorNode { transform_2d: Some(transform), transform_2d_changed: true, ..t[id] },
        )
    } else {
        t
    }
}

/// Going up from a node is going up from its parent, one step later.
pub proof fn lemma_within_unfold(t: MirrorTree, id: i64, top: i64)
    requires
        t.contains_key(id),
    ensures
        within(t, id, top) <==> (id == top || (t[id].parent matches Some(p) && within(t, p, top))),
{
    if within(t, id, top) {
        let k = choose|k: nat| ancestor(t, id, k) == Some(top);
        if k > 0 {
            let p = t[id].parent->Some_0;
            assert(ancestor(t, p, (k - 1) as nat) == Some(top));
        }
    }
    if id == top {
        assert(ancestor(t, id, 0) == Some(top));
    }
    if let Some(p) = t[id].parent {
        if within(t, p, top) {
            let k = choose|k: nat| ancestor(t, p, k) == Some(top);
            assert(ancestor(t, id, k + 1) == Some(top));
        }
    }
}

/// The walk up from a node of the mirror never leaves the mirror.
pub proof fn lemma_ancestor_present(t: MirrorTree, id: i64, steps: nat)
    ensures
        ancestor(t, id, steps) matches Some(a) ==> t.contains_key(a) && t.contains_key(id),
    decreases steps,
{
    if t.contains_key(id) && steps > 0 {
        if let Some(p) = t[id].parent {
            lemma_ancestor_present(t, p, (steps - 1) as nat);
        }
    }
}

/// Only nodes of the mirror lie within a node, and only within a node of
/// the mirror.
pub proof fn lemma_within_present(t: MirrorTree, id: i64, top: i64)
    requires
        within(t, id, top),
    ensures
        t.contains_key(id),
        t.contains_key(top),
{
    let k = choose|k: nat| ancestor(t, id, k) == Some(top);
    lemma_ancestor_present(t, id, k);
}

/// The scene tree as the engine holds it: every node with its parent, `None`
/// for a root.
pub type ParentMap = Map<i64, Option<i64>>;

/// The shape of the mirror: every node with its parent.
pub open spec fn parents(t: MirrorTree) -> ParentMap {
    t.map_values(|n: MirrorNode| n.parent)
}

/// The node that is reached in the engine's tree from `id` by going up
/// `steps` times.
pub open spec fn engine_ancestor(e: ParentMap, id: i64, steps: nat) -> Option<i64>
    decreases steps,
{
    if !e.contains_key(id) {
        None
    } else if steps == 0 {
        Some(id)
    } else {
        match e[id] {
            Some(p) => engine_ancestor(e, p, (steps - 1) as nat),
            None => None,
        }
    }
}

/// Whether, in the engine's tree, `id` is `top` or lies below it.
pub open spec fn engine_within(e: ParentMap, id: i64, top: i64) -> bool {
    exists|steps: nat| engine_ancestor(e, id, steps) == Some(top)
}

/// The node `top` of the engine's tree with everything below it.
pub open spec fn engine_subtree(e: ParentMap, top: i64) -> Set<i64> {
    Set::new(|id: i64| engine_within(e, id, top))
}

/// Whether the walk up from `id` in the engine's tree ends, after `steps`
/// steps, at a root.
pub open spec fn engine_root_after(e: ParentMap, id: i64, steps: nat) -> bool {
    match engine_ancestor(e, id, steps) {
        Some(r) => e[r] is None,
        None => false,
    }
}

/// The nodes of the engine's tree that hang below a root.
pub open spec fn engine_reachable(e: ParentMap) -> Set<i64> {
    Set::new(|id: i64| exists|steps: nat| engine_root_after(e, id, steps))
}

/// A walk up in the mirror is the same walk in its shape.
pub proof fn lemma_same_walk(t: MirrorTree, id: i64, steps: nat)
    ensures
        ancestor(t, id, steps) == engine_ancestor(parents(t), id, steps),
    decreases steps,
{
    if t.contains_key(id) && steps > 0 {
        if let Some(p) = t[id].parent {
            lemma_same_walk(t, p, (steps - 1) as nat);
        }
    }
}

/// A node with what lies below it is the same set in the mirror and in its
/// shape, and so are the nodes that hang below a root.
pub proof fn lemma_same_sets(t: MirrorTree)
    ensures
        forall|top: i64| #[trigger] subtree(t, top) == engine_subtree(parents(t), top),
        reachable(t) == engine_reachable(parents(t)),
{
    let e = parents(t);
    assert forall|top: i64| #[trigger] subtree(t, top) == engine_subtree(e, top) by {
        assert forall|id: i64| within(t, id, top) == engine_within(e, id, top) by {
            if within(t, id, top) {
                let k = choose|k: nat| ancestor(t, id, k) == Some(top);
                lemma_same_walk(t, id, k);
            }
            if engine_within(e, id, top) {
                let k = choose|k: nat| engine_ancestor(e, id, k) == Some(top);
                lemma_same_walk(t, id, k);
            }
        }
        assert(subtree(t, top) =~= engine_subtree(e, top));
    }
    assert forall|id: i64| rooted(t, id) == engine_reachable(e).contains(id) by {
        if rooted(t, id) {
            let k = choose|k: nat| root_after(t, id, k);
            lemma_same_walk(t, id, k);
            lemma_ancestor_present(t, id, k);
            assert(engine_root_after(e, id, k));
        }
        if engine_reachable(e).contains(id) {
            let k = choose|k: nat| engine_root_after(e, id, k);
            lemma_same_walk(t, id, k);
            lemma_ancestor_present(t, id, k);
            assert(root_after(t, id, k));
        }
    }
    assert(reachable(t) =~= engine_reachable(e));
}

/// In a mirror in which every node hangs below a root, the nodes that hang
/// below a root are all the nodes.
pub proof fn lemma_all_reachable(t: MirrorTree)
    requires
        all_rooted(t),
    ensures
        reachable(t) == t.dom(),
{
    assert forall|id: i64| rooted(t, id) implies t.contains_key(id) by {
        let k = choose|k: nat| root_after(t, id, k);
        lemma_ancestor_present(t, id, k);
    }
    assert(reachable(t) =~= t.dom());
}

} // verus!
