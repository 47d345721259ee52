//! The mirror of the scene tree: one entity for every node that the engine
//! has announced and not taken back.
use vstd::prelude::*;
use std::collections::HashMap;
use crate::collisions::{Collisions, CollisionsView};
use crate::entity::Entity;
use crate::godot_ref::{ErasedGodotRef, GodotRefView};
use crate::order::{
    found_before, gone_entities, ids_distinct, lemma_below_behind, lemma_count, lemma_gone,
    lemma_held, lemma_move, lemma_pick_step, lemma_place, lemma_push_ordered, lemma_remove,
    lemma_tree_wf, lemma_update_ordered, moved, ordered, parents_first, pick, place_of, tree_of,
};
use crate::scene_tree::{
    Groups, NodeSnapshot, NodeSnapshotView, SceneTreeEvent, SceneTreeEventType,
    SceneTreeEventView,
};
use crate::transforms::{Transform, Transform2D};
use crate::tree::{
    MirrorNode, MirrorTree, ancestor, entities_below, lemma_within_present, lemma_within_unfold,
    let_go,
    out_of_entities, parent_below, parent_missing, record_of, subtree, tree_added, tree_removed,
    tree_renamed, tree_seen, tree_wf, within,
};

verus! {

/// The record that the mirror keeps of one node.
#[derive(Debug)]
pub struct MirrorEntity {
    /// The entity that stands for the node.
    pub entity: Entity,
    /// The handle of the node.
    pub node: ErasedGodotRef,
    /// The name of the node.
    pub name: String,
    /// The instance id of the node's parent; `None` for a root.
    pub parent: Option<i64>,
    /// The transform in space, where the node has one.
    pub transform: Option<Transform>,
    /// Whether the transform in space was written since it was last pushed
    /// to the engine.
    pub transform_changed: bool,
    /// The transform in the plane, where the node has one.
    pub transform_2d: Option<Transform2D>,
    /// Whether the transform in the plane was written since it was last
    /// pushed to the engine.
    pub transform_2d_changed: bool,
    /// The contacts of the node, where the node reports bodies.
    pub collisions: Option<Collisions>,
    /// The groups of the node.
    pub groups: Groups,
}

/// The mathematical value of an optional collision record.
pub open spec fn contacts_view(collisions: Option<Collisions>) -> Option<CollisionsView> {
    match collisions {
        Some(c) => Some(c@),
        None => None,
    }
}

impl View for MirrorEntity {
    type V = MirrorNode;

    open spec fn view(&self) -> MirrorNode {
        MirrorNode {
            entity: self.entity,
            object_id: self.node@.object_id,
            class_name: self.node@.class_name,
            name: self.name@,
            parent: self.parent,
            transform: self.transform,
            transform_changed: self.transform_changed,
            transform_2d: self.transform_2d,
            transform_2d_changed: self.transform_2d_changed,
            collisions: contacts_view(self.collisions),
            groups: self.groups@,
        }
    }
}

/// The records of a row, as mathematical values.
pub open spec fn row_of(nodes: Seq<MirrorEntity>) -> Seq<MirrorNode> {
    Seq::new(nodes.len(), |i: int| nodes[i]@)
}

/// Why the mirror left a notice aside.
#[derive(Clone, Copy, Debug, PartialEq, Eq, Structural)]
pub enum MirrorError {
    /// The node was gone when the notice was taken up.
    Dangling,
    /// The notice is about a node that the mirror does not hold.
    UnknownNode,
    /// The node was added before its parent.
    MissingParent,
    /// The node was added below itself or below one of its descendants.
    CyclicParent,
    /// No entity is left.
    Exhausted,
}

/// What one notice did to the mirror, for the runtime to do the same to its
/// entities.
#[derive(Clone, Copy, Debug, PartialEq, Eq, Structural)]
pub enum MirrorChange {
    /// A node was taken in: a new entity, to be hung below `parent`.
    Spawned { entity: Entity, parent: Option<Entity> },
    /// A node that the mirror held was added again: its entity stays, its
    /// components are written anew, and it hangs below `parent`.
    Refreshed { entity: Entity, parent: Option<Entity> },
    /// A node that the mirror held was met by a walk: its entity and its
    /// components stay, and it hangs below `parent`.
    Kept { entity: Entity, parent: Option<Entity> },
    /// A node was removed: its entity goes, with every entity below it.
    Despawned { entity: Entity },
    /// A node was renamed.
    Renamed { entity: Entity },
    /// The notice was left aside.
    Skipped { reason: MirrorError },
}

/// What the mirror answers to a notice: what the notice did, and the
/// entities of all nodes that went with it.
#[derive(Debug)]
pub struct Applied {
    pub change: MirrorChange,
    pub despawned: Vec<Entity>,
}

/// The entity of the node with the given instance id, if an id is given.
pub open spec fn entity_at(t: MirrorTree, id: Option<i64>) -> Option<Entity> {
    match id {
        Some(p) => Some(t[p].entity),
        None => None,
    }
}

/// What the mirror answers when a node was added.
pub open spec fn add_change(
    t: MirrorTree,
    node: GodotRefView,
    snapshot: NodeSnapshotView,
    fresh: Entity,
) -> MirrorChange {
    let id = node.object_id;
    if parent_missing(t, snapshot) {
        MirrorChange::Skipped { reason: MirrorError::MissingParent }
    } else if parent_below(t, id, snapshot) {
        MirrorChange::Skipped { reason: MirrorError::CyclicParent }
    } else if out_of_entities(t, id, fresh) {
        MirrorChange::Skipped { reason: MirrorError::Exhausted }
    } else if t.contains_key(id) {
        MirrorChange::Refreshed { entity: t[id].entity, parent: entity_at(t, snapshot.parent) }
    } else {
        MirrorChange::Spawned { entity: fresh, parent: entity_at(t, snapshot.parent) }
    }
}

/// What the mirror answers when a walk met a node.
pub open spec fn seen_change(
    t: MirrorTree,
    node: GodotRefView,
    snapshot: NodeSnapshotView,
    fresh: Entity,
) -> MirrorChange {
    let id = node.object_id;
    if !t.contains_key(id) {
        add_change(t, node, snapshot, fresh)
    } else if parent_missing(t, snapshot) {
        MirrorChange::Skipped { reason: MirrorError::MissingParent }
    } else if parent_below(t, id, snapshot) {
        MirrorChange::Skipped { reason: MirrorError::CyclicParent }
    } else {
        MirrorChange::Kept { entity: t[id].entity, parent: entity_at(t, snapshot.parent) }
    }
}

/// What the mirror answers when a node was removed.
pub open spec fn remove_change(t: MirrorTree, id: i64) -> MirrorChange {
    if t.contains_key(id) {
        MirrorChange::Despawned { entity: t[id].entity }
    } else {
        MirrorChange::Skipped { reason: MirrorError::UnknownNode }
    }
}

/// What the mirror answers when a node was renamed.
pub open spec fn rename_change(t: MirrorTree, id: i64) -> MirrorChange {
    if t.contains_key(id) {
        MirrorChange::Renamed { entity: t[id].entity }
    } else {
        MirrorChange::Skipped { reason: MirrorError::UnknownNode }
    }
}

/// A notice of the scene tree together with what the bridge read from the
/// node when it took the notice up: `None` where the handle of the node
/// resolved no more.
#[derive(Debug)]
pub struct ObservedEvent {
    pub event: SceneTreeEvent,
    pub live: Option<NodeSnapshot>,
}

/// The mathematical value of an observed notice.
pub struct ObservedEventView {
    pub event: SceneTreeEventView,
    pub live: Option<NodeSnapshotView>,
}

/// The mathematical value of an optional snapshot.
pub open spec fn live_view(live: Option<NodeSnapshot>) -> Option<NodeSnapshotView> {
    match live {
        Some(snapshot) => Some(snapshot@),
        None => None,
    }
}

impl View for ObservedEvent {
    type V = ObservedEventView;

    open spec fn view(&self) -> ObservedEventView {
        ObservedEventView { event: self.event@, live: live_view(self.live) }
    }
}

/// The mirror after one notice.
///
/// A node that is added or renamed is read anew; where it is gone already,
/// the notice changes nothing. A removed node needs no reading.
pub open spec fn tree_applied(t: MirrorTree, observed: ObservedEventView, fresh: Entity)
    -> MirrorTree {
    match observed.event.event_type {
        SceneTreeEventType::NodeAdded => match observed.live {
            Some(snapshot) => tree_added(t, observed.event.node, snapshot, fresh),
            None => t,
        },
        SceneTreeEventType::NodeRemoved => tree_removed(t, observed.event.node.object_id),
        SceneTreeEventType::NodeRenamed => match observed.live {
            Some(snapshot) => tree_renamed(t, observed.event.node.object_id, snapshot.name),
            None => t,
        },
    }
}

/// What the mirror answers to one notice.
pub open spec fn change_applied(t: MirrorTree, observed: ObservedEventView, fresh: Entity)
    -> MirrorChange {
    match observed.event.event_type {
        SceneTreeEventType::NodeAdded => match observed.live {
            Some(snapshot) => add_change(t, observed.event.node, snapshot, fresh),
            None => MirrorChange::Skipped { reason: MirrorError::Dangling },
        },
        SceneTreeEventType::NodeRemoved => remove_change(t, observed.event.node.object_id),
        SceneTreeEventType::NodeRenamed => match observed.live {
            Some(snapshot) => rename_change(t, observed.event.node.object_id),
            None => MirrorChange::Skipped { reason: MirrorError::Dangling },
        },
    }
}

/// The mirror and the entity that it hands out next.
pub struct MirrorState {
    pub tree: MirrorTree,
    pub fresh: Entity,
}

impl MirrorState {
    /// The state after one notice.
    pub open spec fn after(self, observed: ObservedEventView) -> MirrorState {
        MirrorState {
            tree: tree_applied(self.tree, observed, self.fresh),
            fresh: fresh_after(change_applied(self.tree, observed, self.fresh), self.fresh),
        }
    }

    /// The state after a row of notices, taken up in their order.
    pub open spec fn after_all(self, events: Seq<ObservedEventView>) -> MirrorState
        decreases events.len(),
    {
        if events.len() == 0 {
            self
        } else {
            self.after_all(events.drop_last()).after(events.last())
        }
    }

    /// The state after a walk met a node.
    pub open spec fn seen(self, met: (GodotRefView, NodeSnapshotView)) -> MirrorState {
        MirrorState {
            tree: tree_seen(self.tree, met.0, met.1, self.fresh),
            fresh: fresh_after(seen_change(self.tree, met.0, met.1, self.fresh), self.fresh),
        }
    }

    /// The state after a walk met a row of nodes, in their order.
    pub open spec fn seen_all(self, walk: Seq<(GodotRefView, NodeSnapshotView)>) -> MirrorState
        decreases walk.len(),
    {
        if walk.len() == 0 {
            self
        } else {
            self.seen_all(walk.drop_last()).seen(walk.last())
        }
    }

    /// What the mirror answers to each node of a walk.
    pub open spec fn seen_changes(self, walk: Seq<(GodotRefView, NodeSnapshotView)>) -> Seq<
        MirrorChange,
    > {
        Seq::new(
            walk.len(),
            |i: int|
                seen_change(
                    self.seen_all(walk.take(i)).tree,
                    walk[i].0,
                    walk[i].1,
                    self.seen_all(walk.take(i)).fresh,
                ),
        )
    }

    /// What the mirror answers to each notice of a row.
    pub open spec fn changes(self, events: Seq<ObservedEventView>) -> Seq<MirrorChange> {
        Seq::new(
            events.len(),
            |i: int|
                change_applied(
                    self.after_all(events.take(i)).tree,
                    events[i],
                    self.after_all(events.take(i)).fresh,
                ),
        )
    }
}

/// The notices of a row, as mathematical values.
pub open spec fn events_view(events: Seq<ObservedEvent>) -> Seq<ObservedEventView> {
    Seq::new(events.len(), |i: int| events[i]@)
}

/// The entity that the mirror hands out next, after it gave the answer
/// `change`.
pub open spec fn fresh_after(change: MirrorChange, fresh: Entity) -> Entity {
    if change is Spawned {
        Entity { id: (fresh.id + 1) as u64 }
    } else {
        fresh
    }
}

/// The record of a node that was added.
fn new_record(entity: Entity, node: ErasedGodotRef, live: NodeSnapshot) -> (record: MirrorEntity)
    ensures
        record@ == record_of(node@, live@, entity),
{
    let collisions = if live.reports_bodies {
        Some(Collisions::default())
    } else {
        None
    };
    MirrorEntity {
        entity,
        node,
        name: live.name,
        parent: live.parent,
        transform: live.transform,
        transform_changed: live.transform.is_some(),
        transform_2d: live.transform_2d,
        transform_2d_changed: live.transform_2d.is_some(),
        collisions,
        groups: live.groups,
    }
}

/// Whether the index leads from the instance id of every record to the
/// place of that record.
pub open spec fn indexed(places: Map<i64, usize>, row: Seq<MirrorNode>) -> bool {
    forall|k: int|
        0 <= k < row.len() ==> places.contains_key((#[trigger] row[k]).object_id)
            && places[row[k].object_id] == k
}

/// An index that leads to the records of a row leads to the records of any
/// row that has the same instance ids at the same places.
pub proof fn lemma_indexed_same_ids(places: Map<i64, usize>, row: Seq<MirrorNode>, now: Seq<
    MirrorNode,
>)
    requires
        indexed(places, row),
        now.len() == row.len(),
        forall|k: int| 0 <= k < row.len() ==> (#[trigger] now[k]).object_id == row[k].object_id,
    ensures
        indexed(places, now),
{
    assert forall|k: int| 0 <= k < now.len() implies places.contains_key(
        (#[trigger] now[k]).object_id,
    ) && places[now[k].object_id] == k by {
        assert(row[k].object_id == now[k].object_id);
    }
}

/// The place of the record that is filed under `id`, looked up through the
/// index.
pub(crate) fn lookup(nodes: &Vec<MirrorEntity>, places: &HashMap<i64, usize>, id: i64) -> (found:
    Option<usize>)
    requires
        indexed(places@, row_of(nodes@)),
    ensures
        match found {
            Some(j) => j < nodes.len() && row_of(nodes@)[j as int].object_id == id,
            None => !found_before(row_of(nodes@), id, nodes.len() as int),
        },
{
    broadcast use vstd::std_specs::hash::group_hash_axioms;

    match places.get(&id) {
        Some(place) => {
            let j = *place;
            if j < nodes.len() && nodes[j].node.instance_id() == id {
                Some(j)
            } else {
                None
            }
        },
        None => None,
    }
}

/// The index that leads from the instance id of every record to its place.
pub(crate) fn index_of(nodes: &Vec<MirrorEntity>) -> (places: HashMap<i64, usize>)
    requires
        ids_distinct(row_of(nodes@)),
    ensures
        indexed(places@, row_of(nodes@)),
{
    broadcast use vstd::std_specs::hash::group_hash_axioms;

    let ghost row = row_of(nodes@);
    let mut places: HashMap<i64, usize> = HashMap::new();
    let mut i: usize = 0;
    while i < nodes.len()
        invariant
            i <= nodes.len(),
            row == row_of(nodes@),
            ids_distinct(row),
            forall|k: int|
                0 <= k < i ==> places@.contains_key((#[trigger] row[k]).object_id)
                    && places@[row[k].object_id] == k,
        decreases nodes.len() - i,
    {
        places.insert(nodes[i].node.instance_id(), i);
        proof {
            assert forall|k: int| 0 <= k < i + 1 implies places@.contains_key(
                (#[trigger] row[k]).object_id,
            ) && places@[row[k].object_id] == k by {
                if k < i {
                    assert(row[k].object_id != row[i as int].object_id);
                }
            }
        }
        i = i + 1;
    }
    places
}

/// For every record, whether its node is `top` or lies below it. The mark
/// of a parent is looked up through an index from instance ids to places.
pub(crate) fn mark_subtree(nodes: &Vec<MirrorEntity>, top: i64) -> (marks: Vec<bool>)
    requires
        ids_distinct(row_of(nodes@)),
        parents_first(row_of(nodes@)),
    ensures
        marks@.len() == nodes@.len(),
        forall|i: int|
            0 <= i < nodes@.len() ==> #[trigger] marks@[i] == within(
                tree_of(row_of(nodes@)),
                row_of(nodes@)[i].object_id,
                top,
            ),
{
    broadcast use vstd::std_specs::hash::group_hash_axioms;

    let ghost row = row_of(nodes@);
    let ghost t = tree_of(row);
    let mut places: HashMap<i64, usize> = HashMap::new();
    let mut marks: Vec<bool> = Vec::new();
    let mut i: usize = 0;
    while i < nodes.len()
        invariant
            i <= nodes.len(),
            row == row_of(nodes@),
            t == tree_of(row),
            ids_distinct(row),
            parents_first(row),
            marks@.len() == i,
            forall|k: int| 0 <= k < i ==> #[trigger] marks@[k] == within(t, row[k].object_id, top),
            forall|k: int|
                0 <= k < i ==> places@.contains_key((#[trigger] row[k]).object_id)
                    && places@[row[k].object_id] == k,
        decreases nodes.len() - i,
    {
        let id = nodes[i].node.instance_id();
        proof {
            lemma_place(row, i as int);
            lemma_within_unfold(t, id, top);
        }
        let mark = if id == top {
            true
        } else {
            match nodes[i].parent {
                None => false,
                Some(p) => {
                    assert(found_before(row, p, i as int));
                    match places.get(&p) {
                        Some(j) => marks[*j],
                        None => false,
                    }
                },
            }
        };
        marks.push(mark);
        places.insert(id, i);
        proof {
            assert forall|k: int| 0 <= k < i + 1 implies places@.contains_key(
                (#[trigger] row[k]).object_id,
            ) && places@[row[k].object_id] == k by {
                if k < i {
                    assert(row[k].object_id != row[i as int].object_id);
                }
            }
        }
        i = i + 1;
    }
    marks
}

/// Parts the row in two: the records whose mark is not set, and those whose
/// mark is set, each part in the order of the row.
pub(crate) fn part(nodes: Vec<MirrorEntity>, marks: &Vec<bool>) -> (parts: (
    Vec<MirrorEntity>,
    Vec<MirrorEntity>,
))
    requires
        marks@.len() == nodes@.len(),
    ensures
        row_of(parts.0@) == pick(row_of(nodes@), marks@, false),
        row_of(parts.1@) == pick(row_of(nodes@), marks@, true),
{
    let ghost row = row_of(nodes@);
    let mut plain: Vec<MirrorEntity> = Vec::new();
    let mut marked: Vec<MirrorEntity> = Vec::new();
    let mut i: usize = 0;
    for node in it: nodes
        invariant
            i == it.index(),
            it.seq().len() == marks@.len(),
            row == row_of(it.seq()),
            row_of(plain@) == pick(row, marks@.take(i as int), false),
            row_of(marked@) == pick(row, marks@.take(i as int), true),
    {
        proof {
            lemma_pick_step(row, marks@, i as int, false);
            lemma_pick_step(row, marks@, i as int, true);
            assert(node@ == row[i as int]);
        }
        let ghost plain_before = row_of(plain@);
        let ghost marked_before = row_of(marked@);
        if marks[i] {
            marked.push(node);
            assert(row_of(marked@) =~= marked_before.push(row[i as int]));
        } else {
            plain.push(node);
            assert(row_of(plain@) =~= plain_before.push(row[i as int]));
        }
        assert(i < marks.len());
        i = i + 1;
    }
    proof {
        assert(marks@.take(i as int) == marks@);
    }
    (plain, marked)
}

/// Leaves out the records whose mark is set, and names their entities.
pub(crate) fn drop_marked(nodes: Vec<MirrorEntity>, marks: &Vec<bool>) -> (parts: (
    Vec<MirrorEntity>,
    Vec<Entity>,
))
    requires
        marks@.len() == nodes@.len(),
    ensures
        row_of(parts.0@) == pick(row_of(nodes@), marks@, false),
        parts.1@ == gone_entities(row_of(nodes@), marks@),
{
    let ghost gone = pick(row_of(nodes@), marks@, true);
    let (plain, marked) = part(nodes, marks);
    let mut despawned: Vec<Entity> = Vec::new();
    let mut i: usize = 0;
    while i < marked.len()
        invariant
            i <= marked.len(),
            row_of(marked@) == gone,
            despawned@.len() == i,
            forall|a: int| 0 <= a < i ==> #[trigger] despawned@[a] == gone[a].entity,
        decreases marked.len() - i,
    {
        assert(row_of(marked@)[i as int] == marked@[i as int]@);
        despawned.push(marked[i].entity);
        i = i + 1;
    }
    assert(despawned@ =~= Seq::new(gone.len(), |a: int| gone[a].entity));
    (plain, despawned)
}

/// The mirror of the scene tree.
///
/// The mirror holds one record for every node that was added and not
/// removed since, and hands out the entities. Its value is the map from
/// instance ids to records, which is at all times a forest in which every
/// node hangs below a root. The records stand in a row, every parent before
/// its children, and an index leads from each instance id to its record.
pub struct SceneMirror {
    pub(crate) nodes: Vec<MirrorEntity>,
    pub(crate) places: HashMap<i64, usize>,
    pub(crate) next_entity: u64,
}

impl View for SceneMirror {
    type V = MirrorTree;

    closed spec fn view(&self) -> MirrorTree {
        tree_of(row_of(self.nodes@))
    }
}

impl SceneMirror {
    /// What holds of every mirror: the records stand in a row in which no
    /// instance id and no entity occurs twice, every parent stands before
    /// its children, and every entity is older than the next one to be
    /// handed out; and the index leads from every instance id to the place
    /// of its record.
    #[verifier::type_invariant]
    pub closed spec fn wf(&self) -> bool {
        ordered(row_of(self.nodes@), self.next_entity) && indexed(
            self.places@,
            row_of(self.nodes@),
        )
    }

    /// The entity that the next new node gets.
    pub closed spec fn fresh(&self) -> Entity {
        Entity { id: self.next_entity }
    }

    /// What the value, the invariant and the next entity of a mirror are, for
    /// the other files of the crate that work on the row.
    pub(crate) proof fn lemma_open()
        ensures
            forall|m: SceneMirror|
                #[trigger] m.wf() == (ordered(row_of(m.nodes@), m.next_entity) && indexed(
                    m.places@,
                    row_of(m.nodes@),
                )),
            forall|m: SceneMirror| #[trigger] m@ == tree_of(row_of(m.nodes@)),
            forall|m: SceneMirror| #[trigger] m.fresh() == (Entity { id: m.next_entity }),
    {
    }

    /// Every mirror is a forest in which nothing is lost, and the entity
    /// that it hands out next is held by no record.
    pub proof fn lemma_forest(&self)
        requires
            self.wf(),
        ensures
            tree_wf(self@),
            entities_below(self@, self.fresh().id),
    {
        lemma_tree_wf(row_of(self.nodes@), self.next_entity);
    }

    /// The empty mirror.
    pub fn new() -> (mirror: Self)
        ensures
            mirror@ == Map::<i64, MirrorNode>::empty(),
            mirror.fresh() == (Entity { id: 0 }),
    {
        let mirror = SceneMirror { nodes: Vec::new(), places: HashMap::new(), next_entity: 0 };
        assert(mirror@ =~= Map::<i64, MirrorNode>::empty());
        mirror
    }

    /// The empty mirror that hands out `first` as its first entity.
    pub fn starting_at(first: Entity) -> (mirror: Self)
        ensures
            mirror@ == Map::<i64, MirrorNode>::empty(),
            mirror.fresh() == first,
    {
        let mirror = SceneMirror {
            nodes: Vec::new(),
            places: HashMap::new(),
            next_entity: first.id,
        };
        assert(mirror@ =~= Map::<i64, MirrorNode>::empty());
        mirror
    }

    /// How many nodes the mirror holds.
    pub fn len(&self) -> (len: usize)
        ensures
            len == self@.len(),
            self@.dom().finite(),
    {
        proof {
            use_type_invariant(self);
            lemma_count(row_of(self.nodes@));
        }
        self.nodes.len()
    }

    /// Whether the mirror holds no node.
    pub fn is_empty(&self) -> (empty: bool)
        ensures
            empty == (self@.len() == 0),
            self@.dom().finite(),
    {
        self.len() == 0
    }

    /// The records of all nodes that the mirror holds: every node once, and
    /// every parent before its children.
    pub fn records(&self) -> (records: &[MirrorEntity])
        ensures
            records@.len() == self@.len(),
            forall|i: int|
                0 <= i < records@.len() ==> self@.contains_key((#[trigger] records@[i])@.object_id)
                    && self@[records@[i]@.object_id] == records@[i]@,
            forall|id: i64| #[trigger]
                self@.contains_key(id) ==> exists|i: int|
                    0 <= i < records@.len() && (#[trigger] records@[i])@.object_id == id,
            forall|i: int|
                0 <= i < records@.len() ==> ((#[trigger] records@[i]).parent matches Some(p)
                    ==> exists|j: int| 0 <= j < i && (#[trigger] records@[j])@.object_id == p),
    {
        proof {
            use_type_invariant(self);
            let row = row_of(self.nodes@);
            lemma_count(row);
            assert forall|i: int| 0 <= i < row.len() implies self@.contains_key(
                (#[trigger] self.nodes@[i])@.object_id,
            ) && self@[self.nodes@[i]@.object_id] == self.nodes@[i]@ by {
                lemma_place(row, i);
            }
            assert forall|id: i64| #[trigger] self@.contains_key(id) implies exists|i: int|
                0 <= i < self.nodes@.len() && (#[trigger] self.nodes@[i])@.object_id == id by {
                lemma_held(row, id);
                assert(self.nodes@[place_of(row, id)]@.object_id == id);
            }
            assert forall|i: int| 0 <= i < self.nodes@.len() implies ((
            #[trigger] self.nodes@[i]).parent matches Some(p) ==> exists|j: int|
                0 <= j < i && (#[trigger] self.nodes@[j])@.object_id == p) by {
                if let Some(p) = self.nodes@[i].parent {
                    assert(row[i].parent == Some(p));
                    let j = choose|j: int|
                        0 <= j < i && j < row.len() && (#[trigger] row[j]).object_id == p;
                    assert(self.nodes@[j]@.object_id == p);
                }
            }
        }
        self.nodes.as_slice()
    }

    /// The children of the node with the given instance id: the nodes that
    /// name it as their parent, each once.
    pub fn children_of(&self, id: i64) -> (children: Vec<i64>)
        ensures
            forall|child: i64|
                children@.contains(child) <==> (self@.contains_key(child) && self@[child].parent
                    == Some(id)),
            children@.no_duplicates(),
    {
        proof {
            use_type_invariant(self);
        }
        let ghost row = row_of(self.nodes@);
        let ghost t = self@;
        let mut children: Vec<i64> = Vec::new();
        let ghost mut places: Seq<int> = Seq::empty();
        let mut i: usize = 0;
        while i < self.nodes.len()
            invariant
                i <= self.nodes.len(),
                row == row_of(self.nodes@),
                ids_distinct(row),
                places.len() == children@.len(),
                forall|a: int|
                    0 <= a < places.len() ==> 0 <= #[trigger] places[a] < i && children@[a]
                        == row[places[a]].object_id && row[places[a]].parent == Some(id),
                forall|a: int, b: int|
                    0 <= a < b < places.len() ==> #[trigger] places[a] < #[trigger] places[b],
                forall|k: int|
                    0 <= k < i && (#[trigger] row[k]).parent == Some(id) ==> exists|a: int|
                        0 <= a < places.len() && #[trigger] places[a] == k,
            decreases self.nodes.len() - i,
        {
            let ghost before = places;
            match self.nodes[i].parent {
                Some(p) => {
                    if p == id {
                        children.push(self.nodes[i].node.instance_id());
                        proof {
                            places = places.push(i as int);
                        }
                    }
                },
                None => {},
            }
            proof {
                assert forall|k: int|
                    0 <= k < i + 1 && (#[trigger] row[k]).parent == Some(id) implies exists|
                    a: int,
                | 0 <= a < places.len() && #[trigger] places[a] == k by {
                    if k < i {
                        let a = choose|a: int| 0 <= a < before.len() && #[trigger] before[a] == k;
                        assert(places[a] == k);
                    } else {
                        assert(places[places.len() - 1] == k);
                    }
                }
            }
            i = i + 1;
        }
        proof {
            assert forall|child: i64|
                children@.contains(child) <==> (t.contains_key(child) && t[child].parent == Some(
                    id,
                )) by {
                if children@.contains(child) {
                    let a = choose|a: int| 0 <= a < children@.len() && children@[a] == child;
                    lemma_place(row, places[a]);
                }
                if t.contains_key(child) && t[child].parent == Some(id) {
                    lemma_held(row, child);
                    let k = place_of(row, child);
                    let a = choose|a: int| 0 <= a < places.len() && #[trigger] places[a] == k;
                    assert(children@[a] == child);
                }
            }
            assert forall|a: int, b: int|
                0 <= a < children@.len() && 0 <= b < children@.len() && a
                    != b implies children@[a] != children@[b] by {
                if a < b {
                    assert(places[a] < places[b]);
                    assert(row[places[a]].object_id != row[places[b]].object_id);
                } else {
                    assert(places[b] < places[a]);
                    assert(row[places[b]].object_id != row[places[a]].object_id);
                }
            }
        }
        children
    }

    /// The record of the node with the given instance id.
    pub fn get(&self, id: i64) -> (record: Option<&MirrorEntity>)
        ensures
            match record {
                Some(r) => self@.contains_key(id) && r@ == self@[id],
                None => !self@.contains_key(id),
            },
    {
        proof {
            use_type_invariant(self);
        }
        match lookup(&self.nodes, &self.places, id) {
            Some(i) => {
                proof {
                    lemma_place(row_of(self.nodes@), i as int);
                }
                Some(&self.nodes[i])
            },
            None => None,
        }
    }

    /// Whether the mirror holds the node with the given instance id.
    pub fn contains(&self, id: i64) -> (held: bool)
        ensures
            held == self@.contains_key(id),
    {
        self.get(id).is_some()
    }

    /// The entity that stands for the node with the given instance id.
    pub fn entity_of(&self, id: i64) -> (entity: Option<Entity>)
        ensures
            entity == (if self@.contains_key(id) {
                Some(self@[id].entity)
            } else {
                None
            }),
    {
        match self.get(id) {
            Some(record) => Some(record.entity),
            None => None,
        }
    }

    /// Takes in a node that the engine added to its scene tree.
    ///
    /// A node that the mirror does not hold gets a new entity. A node that it
    /// holds keeps its entity and has everything else written anew. The node
    /// is left aside when its parent is not in the mirror, when it would hang
    /// below itself, or when no entity is left.
    pub fn node_added(&mut self, node: ErasedGodotRef, live: NodeSnapshot) -> (change:
        MirrorChange)
        ensures
            final(self)@ == tree_added(old(self)@, node@, live@, old(self).fresh()),
            change == add_change(old(self)@, node@, live@, old(self).fresh()),
            final(self).fresh() == fresh_after(change, old(self).fresh()),
    {
        proof {
            use_type_invariant(&*self);
        }
        let ghost row = row_of(self.nodes@);
        let ghost t = self@;
        let id = node.instance_id();
        let len = self.nodes.len();
        let parent_place: Option<usize> = match live.parent {
            None => None,
            Some(p) => match lookup(&self.nodes, &self.places, p) {
                None => {
                    return MirrorChange::Skipped { reason: MirrorError::MissingParent };
                },
                Some(j) => {
                    proof {
                        lemma_place(row, j as int);
                    }
                    Some(j)
                },
            },
        };
        let parent = match parent_place {
            Some(j) => Some(self.nodes[j].entity),
            None => None,
        };
        match lookup(&self.nodes, &self.places, id) {
            None => {
                if self.next_entity == u64::MAX {
                    return MirrorChange::Skipped { reason: MirrorError::Exhausted };
                }
                let entity = Entity { id: self.next_entity };
                let record = new_record(entity, node, live);
                proof {
                    lemma_push_ordered(row, self.next_entity, record@);
                }
                let mut nodes: Vec<MirrorEntity> = Vec::new();
                std::mem::swap(&mut nodes, &mut self.nodes);
                let mut places: HashMap<i64, usize> = HashMap::new();
                std::mem::swap(&mut places, &mut self.places);
                places.insert(id, nodes.len());
                nodes.push(record);
                assert(row_of(nodes@) =~= row.push(record@));
                proof {
                    assert forall|k: int| 0 <= k < row.len() + 1 implies places@.contains_key(
                        (#[trigger] row.push(record@)[k]).object_id,
                    ) && places@[row.push(record@)[k].object_id] == k by {
                        if k < row.len() {
                            assert(row[k].object_id != id);
                        }
                    }
                }
                self.places = places;
                self.next_entity = self.next_entity + 1;
                self.nodes = nodes;
                MirrorChange::Spawned { entity, parent }
            },
            Some(i) => {
                proof {
                    lemma_place(row, i as int);
                    assert(ancestor(t, id, 0) == Some(id));
                }
                let entity = self.nodes[i].entity;
                let behind = match parent_place {
                    Some(j) => j >= i,
                    None => false,
                };
                if !behind {
                    let record = new_record(entity, node, live);
                    proof {
                        if let Some(j) = parent_place {
                            if within(t, row[j as int].object_id, id) {
                                let steps = choose|steps: nat|
                                    ancestor(t, row[j as int].object_id, steps) == Some(id);
                                lemma_below_behind(row, j as int, i as int, steps);
                            }
                        }
                        lemma_update_ordered(row, self.next_entity, i as int, record@);
                    }
                    let mut nodes: Vec<MirrorEntity> = Vec::new();
                    std::mem::swap(&mut nodes, &mut self.nodes);
                    nodes.set(i, record);
                    assert(row_of(nodes@) =~= row.update(i as int, record@));
                    proof {
                        lemma_indexed_same_ids(self.places@, row, row_of(nodes@));
                    }
                    self.nodes = nodes;
                    return MirrorChange::Refreshed { entity, parent };
                }
                let j = parent_place.unwrap();
                let marks = mark_subtree(&self.nodes, id);
                if marks[j] {
                    return MirrorChange::Skipped { reason: MirrorError::CyclicParent };
                }
                let record = new_record(entity, node, live);
                proof {
                    lemma_move(row, self.next_entity, i as int, marks@, record@);
                }
                let mut nodes: Vec<MirrorEntity> = Vec::new();
                std::mem::swap(&mut nodes, &mut self.nodes);
                nodes.set(i, record);
                assert(row_of(nodes@) =~= row.update(i as int, record@));
                let (mut plain, mut marked) = part(nodes, &marks);
                plain.append(&mut marked);
                assert(row_of(plain@) =~= moved(row, i as int, marks@, record@));
                self.places = index_of(&plain);
                self.nodes = plain;
                MirrorChange::Refreshed { entity, parent }
            },
        }
    }

    /// Takes in a node that a walk over the scene tree has met.
    ///
    /// A node that the mirror does not hold is taken in as if it had been
    /// added. A node that it holds keeps what the mirror holds of it; only
    /// its parent is written anew.
    pub fn node_seen(&mut self, node: ErasedGodotRef, live: NodeSnapshot) -> (change:
        MirrorChange)
        ensures
            final(self)@ == tree_seen(old(self)@, node@, live@, old(self).fresh()),
            change == seen_change(old(self)@, node@, live@, old(self).fresh()),
            final(self).fresh() == fresh_after(change, old(self).fresh()),
    {
        proof {
            use_type_invariant(&*self);
        }
        let ghost row = row_of(self.nodes@);
        let ghost t = self@;
        let id = node.instance_id();
        let len = self.nodes.len();
        let i = match lookup(&self.nodes, &self.places, id) {
            Some(i) => i,
            None => {
                return self.node_added(node, live);
            },
        };
        proof {
            lemma_place(row, i as int);
            assert(ancestor(t, id, 0) == Some(id));
        }
        let parent_place: Option<usize> = match live.parent {
            None => None,
            Some(p) => match lookup(&self.nodes, &self.places, p) {
                None => {
                    return MirrorChange::Skipped { reason: MirrorError::MissingParent };
                },
                Some(j) => {
                    proof {
                        lemma_place(row, j as int);
                    }
                    Some(j)
                },
            },
        };
        let parent = match parent_place {
            Some(j) => Some(self.nodes[j].entity),
            None => None,
        };
        let entity = self.nodes[i].entity;
        let ghost record = MirrorNode { parent: live.parent, ..row[i as int] };
        let behind = match parent_place {
            Some(j) => j >= i,
            None => false,
        };
        if !behind {
            proof {
                if let Some(j) = parent_place {
                    if within(t, row[j as int].object_id, id) {
                        let steps = choose|steps: nat|
                            ancestor(t, row[j as int].object_id, steps) == Some(id);
                        lemma_below_behind(row, j as int, i as int, steps);
                    }
                }
                lemma_update_ordered(row, self.next_entity, i as int, record);
            }
            let mut nodes: Vec<MirrorEntity> = Vec::new();
            std::mem::swap(&mut nodes, &mut self.nodes);
            nodes[i].parent = live.parent;
            assert(row_of(nodes@) =~= row.update(i as int, record));
            proof {
                lemma_indexed_same_ids(self.places@, row, row_of(nodes@));
            }
            self.nodes = nodes;
            return MirrorChange::Kept { entity, parent };
        }
        let j = parent_place.unwrap();
        let marks = mark_subtree(&self.nodes, id);
        if marks[j] {
            return MirrorChange::Skipped { reason: MirrorError::CyclicParent };
        }
        proof {
            lemma_move(row, self.next_entity, i as int, marks@, record);
        }
        let mut nodes: Vec<MirrorEntity> = Vec::new();
        std::mem::swap(&mut nodes, &mut self.nodes);
        nodes[i].parent = live.parent;
        assert(row_of(nodes@) =~= row.update(i as int, record));
        let (mut plain, mut marked) = part(nodes, &marks);
        plain.append(&mut marked);
        assert(row_of(plain@) =~= moved(row, i as int, marks@, record));
        self.places = index_of(&plain);
        self.nodes = plain;
        MirrorChange::Kept { entity, parent }
    }

    /// Lets go of a node that the engine removed from its scene tree, with
    /// everything below it, and names the entities that went.
    pub fn node_removed(&mut self, id: i64) -> (answer: Applied)
        ensures
            final(self)@ == tree_removed(old(self)@, id),
            answer.change == remove_change(old(self)@, id),
            forall|entity: Entity|
                answer.despawned@.contains(entity) <==> let_go(old(self)@, final(self)@, entity),
            answer.despawned@.no_duplicates(),
            final(self).fresh() == old(self).fresh(),
    {
        proof {
            use_type_invariant(&*self);
        }
        let ghost row = row_of(self.nodes@);
        let ghost t = self@;
        match lookup(&self.nodes, &self.places, id) {
            None => {
                proof {
                    assert forall|x: i64| !subtree(t, id).contains(x) by {
                        if within(t, x, id) {
                            lemma_within_present(t, x, id);
                        }
                    }
                    assert(tree_removed(t, id) =~= t);
                }
                Applied {
                    change: MirrorChange::Skipped { reason: MirrorError::UnknownNode },
                    despawned: Vec::new(),
                }
            },
            Some(i) => {
                proof {
                    lemma_place(row, i as int);
                }
                let entity = self.nodes[i].entity;
                let marks = mark_subtree(&self.nodes, id);
                proof {
                    lemma_remove(row, self.next_entity, id, marks@);
                    lemma_gone(row, self.next_entity, subtree(t, id), marks@);
                }
                let mut nodes: Vec<MirrorEntity> = Vec::new();
                std::mem::swap(&mut nodes, &mut self.nodes);
                let (plain, despawned) = drop_marked(nodes, &marks);
                self.places = index_of(&plain);
                self.nodes = plain;
                Applied { change: MirrorChange::Despawned { entity }, despawned }
            },
        }
    }

    /// Writes the new name of a node that the engine renamed.
    pub fn node_renamed(&mut self, id: i64, name: String) -> (change: MirrorChange)
        ensures
            final(self)@ == tree_renamed(old(self)@, id, name@),
            change == rename_change(old(self)@, id),
            final(self).fresh() == old(self).fresh(),
    {
        proof {
            use_type_invariant(&*self);
        }
        let ghost row = row_of(self.nodes@);
        match lookup(&self.nodes, &self.places, id) {
            None => MirrorChange::Skipped { reason: MirrorError::UnknownNode },
            Some(i) => {
                proof {
                    lemma_place(row, i as int);
                }
                let entity = self.nodes[i].entity;
                let ghost record = MirrorNode { name: name@, ..row[i as int] };
                proof {
                    lemma_update_ordered(row, self.next_entity, i as int, record);
                }
                let mut nodes: Vec<MirrorEntity> = Vec::new();
                std::mem::swap(&mut nodes, &mut self.nodes);
                nodes[i].name = name;
                assert(row_of(nodes@) =~= row.update(i as int, record));
                proof {
                    lemma_indexed_same_ids(self.places@, row, row_of(nodes@));
                }
                self.nodes = nodes;
                MirrorChange::Renamed { entity }
            },
        }
    }

    /// The mirror with the entity that it hands out next.
    pub open spec fn state(&self) -> MirrorState {
        MirrorState { tree: self@, fresh: self.fresh() }
    }

    /// Takes up one notice of the scene tree, and names the entities of the
    /// nodes that went with it.
    pub fn apply(&mut self, observed: ObservedEvent) -> (answer: Applied)
        ensures
            final(self).state() == old(self).state().after(observed@),
            answer.change == change_applied(old(self)@, observed@, old(self).fresh()),
            forall|entity: Entity|
                answer.despawned@.contains(entity) <==> let_go(old(self)@, final(self)@, entity),
            answer.despawned@.no_duplicates(),
            tree_wf(final(self)@),
    {
        let ObservedEvent { event, live } = observed;
        let answer = match event.event_type {
            SceneTreeEventType::NodeAdded => {
                let change = match live {
                    Some(snapshot) => self.node_added(event.node, snapshot),
                    None => MirrorChange::Skipped { reason: MirrorError::Dangling },
                };
                Applied { change, despawned: Vec::new() }
            },
            SceneTreeEventType::NodeRemoved => self.node_removed(event.node.instance_id()),
            SceneTreeEventType::NodeRenamed => {
                let change = match live {
                    Some(snapshot) => self.node_renamed(event.node.instance_id(), snapshot.name),
                    None => MirrorChange::Skipped { reason: MirrorError::Dangling },
                };
                Applied { change, despawned: Vec::new() }
            },
        };
        proof {
            use_type_invariant(&*self);
            self.lemma_forest();
            if event.event_type != SceneTreeEventType::NodeRemoved {
                assert forall|entity: Entity| !let_go(old(self)@, self@, entity) by {
                    if let_go(old(self)@, self@, entity) {
                        let id = choose|id: i64|
                            #![trigger old(self)@[id]]
                            old(self)@.contains_key(id) && !self@.contains_key(id) && old(
                                self,
                            )@[id].entity == entity;
                    }
                }
            }
        }
        answer
    }

    /// Takes up the notices of a frame, in their order, and answers each.
    pub fn read_scene_tree_events(&mut self, events: Vec<ObservedEvent>) -> (changes: Vec<
        MirrorChange,
    >)
        ensures
            final(self).state() == old(self).state().after_all(events_view(events@)),
            changes@ == old(self).state().changes(events_view(events@)),
            tree_wf(final(self)@),
    {
        let ghost start = self.state();
        let ghost all = events_view(events@);
        let mut changes: Vec<MirrorChange> = Vec::new();
        for observed in it: events
            invariant
                all == events_view(it.seq()),
                self.state() == start.after_all(all.take(it.index())),
                changes@ == start.changes(all.take(it.index())),
        {
            let ghost i = it.index();
            proof {
                assert(all.take(i + 1).drop_last() == all.take(i));
                assert(all.take(i + 1).last() == observed@);
            }
            let answer = self.apply(observed);
            changes.push(answer.change);
            proof {
                let now = all.take(i + 1);
                assert forall|k: int| 0 <= k < now.len() implies changes@[k] == start.changes(
                    now,
                )[k] by {
                    assert(now.take(k) == all.take(k));
                    if k < i {
                        assert(all.take(i).take(k) == all.take(k));
                        assert(changes@[k] == start.changes(all.take(i))[k]);
                    }
                }
                assert(changes@ =~= start.changes(now));
            }
        }
        proof {
            assert(all.take(all.len() as int) == all);
            use_type_invariant(&*self);
            self.lemma_forest();
        }
        changes
    }
}

} // verus!
