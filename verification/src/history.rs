//! What holds of the mirror over a whole row of notices: the mirror stays a
//! forest, a node that is added twice is held once, and the mirror follows
//! the scene tree of the engine as long as the engine announces every node
//! after its parent.
use vstd::prelude::*;
use crate::entity::Entity;
use crate::godot_ref::GodotRefView;
use crate::mirror::{
    MirrorChange, MirrorError, MirrorState, ObservedEventView, SceneMirror, add_change,
    change_applied, entity_at, fresh_after, row_of,
};
use crate::order::{
    lemma_held, lemma_move, lemma_push_ordered, lemma_remove, lemma_tree_wf,
    lemma_update_ordered, moved, ordered, pick, place_of, tree_of,
};
use crate::scene_tree::{NodeSnapshotView, SceneTreeEventType, SceneTreeEventView};
use crate::tree::{
    MirrorNode, MirrorTree, ParentMap, add_accepted, engine_reachable,
    engine_subtree, engine_within, entities_below, lemma_all_reachable, lemma_same_sets,
    ancestor, lemma_within_present, parent_below, parent_missing, parents, reachable, record_of,
    subtree, tree_added, tree_removed, tree_wf, within,
};

verus! {

impl MirrorState {
    /// Whether this is the state of a mirror: its records can stand in a row
    /// in which no instance id and no entity occurs twice, every parent
    /// stands before its children, and every entity is older than the next
    /// one to be handed out.
    pub closed spec fn valid(self) -> bool {
        exists|s: Seq<MirrorNode>| #[trigger] ordered(s, self.fresh.id) && tree_of(s) == self.tree
    }

    /// The empty mirror is a mirror, whatever entity it hands out first.
    pub proof fn lemma_empty_valid(fresh: Entity)
        ensures
            (MirrorState { tree: Map::<i64, MirrorNode>::empty(), fresh }).valid(),
    {
        let st = MirrorState { tree: Map::<i64, MirrorNode>::empty(), fresh };
        let s = Seq::<MirrorNode>::empty();
        assert(tree_of(s) =~= st.tree);
        assert(ordered(s, st.fresh.id) && tree_of(s) == st.tree);
    }

    /// The state of a mirror is a forest in which nothing is lost, and the
    /// entity that is handed out next is held by no record.
    pub proof fn lemma_valid_forest(self)
        requires
            self.valid(),
        ensures
            tree_wf(self.tree),
            entities_below(self.tree, self.fresh.id),
    {
        let s = choose|s: Seq<MirrorNode>|
            #[trigger] ordered(s, self.fresh.id) && tree_of(s) == self.tree;
        lemma_tree_wf(s, self.fresh.id);
    }

    /// Whatever notice is taken up, the state stays that of a mirror.
    pub proof fn lemma_valid_after(self, observed: ObservedEventView)
        requires
            self.valid(),
        ensures
            self.after(observed).valid(),
    {
        let bound = self.fresh.id;
        let t = self.tree;
        let s = choose|s: Seq<MirrorNode>| #[trigger] ordered(s, bound) && tree_of(s) == t;
        let id = observed.event.node.object_id;
        let next = self.after(observed);
        let marks = Seq::new(s.len(), |k: int| within(t, s[k].object_id, id));
        match observed.event.event_type {
            SceneTreeEventType::NodeAdded => {
                if let Some(snapshot) = observed.live {
                    if add_accepted(t, id, snapshot, self.fresh) {
                        if t.contains_key(id) {
                            lemma_held(s, id);
                            let i = place_of(s, id);
                            let n = record_of(observed.event.node, snapshot, s[i].entity);
                            if let Some(p) = snapshot.parent {
                                lemma_held(s, p);
                                assert(!marks[place_of(s, p)]);
                            }
                            lemma_move(s, bound, i, marks, n);
                            assert(ordered(moved(s, i, marks, n), next.fresh.id));
                        } else {
                            let n = record_of(observed.event.node, snapshot, self.fresh);
                            lemma_push_ordered(s, bound, n);
                            assert(ordered(s.push(n), next.fresh.id));
                        }
                    } else {
                        assert(ordered(s, next.fresh.id));
                    }
                } else {
                    assert(ordered(s, next.fresh.id));
                }
            },
            SceneTreeEventType::NodeRemoved => {
                lemma_remove(s, bound, id, marks);
                assert(ordered(pick(s, marks, false), next.fresh.id));
            },
            SceneTreeEventType::NodeRenamed => {
                if observed.live is Some && t.contains_key(id) {
                    lemma_held(s, id);
                    let i = place_of(s, id);
                    let n = MirrorNode { name: observed.live->Some_0.name, ..s[i] };
                    lemma_update_ordered(s, bound, i, n);
                    assert(ordered(s.update(i, n), next.fresh.id));
                } else {
                    assert(ordered(s, next.fresh.id));
                }
            },
        }
    }

    /// Whatever node a walk meets, the state stays that of a mirror.
    pub proof fn lemma_valid_seen(self, met: (GodotRefView, NodeSnapshotView))
        requires
            self.valid(),
        ensures
            self.seen(met).valid(),
    {
        let bound = self.fresh.id;
        let t = self.tree;
        let id = met.0.object_id;
        let next = self.seen(met);
        if t.contains_key(id) {
            let s = choose|s: Seq<MirrorNode>| #[trigger] ordered(s, bound) && tree_of(s) == t;
            if parent_missing(t, met.1) || parent_below(t, id, met.1) {
                assert(ordered(s, next.fresh.id));
            } else {
                let marks = Seq::new(s.len(), |k: int| within(t, s[k].object_id, id));
                lemma_held(s, id);
                let i = place_of(s, id);
                let n = MirrorNode { parent: met.1.parent, ..s[i] };
                if let Some(p) = met.1.parent {
                    lemma_held(s, p);
                    assert(!marks[place_of(s, p)]);
                }
                lemma_move(s, bound, i, marks, n);
                assert(ordered(moved(s, i, marks, n), next.fresh.id));
            }
        } else {
            let observed = ObservedEventView {
                event: SceneTreeEventView {
                    node: met.0,
                    event_type: SceneTreeEventType::NodeAdded,
                },
                live: Some(met.1),
            };
            self.lemma_valid_after(observed);
            assert(self.after(observed) == next);
        }
    }

    /// Whatever notices are taken up, the state stays that of a mirror: a
    /// forest in which every node hangs below a root.
    pub proof fn lemma_valid_after_all(self, events: Seq<ObservedEventView>)
        requires
            self.valid(),
        ensures
            self.after_all(events).valid(),
            tree_wf(self.after_all(events).tree),
            reachable(self.after_all(events).tree) == self.after_all(events).tree.dom(),
        decreases events.len(),
    {
        if events.len() > 0 {
            self.lemma_valid_after_all(events.drop_last());
            self.after_all(events.drop_last()).lemma_valid_after(events.last());
        }
        self.after_all(events).lemma_valid_forest();
        lemma_all_reachable(self.after_all(events).tree);
    }
}

impl SceneMirror {
    /// The state of every mirror is valid.
    pub proof fn lemma_state_valid(&self)
        requires
            self.wf(),
        ensures
            self.state().valid(),
    {
        SceneMirror::lemma_open();
        assert(ordered(row_of(self.nodes@), self.state().fresh.id));
    }
}

/// A node that is added twice is held once.
///
/// Let the mirror take up two notices that add one node, with no removal of
/// that node between them, and let it accept the second. Then it holds
/// the node once, under the entity that it had before or, where it had
/// none, under the one entity that was handed out; its record is the one
/// of the second notice; and every other node is held as before.
pub proof fn lemma_duplicate_add(
    t: MirrorTree,
    first: GodotRefView,
    first_live: NodeSnapshotView,
    second: GodotRefView,
    second_live: NodeSnapshotView,
    fresh: Entity,
)
    requires
        first.object_id == second.object_id,
        add_accepted(
            tree_added(t, first, first_live, fresh),
            second.object_id,
            second_live,
            fresh_after(add_change(t, first, first_live, fresh), fresh),
        ),
    ensures
        ({
            let id = first.object_id;
            let once = tree_added(t, first, first_live, fresh);
            let next = fresh_after(add_change(t, first, first_live, fresh), fresh);
            let twice = tree_added(once, second, second_live, next);
            let answer = add_change(once, second, second_live, next);
            let entity = if t.contains_key(id) {
                t[id].entity
            } else {
                fresh
            };
            &&& twice.dom() == t.dom().insert(id)
            &&& twice[id] == record_of(second, second_live, entity)
            &&& forall|other: i64|
                other != id && t.contains_key(other) ==> #[trigger] twice[other] == t[other]
            &&& once.contains_key(id) ==> once[id].entity == entity && answer
                == MirrorChange::Refreshed { entity, parent: entity_at(once, second_live.parent) }
            &&& fresh_after(answer, next) == (if t.contains_key(id) {
                fresh
            } else {
                Entity { id: (fresh.id + 1) as u64 }
            })
        }),
{
    let id = first.object_id;
    let once = tree_added(t, first, first_live, fresh);
    let next = fresh_after(add_change(t, first, first_live, fresh), fresh);
    let twice = tree_added(once, second, second_live, next);
    assert(twice.dom() =~= t.dom().insert(id));
}

/// A node that moved is held once, below its new parent.
///
/// Let the mirror hold a node, and let the engine move it below a parent
/// that the mirror holds and that does not lie below the node. When the
/// mirror takes up the removal and then the adding of the node, it holds
/// the node once, below the new parent, under a new entity, and what lay
/// below the node has gone with the removal.
pub proof fn lemma_moved_node(
    t: MirrorTree,
    node: GodotRefView,
    live: NodeSnapshotView,
    fresh: Entity,
)
    requires
        live.parent matches Some(p) && t.contains_key(p) && !within(t, p, node.object_id),
        fresh.id < u64::MAX,
    ensures
        ({
            let id = node.object_id;
            let removed = tree_removed(t, id);
            let after = tree_added(removed, node, live, fresh);
            &&& !removed.contains_key(id)
            &&& after.dom() == removed.dom().insert(id)
            &&& after[id] == record_of(node, live, fresh)
            &&& after[id].parent == live.parent
            &&& add_change(removed, node, live, fresh) == MirrorChange::Spawned {
                entity: fresh,
                parent: entity_at(t, live.parent),
            }
            &&& forall|other: i64|
                other != id && removed.contains_key(other) ==> #[trigger] after[other] == t[other]
        }),
{
    let id = node.object_id;
    let removed = tree_removed(t, id);
    let after = tree_added(removed, node, live, fresh);
    if t.contains_key(id) {
        assert(ancestor(t, id, 0) == Some(id));
        assert(within(t, id, id));
    }
    if removed.contains_key(id) {
        lemma_within_present(removed, id, id);
    }
    assert(!parent_below(removed, id, live));
    assert(after.dom() =~= removed.dom().insert(id));
}

/// The scene tree of the engine after the engine did what a notice tells:
/// an added node hangs below the parent that the bridge reads from it, a
/// removed node is gone with everything below it, a renamed node is where
/// it was.
pub open spec fn engine_after(e: ParentMap, observed: ObservedEventView) -> ParentMap {
    let id = observed.event.node.object_id;
    match observed.event.event_type {
        SceneTreeEventType::NodeAdded => match observed.live {
            Some(snapshot) => e.insert(id, snapshot.parent),
            None => e,
        },
        SceneTreeEventType::NodeRemoved => e.remove_keys(engine_subtree(e, id)),
        SceneTreeEventType::NodeRenamed => e,
    }
}

/// The scene tree of the engine after a row of notices.
pub open spec fn engine_after_all(e: ParentMap, events: Seq<ObservedEventView>) -> ParentMap
    decreases events.len(),
{
    if events.len() == 0 {
        e
    } else {
        engine_after(engine_after_all(e, events.drop_last()), events.last())
    }
}

/// Whether a notice comes in order: a node is added while it is alive, after
/// its parent, and not below itself.
pub open spec fn announced_in_order(e: ParentMap, observed: ObservedEventView) -> bool {
    let id = observed.event.node.object_id;
    observed.event.event_type == SceneTreeEventType::NodeAdded ==> {
        &&& observed.live matches Some(snapshot)
        &&& snapshot.parent matches Some(p) ==> e.contains_key(p) && !engine_within(e, p, id)
    }
}

/// Whether every notice of a row comes in order, each seen against the scene
/// tree that the notices before it leave.
pub open spec fn all_in_order(e: ParentMap, events: Seq<ObservedEventView>) -> bool {
    forall|i: int|
        0 <= i < events.len() ==> announced_in_order(
            engine_after_all(e, events.take(i)),
            #[trigger] events[i],
        )
}

/// Whether the mirror had an entity left for every node that a row of
/// notices made it take in: it answered none of them that no entity is
/// left.
pub open spec fn never_exhausted(st: MirrorState, events: Seq<ObservedEventView>) -> bool {
    forall|i: int|
        0 <= i < events.len() ==> #[trigger] st.changes(events)[i] != (MirrorChange::Skipped {
            reason: MirrorError::Exhausted,
        })
}

/// One notice that comes in order changes the shape of the mirror as it
/// changed the scene tree of the engine, unless the mirror answers that no
/// entity is left.
pub proof fn lemma_follows(st: MirrorState, observed: ObservedEventView)
    requires
        st.valid(),
        announced_in_order(parents(st.tree), observed),
        change_applied(st.tree, observed, st.fresh) != (MirrorChange::Skipped {
            reason: MirrorError::Exhausted,
        }),
    ensures
        parents(st.after(observed).tree) == engine_after(parents(st.tree), observed),
{
    let t = st.tree;
    let e = parents(t);
    let id = observed.event.node.object_id;
    lemma_same_sets(t);
    match observed.event.event_type {
        SceneTreeEventType::NodeAdded => {
            let snapshot = observed.live->Some_0;
            if let Some(p) = snapshot.parent {
                assert(engine_subtree(e, id).contains(p) == engine_within(e, p, id));
                assert(subtree(t, id).contains(p) == within(t, p, id));
            }
            assert(add_accepted(t, id, snapshot, st.fresh));
            assert(parents(st.after(observed).tree) =~= engine_after(e, observed));
        },
        SceneTreeEventType::NodeRemoved => {
            assert(parents(st.after(observed).tree) =~= engine_after(e, observed));
        },
        SceneTreeEventType::NodeRenamed => {
            assert(parents(st.after(observed).tree) =~= engine_after(e, observed));
        },
    }
}

/// The mirror is complete.
///
/// Let the mirror show the scene tree of the engine, and let the engine
/// announce what it does to the tree, every added node after its parent.
/// Then, after the notices are taken up, the mirror shows the scene tree
/// again: the nodes of the mirror that hang below a root are exactly the
/// nodes of the engine's tree, each below the same parent. This holds for
/// every row of notices but those for which the mirror runs out of
/// entities, which it says in its answer.
pub proof fn lemma_mirror_complete(st: MirrorState, e: ParentMap, events: Seq<ObservedEventView>)
    requires
        st.valid(),
        parents(st.tree) == e,
        all_in_order(e, events),
        never_exhausted(st, events),
    ensures
        parents(st.after_all(events).tree) == engine_after_all(e, events),
        reachable(st.after_all(events).tree) == engine_after_all(e, events).dom(),
        engine_reachable(engine_after_all(e, events)) == engine_after_all(e, events).dom(),
    decreases events.len(),
{
    if events.len() > 0 {
        let front = events.drop_last();
        assert forall|i: int| 0 <= i < front.len() implies announced_in_order(
            engine_after_all(e, front.take(i)),
            #[trigger] front[i],
        ) by {
            assert(front.take(i) == events.take(i));
            assert(front[i] == events[i]);
        }
        assert forall|i: int| 0 <= i < front.len() implies #[trigger] st.changes(front)[i] != (
        MirrorChange::Skipped { reason: MirrorError::Exhausted }) by {
            assert(front.take(i) == events.take(i));
            assert(front[i] == events[i]);
            assert(st.changes(events)[i] != (MirrorChange::Skipped {
                reason: MirrorError::Exhausted,
            }));
        }
        lemma_mirror_complete(st, e, front);
        st.lemma_valid_after_all(front);
        assert(events.take(events.len() - 1) == front);
        assert(announced_in_order(engine_after_all(e, front), events[events.len() - 1]));
        assert(st.changes(events)[events.len() - 1] != (MirrorChange::Skipped {
            reason: MirrorError::Exhausted,
        }));
        lemma_follows(st.after_all(front), events.last());
    }
    st.lemma_valid_after_all(events);
    lemma_same_sets(st.after_all(events).tree);
}

/// A mirror that has entities left for a whole row of notices answers none
/// of them that no entity is left.
pub proof fn lemma_entities_suffice(st: MirrorState, events: Seq<ObservedEventView>)
    requires
        st.fresh.id + events.len() < u64::MAX,
    ensures
        never_exhausted(st, events),
        st.after_all(events).fresh.id <= st.fresh.id + events.len(),
    decreases events.len(),
{
    if events.len() > 0 {
        let front = events.drop_last();
        lemma_entities_suffice(st, front);
        assert(events.take(events.len() - 1) == front);
        assert forall|i: int| 0 <= i < events.len() implies #[trigger] st.changes(events)[i] != (
        MirrorChange::Skipped { reason: MirrorError::Exhausted }) by {
            if i < events.len() - 1 {
                assert(front.take(i) == events.take(i));
                assert(front[i] == events[i]);
                assert(st.changes(front)[i] != (MirrorChange::Skipped {
                    reason: MirrorError::Exhausted,
                }));
            } else {
                lemma_entities_suffice(st, events.take(i));
            }
        }
    }
}

} // verus!
