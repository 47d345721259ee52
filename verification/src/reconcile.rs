//! Setting the mirror right against the whole scene tree.
//!
//! Instead of hearing of every node as it comes and goes, the bridge can
//! walk the tree of the engine whenever the tree has changed and hand the
//! walk to the mirror. The mirror then takes in every node of the walk, new
//! ones as well as those that have moved, and lets go of every node that the
//! walk did not meet.
use vstd::prelude::*;
use std::collections::HashMap;
use crate::entity::Entity;
use crate::godot_ref::{ErasedGodotRef, GodotRefView};
use crate::mirror::{
    MirrorChange, MirrorEntity, MirrorState, SceneMirror, drop_marked, index_of, row_of,
};
use crate::order::{
    found_before, ids_distinct, lemma_gone, lemma_keep, lemma_place, parents_first, tree_of,
};
use crate::scene_tree::{NodeSnapshot, NodeSnapshotView};
use crate::tree::{
    MirrorNode, MirrorTree, add_accepted, ancestor, below_lost, lemma_below_lost_unfold, let_go,
    lost, parent_below, parent_missing, tree_kept, tree_seen, tree_wf, within,
};

verus! {

/// Whether `id` is among the given ids.
fn holds(ids: &Vec<i64>, id: i64) -> (held: bool)
    ensures
        held == ids@.contains(id),
{
    let mut i: usize = 0;
    while i < ids.len()
        invariant
            i <= ids.len(),
            forall|j: int| 0 <= j < i ==> ids@[j] != id,
        decreases ids.len() - i,
    {
        if ids[i] == id {
            return true;
        }
        i = i + 1;
    }
    false
}

/// For every record, whether its node is not to be kept or lies below such
/// a node.
fn mark_lost(nodes: &Vec<MirrorEntity>, keep: &Vec<i64>) -> (marks: Vec<bool>)
    requires
        ids_distinct(row_of(nodes@)),
        parents_first(row_of(nodes@)),
    ensures
        marks@.len() == nodes@.len(),
        forall|i: int|
            0 <= i < nodes@.len() ==> #[trigger] marks@[i] == below_lost(
                tree_of(row_of(nodes@)),
                row_of(nodes@)[i].object_id,
                keep@.to_set(),
            ),
{
    broadcast use vstd::std_specs::hash::group_hash_axioms;

    let ghost row = row_of(nodes@);
    let ghost t = tree_of(row);
    let ghost kept = keep@.to_set();
    let mut places: HashMap<i64, usize> = HashMap::new();
    let mut marks: Vec<bool> = Vec::new();
    let mut i: usize = 0;
    while i < nodes.len()
        invariant
            i <= nodes.len(),
            row == row_of(nodes@),
            t == tree_of(row),
            kept == keep@.to_set(),
            forall|k: int|
                0 <= k < i ==> places@.contains_key((#[trigger] row[k]).object_id)
                    && places@[row[k].object_id] == k,
            ids_distinct(row),
            parents_first(row),
            marks@.len() == i,
            forall|k: int| 0 <= k < i ==> #[trigger] marks@[k] == below_lost(
                t,
                row[k].object_id,
                kept,
            ),
        decreases nodes.len() - i,
    {
        let id = nodes[i].node.instance_id();
        proof {
            lemma_place(row, i as int);
            lemma_below_lost_unfold(t, id, kept);
        }
        let mark = if !holds(keep, id) {
            true
        } else {
            match nodes[i].parent {
                None => false,
                Some(p) => {
                    assert(found_before(row, p, i as int));
                    match places.get(&p) {
                        Some(j) => marks[*j],
                        None => false,
                    }
                },
            }
        };
        marks.push(mark);
        places.insert(id, i);
        proof {
            assert forall|k: int| 0 <= k < i + 1 implies places@.contains_key(
                (#[trigger] row[k]).object_id,
            ) && places@[row[k].object_id] == k by {
                if k < i {
                    assert(row[k].object_id != row[i as int].object_id);
                }
            }
        }
        i = i + 1;
    }
    marks
}

/// What setting the mirror right did to it.
#[derive(Debug)]
pub struct SceneTreeDiff {
    /// What the mirror answers to each node of the walk, in the order of the
    /// walk.
    pub changes: Vec<MirrorChange>,
    /// The entities of the nodes that the walk did not meet.
    pub despawned: Vec<Entity>,
}

/// The nodes of a walk as mathematical values.
pub open spec fn walk_view(walk: Seq<(ErasedGodotRef, NodeSnapshot)>) -> Seq<
    (GodotRefView, NodeSnapshotView),
> {
    Seq::new(walk.len(), |i: int| (walk[i].0@, walk[i].1@))
}

/// The instance ids of the nodes of a walk.
pub open spec fn walk_ids(walk: Seq<(ErasedGodotRef, NodeSnapshot)>) -> Seq<i64> {
    Seq::new(walk.len(), |i: int| walk[i].0@.object_id)
}

impl SceneMirror {
    /// Lets go of every node that is not among `keep`, with everything below
    /// it, and names the entities that went.
    pub fn keep_only(&mut self, keep: &Vec<i64>) -> (despawned: Vec<Entity>)
        ensures
            final(self)@ == tree_kept(old(self)@, keep@.to_set()),
            final(self).fresh() == old(self).fresh(),
            forall|entity: Entity|
                despawned@.contains(entity) <==> let_go(old(self)@, final(self)@, entity),
            despawned@.no_duplicates(),
    {
        proof {
            use_type_invariant(&*self);
            SceneMirror::lemma_open();
        }
        let ghost row = row_of(self.nodes@);
        let marks = mark_lost(&self.nodes, keep);
        proof {
            lemma_keep(row, self.next_entity, keep@.to_set(), marks@);
            lemma_gone(row, self.next_entity, lost(tree_of(row), keep@.to_set()), marks@);
        }
        let mut nodes: Vec<MirrorEntity> = Vec::new();
        std::mem::swap(&mut nodes, &mut self.nodes);
        let (plain, despawned) = drop_marked(nodes, &marks);
        self.places = index_of(&plain);
        self.nodes = plain;
        despawned
    }

    /// Sets the mirror right against a walk over the whole scene tree.
    ///
    /// Every node of the walk is met in the order of the walk: a node that
    /// the mirror does not hold is taken in, a node that it holds keeps its
    /// record and hangs below the parent that the walk shows. Then every
    /// node that the walk did not meet goes, with everything below it.
    pub fn on_scene_tree_change(&mut self, walk: Vec<(ErasedGodotRef, NodeSnapshot)>) -> (diff:
        SceneTreeDiff)
        ensures
            diff.changes@ == old(self).state().seen_changes(walk_view(walk@)),
            final(self)@ == tree_kept(
                old(self).state().seen_all(walk_view(walk@)).tree,
                walk_ids(walk@).to_set(),
            ),
            final(self).fresh() == old(self).state().seen_all(walk_view(walk@)).fresh,
            forall|entity: Entity|
                diff.despawned@.contains(entity) <==> let_go(
                    old(self).state().seen_all(walk_view(walk@)).tree,
                    final(self)@,
                    entity,
                ),
            diff.despawned@.no_duplicates(),
            tree_wf(final(self)@),
    {
        let ghost start = self.state();
        let ghost all = walk@;
        let ghost met = walk_view(walk@);
        let mut changes: Vec<MirrorChange> = Vec::new();
        let mut ids: Vec<i64> = Vec::new();
        for entry in it: walk
            invariant
                all == it.seq(),
                met == walk_view(all),
                self.state() == start.seen_all(met.take(it.index())),
                changes@ == start.seen_changes(met.take(it.index())),
                ids@ == walk_ids(all.take(it.index())),
        {
            let ghost i = it.index();
            let (node, live) = entry;
            proof {
                assert(met.take(i + 1).drop_last() == met.take(i));
                assert(met.take(i + 1).last() == (node@, live@));
            }
            ids.push(node.instance_id());
            let change = self.node_seen(node, live);
            changes.push(change);
            proof {
                let now = met.take(i + 1);
                assert forall|k: int| 0 <= k < now.len() implies changes@[k]
                    == start.seen_changes(now)[k] by {
                    assert(now.take(k) == met.take(k));
                    if k < i {
                        assert(met.take(i).take(k) == met.take(k));
                        assert(changes@[k] == start.seen_changes(met.take(i))[k]);
                    }
                }
                assert(changes@ =~= start.seen_changes(now));
                assert(ids@ =~= walk_ids(all.take(i + 1)));
            }
        }
        proof {
            assert(met.take(met.len() as int) == met);
            assert(all.take(all.len() as int) == all);
        }
        let despawned = self.keep_only(&ids);
        proof {
            use_type_invariant(&*self);
            self.lemma_forest();
        }
        SceneTreeDiff { changes, despawned }
    }
}

/// The instance id of the node at place `i` of a walk.
pub open spec fn walk_id(walk: Seq<(GodotRefView, NodeSnapshotView)>, i: int) -> i64 {
    walk[i].0.object_id
}

/// The parent that the walk shows for the node at place `i`.
pub open spec fn walk_parent(walk: Seq<(GodotRefView, NodeSnapshotView)>, i: int) -> Option<i64> {
    walk[i].1.parent
}

/// Whether `id` is among the first `n` nodes of a walk.
pub open spec fn in_walk(walk: Seq<(GodotRefView, NodeSnapshotView)>, n: int, id: i64) -> bool {
    exists|i: int| 0 <= i < n && i < walk.len() && #[trigger] walk_id(walk, i) == id
}

/// The nodes of a walk.
pub open spec fn walk_nodes(walk: Seq<(GodotRefView, NodeSnapshotView)>) -> Set<i64> {
    Set::new(|id: i64| in_walk(walk, walk.len() as int, id))
}

/// Whether a row of nodes is a walk over a tree: no node comes twice, and
/// every node comes behind its parent.
pub open spec fn is_walk(walk: Seq<(GodotRefView, NodeSnapshotView)>) -> bool {
    &&& forall|i: int, j: int|
        0 <= i < j < walk.len() ==> #[trigger] walk_id(walk, i) != #[trigger] walk_id(walk, j)
    &&& forall|i: int|
        0 <= i < walk.len() ==> (#[trigger] walk_parent(walk, i) matches Some(p) ==> in_walk(
            walk,
            i,
            p,
        ))
}

/// Whether the mirror holds the first `n` nodes of a walk, each below the
/// parent that the walk shows.
pub open spec fn taken(t: MirrorTree, walk: Seq<(GodotRefView, NodeSnapshotView)>, n: int)
    -> bool {
    forall|i: int|
        0 <= i < n ==> t.contains_key(#[trigger] walk_id(walk, i)) && t[walk_id(walk, i)].parent
            == walk_parent(walk, i)
}

/// Going up from a node of the walk, in a mirror that has taken the walk so
/// far, one meets nodes of the walk only.
proof fn lemma_chain_stays(
    t: MirrorTree,
    walk: Seq<(GodotRefView, NodeSnapshotView)>,
    n: int,
    i: int,
    steps: nat,
)
    requires
        is_walk(walk),
        0 <= i < n <= walk.len(),
        taken(t, walk, n),
    ensures
        ancestor(t, walk_id(walk, i), steps) matches Some(a) ==> in_walk(walk, n, a),
    decreases steps,
{
    if steps > 0 {
        if let Some(p) = walk_parent(walk, i) {
            assert(in_walk(walk, i, p));
            let j = choose|j: int| 0 <= j < i && j < walk.len() && #[trigger] walk_id(walk, j) == p;
            lemma_chain_stays(t, walk, n, j, (steps - 1) as nat);
        }
    }
}

/// A mirror that meets a walk holds, after the first `n` nodes, those nodes,
/// each below the parent that the walk shows.
proof fn lemma_walk_taken(st: MirrorState, walk: Seq<(GodotRefView, NodeSnapshotView)>, n: int)
    requires
        st.valid(),
        is_walk(walk),
        0 <= n <= walk.len(),
        st.fresh.id + walk.len() < u64::MAX,
    ensures
        st.seen_all(walk.take(n)).valid(),
        st.seen_all(walk.take(n)).fresh.id <= st.fresh.id + n,
        taken(st.seen_all(walk.take(n)).tree, walk, n),
    decreases n,
{
    if n > 0 {
        let front = walk.take(n - 1);
        let before = st.seen_all(front);
        lemma_walk_taken(st, walk, n - 1);
        assert(walk.take(n).drop_last() == front);
        assert(walk.take(n).last() == walk[n - 1]);
        before.lemma_valid_seen(walk[n - 1]);
        let t = before.tree;
        let id = walk_id(walk, n - 1);
        let snapshot = walk[n - 1].1;
        if let Some(p) = walk_parent(walk, n - 1) {
            assert(in_walk(walk, n - 1, p));
            let j = choose|j: int|
                0 <= j < n - 1 && j < walk.len() && #[trigger] walk_id(walk, j) == p;
            if within(t, p, id) {
                let steps = choose|steps: nat| ancestor(t, p, steps) == Some(id);
                lemma_chain_stays(t, walk, n - 1, j, steps);
                let k = choose|k: int|
                    0 <= k < n - 1 && k < walk.len() && #[trigger] walk_id(walk, k) == id;
                assert(walk_id(walk, k) != walk_id(walk, n - 1));
            }
        }
        assert(!parent_missing(t, snapshot) && !parent_below(t, id, snapshot));
        assert(add_accepted(t, id, snapshot, before.fresh));
        let after = st.seen_all(walk.take(n)).tree;
        assert forall|i: int| 0 <= i < n implies after.contains_key(#[trigger] walk_id(walk, i))
            && after[walk_id(walk, i)].parent == walk_parent(walk, i) by {
            if i < n - 1 {
                assert(walk_id(walk, i) != walk_id(walk, n - 1));
            }
        }
    } else {
        assert(walk.take(0) =~= Seq::<(GodotRefView, NodeSnapshotView)>::empty());
    }
}

/// Setting the mirror right makes it show the tree.
///
/// After the mirror has met a walk over the tree of the engine and let go
/// of what the walk did not meet, it holds exactly the nodes of the walk,
/// each below the parent that the walk shows, and nothing else has changed
/// in what it held of them.
pub proof fn lemma_set_right(st: MirrorState, walk: Seq<(GodotRefView, NodeSnapshotView)>)
    requires
        st.valid(),
        is_walk(walk),
        st.fresh.id + walk.len() < u64::MAX,
    ensures
        tree_kept(st.seen_all(walk).tree, walk_nodes(walk)).dom() == walk_nodes(walk),
        taken(tree_kept(st.seen_all(walk).tree, walk_nodes(walk)), walk, walk.len() as int),
        forall|id: i64|
            walk_nodes(walk).contains(id) ==> #[trigger] tree_kept(
                st.seen_all(walk).tree,
                walk_nodes(walk),
            )[id] == st.seen_all(walk).tree[id],
{
    let n = walk.len() as int;
    let keep = walk_nodes(walk);
    let t = st.seen_all(walk).tree;
    let left = tree_kept(t, keep);
    lemma_walk_taken(st, walk, n);
    assert(walk.take(n) == walk);
    assert forall|id: i64| keep.contains(id) implies t.contains_key(id) && !below_lost(
        t,
        id,
        keep,
    ) by {
        let i = choose|i: int| 0 <= i < n && i < walk.len() && #[trigger] walk_id(walk, i) == id;
        if below_lost(t, id, keep) {
            let top = choose|top: i64| !keep.contains(top) && within(t, id, top);
            let steps = choose|steps: nat| ancestor(t, id, steps) == Some(top);
            lemma_chain_stays(t, walk, n, i, steps);
        }
    }
    assert forall|id: i64| left.contains_key(id) implies keep.contains(id) by {
        if !keep.contains(id) {
            lemma_below_lost_unfold(t, id, keep);
        }
    }
    assert(left.dom() =~= keep);
    assert forall|i: int| 0 <= i < n implies left.contains_key(#[trigger] walk_id(walk, i))
        && left[walk_id(walk, i)].parent == walk_parent(walk, i) by {
        assert(in_walk(walk, n, walk_id(walk, i)));
    }
}

/// A node that the mirror holds keeps its record when a walk meets it: its
/// entity, its name, its contacts and its transforms stay, whatever the
/// walk shows of it; only the parent can change.
pub proof fn lemma_seen_keeps(t: MirrorTree, met: (GodotRefView, NodeSnapshotView), fresh: Entity)
    requires
        t.contains_key(met.0.object_id),
    ensures
        ({
            let id = met.0.object_id;
            let after = tree_seen(t, met.0, met.1, fresh);
            &&& after.dom() == t.dom()
            &&& after[id] == (MirrorNode { parent: after[id].parent, ..t[id] })
            &&& forall|other: i64| other != id ==> #[trigger] after[other] == t[other]
        }),
{
    let after = tree_seen(t, met.0, met.1, fresh);
    assert(after.dom() =~= t.dom());
}

/// The ids of a walk are the nodes of the walk.
pub proof fn lemma_walk_nodes(walk: Seq<(ErasedGodotRef, NodeSnapshot)>)
    ensures
        walk_ids(walk).to_set() == walk_nodes(walk_view(walk)),
{
    let ids = walk_ids(walk);
    let met = walk_view(walk);
    assert forall|id: i64| ids.to_set().contains(id) <==> walk_nodes(met).contains(id) by {
        if ids.contains(id) {
            let i = choose|i: int| 0 <= i < ids.len() && ids[i] == id;
            assert(walk_id(met, i) == id);
        }
        if walk_nodes(met).contains(id) {
            let i = choose|i: int|
                0 <= i < met.len() && i < met.len() && #[trigger] walk_id(met, i) == id;
            assert(ids[i] == id);
        }
    }
    assert(ids.to_set() =~= walk_nodes(met));
}

} // verus!
