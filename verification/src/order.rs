//! How the mirror keeps its records: in a row, every parent before its
//! children. This file relates such a row to the map that it stands for.
use vstd::prelude::*;
use crate::entity::Entity;
use crate::tree::{
    MirrorNode, MirrorTree, ancestor, below_lost, entities_below, lemma_below_lost_unfold,
    lemma_within_unfold, let_go, lost, node_cleared, recents_cleared, root_after, rooted, subtree,
    tree_kept, tree_removed, tree_wf, within,
};

verus! {

/// Whether one of the first `limit` records is filed under `id`.
pub open spec fn found_before(s: Seq<MirrorNode>, id: i64, limit: int) -> bool {
    exists|j: int| 0 <= j < limit && j < s.len() && (#[trigger] s[j]).object_id == id
}

/// The place of the record that is filed under `id`.
pub open spec fn place_of(s: Seq<MirrorNode>, id: i64) -> int {
    choose|j: int| 0 <= j < s.len() && (#[trigger] s[j]).object_id == id
}

/// Whether no two records are filed under one instance id.
pub open spec fn ids_distinct(s: Seq<MirrorNode>) -> bool {
    forall|i: int, j: int|
        0 <= i < j < s.len() ==> (#[trigger] s[i]).object_id != (#[trigger] s[j]).object_id
}

/// Whether every record stands behind the record of its parent.
pub open spec fn parents_first(s: Seq<MirrorNode>) -> bool {
    forall|i: int|
        0 <= i < s.len() ==> ((#[trigger] s[i]).parent matches Some(p) ==> found_before(s, p, i))
}

/// Whether no two records hold one entity, and every entity has a number
/// below `bound`.
pub open spec fn entities_fresh(s: Seq<MirrorNode>, bound: u64) -> bool {
    &&& forall|i: int, j: int|
        0 <= i < j < s.len() ==> (#[trigger] s[i]).entity != (#[trigger] s[j]).entity
    &&& forall|i: int| 0 <= i < s.len() ==> (#[trigger] s[i]).entity.id < bound
}

/// What holds of the row at all times.
pub open spec fn ordered(s: Seq<MirrorNode>, bound: u64) -> bool {
    &&& ids_distinct(s)
    &&& parents_first(s)
    &&& entities_fresh(s, bound)
}

/// The map that the row stands for.
pub open spec fn tree_of(s: Seq<MirrorNode>) -> MirrorTree {
    Map::new(|id: i64| found_before(s, id, s.len() as int), |id: i64| s[place_of(s, id)])
}

/// The record at place `i` is the one that the map holds under its id.
pub proof fn lemma_place(s: Seq<MirrorNode>, i: int)
    requires
        ids_distinct(s),
        0 <= i < s.len(),
    ensures
        found_before(s, s[i].object_id, s.len() as int),
        place_of(s, s[i].object_id) == i,
        tree_of(s).contains_key(s[i].object_id),
        tree_of(s)[s[i].object_id] == s[i],
{
    let id = s[i].object_id;
    let j = place_of(s, id);
    assert(0 <= j < s.len() && s[j].object_id == id);
    if j < i {
        assert(s[j].object_id != s[i].object_id);
    }
    if i < j {
        assert(s[i].object_id != s[j].object_id);
    }
}

/// What the map holds under an id is a record of the row.
pub proof fn lemma_held(s: Seq<MirrorNode>, id: i64)
    requires
        tree_of(s).contains_key(id),
    ensures
        0 <= place_of(s, id) < s.len(),
        s[place_of(s, id)].object_id == id,
        tree_of(s)[id] == s[place_of(s, id)],
{
    let j = choose|j: int| 0 <= j < s.len() && j < s.len() && (#[trigger] s[j]).object_id == id;
    assert(0 <= j < s.len() && s[j].object_id == id);
}

/// The map of a row is finite.
pub proof fn lemma_finite(s: Seq<MirrorNode>)
    ensures
        tree_of(s).dom().finite(),
    decreases s.len(),
{
    if s.len() == 0 {
        assert(tree_of(s).dom() =~= Set::<i64>::empty());
    } else {
        let front = s.drop_last();
        lemma_finite(front);
        assert forall|id: i64|
            tree_of(s).dom().contains(id) <==> tree_of(front).dom().insert(
                s.last().object_id,
            ).contains(id) by {
            if tree_of(s).dom().contains(id) {
                let j = choose|j: int|
                    0 <= j < s.len() && j < s.len() && (#[trigger] s[j]).object_id == id;
                if j < s.len() - 1 {
                    assert(front[j].object_id == id);
                }
            }
            if tree_of(front).dom().contains(id) {
                let j = choose|j: int|
                    0 <= j < front.len() && j < front.len() && (#[trigger] front[j]).object_id
                        == id;
                assert(s[j].object_id == id);
            }
            if id == s.last().object_id {
                assert(s[s.len() - 1].object_id == id);
            }
        }
        assert(tree_of(s).dom() =~= tree_of(front).dom().insert(s.last().object_id));
    }
}

/// The map of a row without a double id holds as many records as the row.
pub proof fn lemma_count(s: Seq<MirrorNode>)
    requires
        ids_distinct(s),
    ensures
        tree_of(s).dom().finite(),
        tree_of(s).dom().len() == s.len(),
    decreases s.len(),
{
    lemma_finite(s);
    if s.len() == 0 {
        assert(tree_of(s).dom() =~= Set::<i64>::empty());
    } else {
        let front = s.drop_last();
        let last = s.last();
        assert forall|i: int, j: int| 0 <= i < j < front.len() implies (#[trigger] front[i]).object_id
            != (#[trigger] front[j]).object_id by {
            assert(s[i].object_id != s[j].object_id);
        }
        lemma_count(front);
        assert(!tree_of(front).dom().contains(last.object_id)) by {
            if tree_of(front).dom().contains(last.object_id) {
                let j = choose|j: int|
                    0 <= j < front.len() && j < front.len() && (#[trigger] front[j]).object_id
                        == last.object_id;
                assert(s[j].object_id != s[s.len() - 1].object_id);
            }
        }
        assert(s =~= front.push(last));
        lemma_push(front, last);
        assert(tree_of(s).dom() =~= tree_of(front).dom().insert(last.object_id));
    }
}

/// Every record of an ordered row hangs below a root.
pub proof fn lemma_rooted(s: Seq<MirrorNode>, i: int)
    requires
        ids_distinct(s),
        parents_first(s),
        0 <= i < s.len(),
    ensures
        rooted(tree_of(s), s[i].object_id),
    decreases i,
{
    let t = tree_of(s);
    let id = s[i].object_id;
    lemma_place(s, i);
    match s[i].parent {
        None => {
            assert(root_after(t, id, 0));
        },
        Some(p) => {
            let j = choose|j: int| 0 <= j < i && j < s.len() && (#[trigger] s[j]).object_id == p;
            lemma_rooted(s, j);
            let k = choose|k: nat| root_after(t, p, k);
            assert(ancestor(t, id, k + 1) == ancestor(t, p, k));
            assert(root_after(t, id, k + 1));
        },
    }
}

/// The map of an ordered row is a forest in which nothing is lost.
pub proof fn lemma_tree_wf(s: Seq<MirrorNode>, bound: u64)
    requires
        ordered(s, bound),
    ensures
        tree_wf(tree_of(s)),
        entities_below(tree_of(s), bound),
{
    let t = tree_of(s);
    lemma_finite(s);
    assert forall|id: i64| #[trigger] t.contains_key(id) implies t[id].object_id == id && (
    t[id].parent matches Some(p) ==> t.contains_key(p)) && rooted(t, id) && t[id].entity.id
        < bound by {
        lemma_held(s, id);
        let i = place_of(s, id);
        lemma_rooted(s, i);
        if let Some(p) = s[i].parent {
            assert(found_before(s, p, i));
        }
    }
    assert forall|a: i64, b: i64|
        #![trigger t[a], t[b]]
        t.contains_key(a) && t.contains_key(b) && a != b implies t[a].entity != t[b].entity by {
        lemma_held(s, a);
        lemma_held(s, b);
        let i = place_of(s, a);
        let j = place_of(s, b);
        if i < j {
            assert(s[i].entity != s[j].entity);
        } else {
            assert(s[j].entity != s[i].entity);
        }
    }
}

/// A row with distinct ids stands for a map as soon as the map holds every
/// record of the row under its id, and nothing else.
pub proof fn lemma_tree_is(s: Seq<MirrorNode>, m: MirrorTree)
    requires
        ids_distinct(s),
        forall|j: int|
            0 <= j < s.len() ==> m.contains_key((#[trigger] s[j]).object_id) && m[s[j].object_id]
                == s[j],
        forall|id: i64| #[trigger] m.contains_key(id) ==> found_before(s, id, s.len() as int),
    ensures
        tree_of(s) == m,
{
    let t = tree_of(s);
    assert forall|id: i64| t.contains_key(id) implies #[trigger] m.contains_key(id) && t[id]
        == m[id] by {
        lemma_held(s, id);
    }
    assert(t.dom() =~= m.dom());
    assert(t =~= m);
}

/// A record with a new id, put behind the row, is put into the map.
pub proof fn lemma_push(s: Seq<MirrorNode>, n: MirrorNode)
    requires
        ids_distinct(s),
        !found_before(s, n.object_id, s.len() as int),
    ensures
        ids_distinct(s.push(n)),
        tree_of(s.push(n)) == tree_of(s).insert(n.object_id, n),
{
    let r = s.push(n);
    assert forall|i: int, j: int| 0 <= i < j < r.len() implies (#[trigger] r[i]).object_id != (
    #[trigger] r[j]).object_id by {
        if j < s.len() {
            assert(s[i].object_id != s[j].object_id);
        } else {
            assert(s[i].object_id != n.object_id);
        }
    }
    let m = tree_of(s).insert(n.object_id, n);
    assert forall|j: int| 0 <= j < r.len() implies m.contains_key((#[trigger] r[j]).object_id)
        && m[r[j].object_id] == r[j] by {
        if j < s.len() {
            lemma_place(s, j);
            assert(s[j].object_id != n.object_id);
        }
    }
    assert forall|id: i64| #[trigger] m.contains_key(id) implies found_before(
        r,
        id,
        r.len() as int,
    ) by {
        if id == n.object_id {
            assert(r[s.len() as int].object_id == id);
        } else {
            lemma_held(s, id);
            assert(r[place_of(s, id)].object_id == id);
        }
    }
    lemma_tree_is(r, m);
}

/// A record that takes the place of the record with its id takes its place
/// in the map.
pub proof fn lemma_update(s: Seq<MirrorNode>, i: int, n: MirrorNode)
    requires
        ids_distinct(s),
        0 <= i < s.len(),
        n.object_id == s[i].object_id,
    ensures
        ids_distinct(s.update(i, n)),
        tree_of(s.update(i, n)) == tree_of(s).insert(n.object_id, n),
{
    let r = s.update(i, n);
    assert forall|a: int, b: int| 0 <= a < b < r.len() implies (#[trigger] r[a]).object_id != (
    #[trigger] r[b]).object_id by {
        assert(s[a].object_id != s[b].object_id);
    }
    let m = tree_of(s).insert(n.object_id, n);
    assert forall|j: int| 0 <= j < r.len() implies m.contains_key((#[trigger] r[j]).object_id)
        && m[r[j].object_id] == r[j] by {
        lemma_place(s, j);
        if j < i {
            assert(s[j].object_id != s[i].object_id);
        }
        if i < j {
            assert(s[i].object_id != s[j].object_id);
        }
    }
    assert forall|id: i64| #[trigger] m.contains_key(id) implies found_before(
        r,
        id,
        r.len() as int,
    ) by {
        if id == n.object_id {
            assert(r[i].object_id == id);
        } else {
            lemma_held(s, id);
            assert(r[place_of(s, id)].object_id == id);
        }
    }
    lemma_tree_is(r, m);
}

/// A new record with a new entity, put behind an ordered row, leaves the row
/// in order.
pub proof fn lemma_push_ordered(s: Seq<MirrorNode>, bound: u64, n: MirrorNode)
    requires
        ordered(s, bound),
        !found_before(s, n.object_id, s.len() as int),
        n.parent matches Some(p) ==> found_before(s, p, s.len() as int),
        n.entity.id == bound,
        bound < u64::MAX,
    ensures
        ordered(s.push(n), (bound + 1) as u64),
        tree_of(s.push(n)) == tree_of(s).insert(n.object_id, n),
{
    let r = s.push(n);
    lemma_push(s, n);
    assert forall|i: int| 0 <= i < r.len() implies ((#[trigger] r[i]).parent matches Some(p)
        ==> found_before(r, p, i)) by {
        if let Some(p) = r[i].parent {
            let limit = if i < s.len() {
                i
            } else {
                s.len() as int
            };
            assert(found_before(s, p, limit));
            let j = choose|j: int|
                0 <= j < limit && j < s.len() && (#[trigger] s[j]).object_id == p;
            assert(r[j].object_id == p);
        }
    }
    assert forall|i: int, j: int| 0 <= i < j < r.len() implies (#[trigger] r[i]).entity != (
    #[trigger] r[j]).entity by {
        if j < s.len() {
            assert(s[i].entity != s[j].entity);
        } else {
            assert(s[i].entity.id < bound);
        }
    }
    assert forall|i: int| 0 <= i < r.len() implies (#[trigger] r[i]).entity.id < bound + 1 by {
        if i < s.len() {
            assert(s[i].entity.id < bound);
        }
    }
}

/// A record that takes the place of the record with its id and its entity,
/// and whose parent stands before that place, leaves the row in order.
pub proof fn lemma_update_ordered(s: Seq<MirrorNode>, bound: u64, i: int, n: MirrorNode)
    requires
        ordered(s, bound),
        0 <= i < s.len(),
        n.object_id == s[i].object_id,
        n.entity == s[i].entity,
        n.parent matches Some(p) ==> found_before(s, p, i),
    ensures
        ordered(s.update(i, n), bound),
        tree_of(s.update(i, n)) == tree_of(s).insert(n.object_id, n),
{
    let r = s.update(i, n);
    lemma_update(s, i, n);
    assert forall|k: int| 0 <= k < r.len() implies ((#[trigger] r[k]).parent matches Some(p)
        ==> found_before(r, p, k)) by {
        if let Some(p) = r[k].parent {
            if k != i {
                assert(s[k].parent == Some(p));
            }
            assert(found_before(s, p, k));
            let j = choose|j: int| 0 <= j < k && j < s.len() && (#[trigger] s[j]).object_id == p;
            assert(r[j].object_id == p);
        }
    }
    assert forall|a: int, b: int| 0 <= a < b < r.len() implies (#[trigger] r[a]).entity != (
    #[trigger] r[b]).entity by {
        assert(s[a].entity != s[b].entity);
    }
    assert forall|k: int| 0 <= k < r.len() implies (#[trigger] r[k]).entity.id < bound by {
        assert(s[k].entity.id < bound);
    }
}

/// A row whose records keep their ids, entities and parents stays in order,
/// whatever else changes in them.
pub proof fn lemma_same_shape(s: Seq<MirrorNode>, r: Seq<MirrorNode>, bound: u64)
    requires
        ordered(s, bound),
        r.len() == s.len(),
        forall|k: int|
            0 <= k < s.len() ==> (#[trigger] r[k]).object_id == s[k].object_id && r[k].entity
                == s[k].entity && r[k].parent == s[k].parent,
    ensures
        ordered(r, bound),
{
    assert forall|a: int, b: int| 0 <= a < b < r.len() implies (#[trigger] r[a]).object_id != (
    #[trigger] r[b]).object_id && r[a].entity != r[b].entity by {
        assert(s[a].object_id != s[b].object_id);
        assert(s[a].entity != s[b].entity);
    }
    assert forall|k: int| 0 <= k < r.len() implies ((#[trigger] r[k]).parent matches Some(p)
        ==> found_before(r, p, k)) && r[k].entity.id < bound by {
        assert(s[k].entity.id < bound);
        if let Some(p) = r[k].parent {
            assert(s[k].parent == Some(p));
            let j = choose|j: int| 0 <= j < k && j < s.len() && (#[trigger] s[j]).object_id == p;
            assert(r[j].object_id == p);
        }
    }
}

/// Forgetting the recent contacts of every record of the row does so in the
/// map.
pub proof fn lemma_cleared(s: Seq<MirrorNode>, r: Seq<MirrorNode>, bound: u64)
    requires
        ordered(s, bound),
        r.len() == s.len(),
        forall|k: int| 0 <= k < s.len() ==> #[trigger] r[k] == node_cleared(s[k]),
    ensures
        ordered(r, bound),
        tree_of(r) == recents_cleared(tree_of(s)),
{
    lemma_same_shape(s, r, bound);
    let m = recents_cleared(tree_of(s));
    assert forall|j: int| 0 <= j < r.len() implies m.contains_key((#[trigger] r[j]).object_id)
        && m[r[j].object_id] == r[j] by {
        lemma_place(s, j);
    }
    assert forall|id: i64| #[trigger] m.contains_key(id) implies found_before(
        r,
        id,
        r.len() as int,
    ) by {
        lemma_held(s, id);
        assert(r[place_of(s, id)].object_id == id);
    }
    lemma_tree_is(r, m);
}

/// A change that is made to every record of the row, and that keeps ids,
/// entities and parents, is made to every record of the map.
pub proof fn lemma_mapped(
    s: Seq<MirrorNode>,
    r: Seq<MirrorNode>,
    bound: u64,
    f: spec_fn(MirrorNode) -> MirrorNode,
)
    requires
        ordered(s, bound),
        r.len() == s.len(),
        forall|k: int| 0 <= k < s.len() ==> #[trigger] r[k] == f(s[k]),
        forall|n: MirrorNode|
            (#[trigger] f(n)).object_id == n.object_id && f(n).entity == n.entity && f(n).parent
                == n.parent,
    ensures
        ordered(r, bound),
        tree_of(r) == tree_of(s).map_values(f),
{
    lemma_same_shape(s, r, bound);
    let m = tree_of(s).map_values(f);
    assert forall|j: int| 0 <= j < r.len() implies m.contains_key((#[trigger] r[j]).object_id)
        && m[r[j].object_id] == r[j] by {
        lemma_place(s, j);
    }
    assert forall|id: i64| #[trigger] m.contains_key(id) implies found_before(
        r,
        id,
        r.len() as int,
    ) by {
        lemma_held(s, id);
        assert(r[place_of(s, id)].object_id == id);
    }
    lemma_tree_is(r, m);
}

/// A node stands behind every node that it lies below.
pub proof fn lemma_below_behind(s: Seq<MirrorNode>, i: int, top: int, steps: nat)
    requires
        ids_distinct(s),
        parents_first(s),
        0 <= i < s.len(),
        0 <= top < s.len(),
        ancestor(tree_of(s), s[i].object_id, steps) == Some(s[top].object_id),
    ensures
        top <= i,
        steps > 0 ==> top < i,
    decreases steps,
{
    let t = tree_of(s);
    lemma_place(s, i);
    lemma_place(s, top);
    if steps == 0 {
        if i < top {
            assert(s[i].object_id != s[top].object_id);
        }
        if top < i {
            assert(s[top].object_id != s[i].object_id);
        }
    } else {
        let p = s[i].parent->Some_0;
        let j = choose|j: int| 0 <= j < i && j < s.len() && (#[trigger] s[j]).object_id == p;
        lemma_below_behind(s, j, top, (steps - 1) as nat);
    }
}

/// The places of the marks that read `want`, in rising order.
pub open spec fn picked(marks: Seq<bool>, want: bool) -> Seq<int>
    decreases marks.len(),
{
    if marks.len() == 0 {
        Seq::empty()
    } else {
        let front = picked(marks.drop_last(), want);
        if marks.last() == want {
            front.push(marks.len() - 1)
        } else {
            front
        }
    }
}

/// The records whose marks read `want`, in the order of the row.
pub open spec fn pick(s: Seq<MirrorNode>, marks: Seq<bool>, want: bool) -> Seq<MirrorNode> {
    Seq::new(picked(marks, want).len(), |a: int| s[picked(marks, want)[a]])
}

/// The picked places are those of the wanted marks, each once and in rising
/// order.
pub proof fn lemma_picked(marks: Seq<bool>, want: bool)
    ensures
        forall|a: int|
            0 <= a < picked(marks, want).len() ==> 0 <= (#[trigger] picked(marks, want)[a])
                < marks.len() && marks[picked(marks, want)[a]] == want,
        forall|a: int, b: int|
            0 <= a < b < picked(marks, want).len() ==> (#[trigger] picked(marks, want)[a]) < (
            #[trigger] picked(marks, want)[b]),
        forall|i: int|
            0 <= i < marks.len() && #[trigger] marks[i] == want ==> exists|a: int|
                0 <= a < picked(marks, want).len() && #[trigger] picked(marks, want)[a] == i,
    decreases marks.len(),
{
    if marks.len() > 0 {
        let front_marks = marks.drop_last();
        let front = picked(front_marks, want);
        lemma_picked(front_marks, want);
        let all = picked(marks, want);
        assert forall|i: int| 0 <= i < marks.len() && #[trigger] marks[i] == want implies exists|
            a: int,
        |
            0 <= a < all.len() && #[trigger] all[a] == i by {
            if i < marks.len() - 1 {
                assert(front_marks[i] == want);
                let a = choose|a: int| 0 <= a < front.len() && #[trigger] front[a] == i;
                assert(all[a] == i);
            } else {
                assert(all[all.len() - 1] == i);
            }
        }
    }
}

/// Picking from one mark more takes the record at that mark in, or leaves
/// the pick as it was.
pub proof fn lemma_pick_step(s: Seq<MirrorNode>, marks: Seq<bool>, i: int, want: bool)
    requires
        0 <= i < marks.len(),
    ensures
        pick(s, marks.take(i + 1), want) == (if marks[i] == want {
            pick(s, marks.take(i), want).push(s[i])
        } else {
            pick(s, marks.take(i), want)
        }),
{
    assert(marks.take(i + 1).drop_last() == marks.take(i));
    assert(marks.take(i + 1).last() == marks[i]);
    if marks[i] == want {
        assert(pick(s, marks.take(i + 1), want) =~= pick(s, marks.take(i), want).push(s[i]));
    } else {
        assert(pick(s, marks.take(i + 1), want) =~= pick(s, marks.take(i), want));
    }
}

/// Leaving out a set of nodes that holds, with every node, the children of
/// that node keeps the row in order, and takes exactly that set from the map.
pub proof fn lemma_drop(s: Seq<MirrorNode>, bound: u64, gone: Set<i64>, marks: Seq<bool>)
    requires
        ordered(s, bound),
        marks.len() == s.len(),
        forall|i: int| 0 <= i < s.len() ==> #[trigger] marks[i] == gone.contains(s[i].object_id),
        forall|i: int|
            0 <= i < s.len() ==> ((#[trigger] s[i]).parent matches Some(p) ==> (gone.contains(p)
                ==> gone.contains(s[i].object_id))),
    ensures
        ordered(pick(s, marks, false), bound),
        tree_of(pick(s, marks, false)) == tree_of(s).remove_keys(gone),
{
    let t = tree_of(s);
    let k = pick(s, marks, false);
    let pl = picked(marks, false);
    lemma_picked(marks, false);
    assert forall|a: int, b: int| 0 <= a < b < k.len() implies (#[trigger] k[a]).object_id != (
    #[trigger] k[b]).object_id && k[a].entity != k[b].entity by {
        assert(pl[a] < pl[b]);
        assert(s[pl[a]].object_id != s[pl[b]].object_id);
        assert(s[pl[a]].entity != s[pl[b]].entity);
    }
    assert forall|a: int| 0 <= a < k.len() implies ((#[trigger] k[a]).parent matches Some(p)
        ==> found_before(k, p, a)) by {
        if let Some(p) = k[a].parent {
            let i = pl[a];
            assert(s[i].parent == Some(p));
            let j = choose|j: int| 0 <= j < i && j < s.len() && (#[trigger] s[j]).object_id == p;
            assert(!marks[i]);
            assert(!marks[j]);
            let b = choose|b: int| 0 <= b < pl.len() && #[trigger] pl[b] == j;
            if b > a {
                assert(pl[a] < pl[b]);
            }
            assert(k[b].object_id == p);
        }
    }
    assert forall|a: int| 0 <= a < k.len() implies (#[trigger] k[a]).entity.id < bound by {
        assert(s[pl[a]].entity.id < bound);
    }
    let m = t.remove_keys(gone);
    assert forall|a: int| 0 <= a < k.len() implies m.contains_key((#[trigger] k[a]).object_id)
        && m[k[a].object_id] == k[a] by {
        lemma_place(s, pl[a]);
        assert(!marks[pl[a]]);
    }
    assert forall|id: i64| #[trigger] m.contains_key(id) implies found_before(
        k,
        id,
        k.len() as int,
    ) by {
        lemma_held(s, id);
        let i = place_of(s, id);
        assert(!marks[i]);
        let a = choose|a: int| 0 <= a < pl.len() && #[trigger] pl[a] == i;
        assert(k[a].object_id == id);
    }
    lemma_tree_is(k, m);
}

/// The entities of the records whose marks are set, in the order of the
/// row.
pub open spec fn gone_entities(s: Seq<MirrorNode>, marks: Seq<bool>) -> Seq<Entity> {
    Seq::new(pick(s, marks, true).len(), |a: int| pick(s, marks, true)[a].entity)
}

/// The entities of the records that are left out are the entities of the
/// nodes that go, each once.
pub proof fn lemma_gone(s: Seq<MirrorNode>, bound: u64, gone: Set<i64>, marks: Seq<bool>)
    requires
        ordered(s, bound),
        marks.len() == s.len(),
        forall|i: int| 0 <= i < s.len() ==> #[trigger] marks[i] == gone.contains(s[i].object_id),
    ensures
        gone_entities(s, marks).no_duplicates(),
        forall|entity: Entity|
            gone_entities(s, marks).contains(entity) <==> let_go(
                tree_of(s),
                tree_of(s).remove_keys(gone),
                entity,
            ),
{
    let t = tree_of(s);
    let left = t.remove_keys(gone);
    let went = gone_entities(s, marks);
    let places = picked(marks, true);
    lemma_picked(marks, true);
    assert forall|a: int, b: int| 0 <= a < went.len() && 0 <= b < went.len() && a
        != b implies went[a] != went[b] by {
        if a < b {
            assert(places[a] < places[b]);
            assert(s[places[a]].entity != s[places[b]].entity);
        } else {
            assert(places[b] < places[a]);
            assert(s[places[b]].entity != s[places[a]].entity);
        }
    }
    assert forall|entity: Entity| went.contains(entity) <==> let_go(t, left, entity) by {
        if went.contains(entity) {
            let a = choose|a: int| 0 <= a < went.len() && went[a] == entity;
            lemma_place(s, places[a]);
            assert(marks[places[a]]);
            assert(t[s[places[a]].object_id].entity == entity);
        }
        if let_go(t, left, entity) {
            let id = choose|id: i64|
                #![trigger t[id]]
                t.contains_key(id) && !left.contains_key(id) && t[id].entity == entity;
            lemma_held(s, id);
            let k = place_of(s, id);
            assert(marks[k]);
            let a = choose|a: int| 0 <= a < places.len() && #[trigger] places[a] == k;
            assert(went[a] == entity);
        }
    }
}

/// Leaving out a node with everything below it keeps the row in order, and
/// takes from the map exactly that node and what lies below it.
pub proof fn lemma_remove(s: Seq<MirrorNode>, bound: u64, top: i64, marks: Seq<bool>)
    requires
        ordered(s, bound),
        marks.len() == s.len(),
        forall|i: int|
            0 <= i < s.len() ==> #[trigger] marks[i] == within(tree_of(s), s[i].object_id, top),
    ensures
        ordered(pick(s, marks, false), bound),
        tree_of(pick(s, marks, false)) == tree_removed(tree_of(s), top),
{
    let t = tree_of(s);
    let gone = subtree(t, top);
    assert forall|i: int| 0 <= i < s.len() implies ((#[trigger] s[i]).parent matches Some(p) ==> (
    gone.contains(p) ==> gone.contains(s[i].object_id))) by {
        lemma_place(s, i);
        lemma_within_unfold(t, s[i].object_id, top);
    }
    lemma_drop(s, bound, gone, marks);
}

/// Leaving out every node that is not to be kept, with everything below
/// it, keeps the row in order.
pub proof fn lemma_keep(s: Seq<MirrorNode>, bound: u64, keep: Set<i64>, marks: Seq<bool>)
    requires
        ordered(s, bound),
        marks.len() == s.len(),
        forall|i: int|
            0 <= i < s.len() ==> #[trigger] marks[i] == below_lost(tree_of(s), s[i].object_id, keep),
    ensures
        ordered(pick(s, marks, false), bound),
        tree_of(pick(s, marks, false)) == tree_kept(tree_of(s), keep),
{
    let t = tree_of(s);
    let gone = lost(t, keep);
    assert forall|i: int| 0 <= i < s.len() implies ((#[trigger] s[i]).parent matches Some(p) ==> (
    gone.contains(p) ==> gone.contains(s[i].object_id))) by {
        lemma_place(s, i);
        lemma_below_lost_unfold(t, s[i].object_id, keep);
    }
    lemma_drop(s, bound, gone, marks);
}

/// The row after the record at place `i` was replaced by `n` and then moved,
/// with everything below it, behind the rest.
pub open spec fn moved(s: Seq<MirrorNode>, i: int, marks: Seq<bool>, n: MirrorNode) -> Seq<
    MirrorNode,
> {
    pick(s.update(i, n), marks, false) + pick(s.update(i, n), marks, true)
}

/// The place that the record at place `a` of the moved row came from.
pub open spec fn source(marks: Seq<bool>, a: int) -> int {
    if a < picked(marks, false).len() {
        picked(marks, false)[a]
    } else {
        picked(marks, true)[a - picked(marks, false).len()]
    }
}

/// Hanging a node below a new parent that does not lie below the node itself
/// keeps the row in order, once the node and everything below it has moved
/// behind the rest; the map only gets the new record of the node.
pub proof fn lemma_move(s: Seq<MirrorNode>, bound: u64, i: int, marks: Seq<bool>, n: MirrorNode)
    requires
        ordered(s, bound),
        0 <= i < s.len(),
        marks.len() == s.len(),
        forall|k: int|
            0 <= k < s.len() ==> #[trigger] marks[k] == within(
                tree_of(s),
                s[k].object_id,
                s[i].object_id,
            ),
        n.object_id == s[i].object_id,
        n.entity == s[i].entity,
        n.parent matches Some(p) ==> exists|j: int|
            0 <= j < s.len() && (#[trigger] s[j]).object_id == p && !marks[j],
    ensures
        ordered(moved(s, i, marks, n), bound),
        tree_of(moved(s, i, marks, n)) == tree_of(s).insert(n.object_id, n),
{
    let t = tree_of(s);
    let top = s[i].object_id;
    let s2 = s.update(i, n);
    let pu = picked(marks, false);
    let pv = picked(marks, true);
    let u = pick(s2, marks, false);
    let v = pick(s2, marks, true);
    let r = moved(s, i, marks, n);
    let g = |a: int| source(marks, a);
    lemma_picked(marks, false);
    lemma_picked(marks, true);
    lemma_update(s, i, n);
    lemma_place(s, i);
    assert(ancestor(t, top, 0) == Some(top));
    assert(marks[i]);
    assert forall|a: int| 0 <= a < r.len() implies 0 <= g(a) < s.len() && #[trigger] r[a]
        == s2[g(a)] && (a < u.len() ==> !marks[g(a)] && g(a) != i) && (a >= u.len()
        ==> marks[g(a)]) by {
        if a < u.len() {
            assert(r[a] == u[a]);
        } else {
            assert(r[a] == v[a - u.len()]);
        }
    }
    assert forall|a: int, b: int| 0 <= a < b < r.len() implies #[trigger] source(marks, a) != #[trigger] source(
        marks,
        b,
    ) by {
        if b < u.len() {
            assert(pu[a] < pu[b]);
        } else if a >= u.len() {
            assert(pv[a - u.len()] < pv[b - u.len()]);
        } else {
            assert(!marks[g(a)] && marks[g(b)]);
        }
    }
    assert forall|a: int, b: int| 0 <= a < b < r.len() implies (#[trigger] r[a]).object_id != (
    #[trigger] r[b]).object_id && r[a].entity != r[b].entity by {
        let x = g(a);
        let y = g(b);
        assert(r[a] == s2[x] && r[b] == s2[y]);
        assert(x != y);
        if x < y {
            assert(s[x].object_id != s[y].object_id);
            assert(s[x].entity != s[y].entity);
        } else {
            assert(s[y].object_id != s[x].object_id);
            assert(s[y].entity != s[x].entity);
        }
    }
    assert forall|a: int| 0 <= a < r.len() implies (#[trigger] r[a]).entity.id < bound by {
        assert(r[a] == s2[g(a)]);
        assert(s[g(a)].entity.id < bound);
    }
    assert forall|a: int| 0 <= a < r.len() implies ((#[trigger] r[a]).parent matches Some(q)
        ==> found_before(r, q, a)) by {
        if let Some(q) = r[a].parent {
            let c = g(a);
            assert(r[a] == s2[c]);
            if c == i {
                let j = choose|j: int|
                    0 <= j < s.len() && (#[trigger] s[j]).object_id == q && !marks[j];
                let b = choose|b: int| 0 <= b < pu.len() && #[trigger] pu[b] == j;
                assert(r[b] == s2[g(b)]);
                assert(r[b].object_id == q);
            } else {
                assert(s[c].parent == Some(q));
                let j = choose|j: int|
                    0 <= j < c && j < s.len() && (#[trigger] s[j]).object_id == q;
                lemma_place(s, c);
                lemma_place(s, j);
                lemma_within_unfold(t, s[c].object_id, top);
                if c < i {
                    assert(s[c].object_id != s[i].object_id);
                } else {
                    assert(s[i].object_id != s[c].object_id);
                }
                assert(marks[c] == marks[j]);
                if a < u.len() {
                    let b = choose|b: int| 0 <= b < pu.len() && #[trigger] pu[b] == j;
                    if b > a {
                        assert(pu[a] < pu[b]);
                    }
                    assert(r[b] == s2[g(b)]);
                    assert(r[b].object_id == q);
                } else {
                    let b = choose|b: int| 0 <= b < pv.len() && #[trigger] pv[b] == j;
                    if b > a - u.len() {
                        assert(pv[a - u.len()] < pv[b]);
                    }
                    assert(r[b + u.len()] == s2[g(b + u.len())]);
                    assert(r[b + u.len()].object_id == q);
                }
            }
        }
    }
    let m = tree_of(s2);
    assert forall|a: int| 0 <= a < r.len() implies m.contains_key((#[trigger] r[a]).object_id)
        && m[r[a].object_id] == r[a] by {
        assert(r[a] == s2[g(a)]);
        lemma_place(s2, g(a));
    }
    assert forall|id: i64| #[trigger] m.contains_key(id) implies found_before(
        r,
        id,
        r.len() as int,
    ) by {
        lemma_held(s2, id);
        let c = place_of(s2, id);
        if marks[c] {
            let b = choose|b: int| 0 <= b < pv.len() && #[trigger] pv[b] == c;
            assert(r[b + u.len()] == s2[g(b + u.len())]);
            assert(r[b + u.len()].object_id == id);
        } else {
            let b = choose|b: int| 0 <= b < pu.len() && #[trigger] pu[b] == c;
            assert(r[b] == s2[g(b)]);
            assert(r[b].object_id == id);
        }
    }
    lemma_tree_is(r, m);
}

} // verus!
