//! The walk over the scene tree at startup.
//!
//! Before the first frame the mirror is filled from the tree as it stands.
//! The walk names the nodes one after the other; for each, the bridge asks
//! the engine for the children and hands them to the walk. Every node is
//! named after its parent and before its own children, so the nodes can be
//! taken up as if the engine had added them one by one.
use vstd::prelude::*;

verus! {

/// A walk over a tree that is under way. Its value is the row of the nodes
/// that are found and not named yet; the last of the row is named next.
#[derive(Debug)]
pub struct TreeWalk {
    pending: Vec<i64>,
}

impl View for TreeWalk {
    type V = Seq<i64>;

    closed spec fn view(&self) -> Seq<i64> {
        self.pending@
    }
}

impl TreeWalk {
    /// The walk that starts at the given root.
    pub fn start(root: i64) -> (walk: Self)
        ensures
            walk@ == seq![root],
    {
        let mut pending: Vec<i64> = Vec::new();
        pending.push(root);
        TreeWalk { pending }
    }

    /// Whether every node that was found has been named.
    pub fn is_done(&self) -> (done: bool)
        ensures
            done == (self@.len() == 0),
    {
        self.pending.len() == 0
    }

    /// Names the next node, if one is left.
    pub fn next(&mut self) -> (node: Option<i64>)
        ensures
            match node {
                Some(id) => old(self)@.len() > 0 && id == old(self)@.last() && final(self)@ == old(
                    self,
                )@.drop_last(),
                None => old(self)@.len() == 0 && final(self)@ == old(self)@,
            },
    {
        self.pending.pop()
    }

    /// Takes the children of the node that was named last, in the order in
    /// which the engine holds them. The first child is named next.
    pub fn expand(&mut self, children: &Vec<i64>)
        ensures
            final(self)@ == old(self)@ + children@.reverse(),
    {
        let mut i: usize = children.len();
        while i > 0
            invariant
                i <= children.len(),
                self@ == old(self)@ + children@.reverse().take(children.len() - i),
            decreases i,
        {
            i = i - 1;
            self.pending.push(children[i]);
            proof {
                let turned = children@.reverse();
                let k = children.len() - i;
                assert(turned.take(k) == turned.take(k - 1).push(turned[k - 1]));
                assert(self@ =~= old(self)@ + turned.take(k));
            }
        }
        proof {
            let turned = children@.reverse();
            assert(turned.take(children.len() as int) == turned);
        }
    }
}

/// The nodes that a walk names in its next `steps` steps, when `pending` is
/// what it has found and `children` gives the children of every node.
pub open spec fn named(children: spec_fn(i64) -> Seq<i64>, pending: Seq<i64>, steps: nat) -> Seq<
    i64,
>
    decreases steps,
{
    if steps == 0 || pending.len() == 0 {
        Seq::empty()
    } else {
        seq![pending.last()] + named(
            children,
            pending.drop_last() + children(pending.last()).reverse(),
            (steps - 1) as nat,
        )
    }
}

/// Whether the node at place `i` of a row stands behind its parent: it is a
/// child of a node at an earlier place.
pub open spec fn behind_parent(children: spec_fn(i64) -> Seq<i64>, row: Seq<i64>, i: int) -> bool {
    exists|j: int| 0 <= j < i && children(#[trigger] row[j]).contains(row[i])
}

/// Whether `node` is a child of a node of the row.
pub open spec fn child_of_some(children: spec_fn(i64) -> Seq<i64>, row: Seq<i64>, node: i64)
    -> bool {
    exists|j: int| 0 <= j < row.len() && children(#[trigger] row[j]).contains(node)
}

/// Whether every pending node is a child of a node of the row.
pub open spec fn found_from(children: spec_fn(i64) -> Seq<i64>, row: Seq<i64>, pending: Seq<i64>)
    -> bool {
    forall|k: int| 0 <= k < pending.len() ==> child_of_some(children, row, #[trigger] pending[k])
}

/// A walk that goes on from nodes that were found below named nodes names
/// every further node behind its parent.
pub proof fn lemma_walk_goes_on(
    children: spec_fn(i64) -> Seq<i64>,
    row: Seq<i64>,
    pending: Seq<i64>,
    steps: nat,
)
    requires
        found_from(children, row, pending),
    ensures
        forall|i: int|
            row.len() <= i < (row + named(children, pending, steps)).len() ==> behind_parent(
                children,
                row + named(children, pending, steps),
                i,
            ),
    decreases steps,
{
    if steps > 0 && pending.len() > 0 {
        let top = pending.last();
        let longer = row.push(top);
        let kids = children(top).reverse();
        let rest = pending.drop_last() + kids;
        assert forall|k: int| 0 <= k < rest.len() implies child_of_some(
            children,
            longer,
            #[trigger] rest[k],
        ) by {
            if k < pending.len() - 1 {
                assert(rest[k] == pending[k]);
                assert(child_of_some(children, row, pending[k]));
                let j = choose|j: int|
                    0 <= j < row.len() && children(#[trigger] row[j]).contains(pending[k]);
                assert(longer[j] == row[j]);
            } else {
                let a = k - (pending.len() - 1);
                assert(rest[k] == kids[a]);
                assert(kids[a] == children(top)[children(top).len() - 1 - a]);
                assert(longer[row.len() as int] == top);
            }
        }
        lemma_walk_goes_on(children, longer, rest, (steps - 1) as nat);
        let tail = named(children, rest, (steps - 1) as nat);
        let all = row + named(children, pending, steps);
        assert(all =~= longer + tail);
        assert forall|i: int| row.len() <= i < all.len() implies behind_parent(
            children,
            all,
            i,
        ) by {
            if i == row.len() {
                assert(child_of_some(children, row, pending[pending.len() - 1]));
                let j = choose|j: int|
                    0 <= j < row.len() && children(#[trigger] row[j]).contains(
                        pending[pending.len() - 1],
                    );
                assert(all[j] == row[j]);
                assert(all[i] == top);
            }
        }
    }
}

/// The walk names every node behind its parent.
///
/// However many steps the walk from a root takes, every node that it names,
/// but for the root, is a child of a node that it named before.
pub proof fn lemma_parents_named_first(children: spec_fn(i64) -> Seq<i64>, root: i64, steps: nat)
    ensures
        forall|i: int|
            1 <= i < named(children, seq![root], steps).len() ==> behind_parent(
                children,
                named(children, seq![root], steps),
                i,
            ),
        steps > 0 ==> named(children, seq![root], steps).len() > 0 && named(
            children,
            seq![root],
            steps,
        )[0] == root,
{
    if steps > 0 {
        let pending = seq![root];
        let row = seq![root];
        let rest = pending.drop_last() + children(root).reverse();
        assert forall|k: int| 0 <= k < rest.len() implies child_of_some(
            children,
            row,
            #[trigger] rest[k],
        ) by {
            assert(rest[k] == children(root).reverse()[k]);
            assert(rest[k] == children(root)[children(root).len() - 1 - k]);
            assert(row[0] == root);
        }
        lemma_walk_goes_on(children, row, rest, (steps - 1) as nat);
        assert(named(children, pending, steps) =~= row + named(
            children,
            rest,
            (steps - 1) as nat,
        ));
    }
}

/// The nodes at and below `node`, down to `height` levels: the node first,
/// then what lies at and below each of its children, in their order.
pub open spec fn preorder(children: spec_fn(i64) -> Seq<i64>, node: i64, height: nat) -> Seq<i64>
    decreases height, 0nat,
{
    if height == 0 {
        seq![node]
    } else {
        seq![node] + preorder_all(children, children(node), (height - 1) as nat)
    }
}

/// What lies at and below each node of a row, down to `height` levels, in
/// the order of the row.
pub open spec fn preorder_all(children: spec_fn(i64) -> Seq<i64>, nodes: Seq<i64>, height: nat)
    -> Seq<i64>
    decreases height, nodes.len() + 1,
{
    if nodes.len() == 0 {
        Seq::empty()
    } else {
        preorder(children, nodes.first(), height) + preorder_all(
            children,
            nodes.drop_first(),
            height,
        )
    }
}

/// Whether nothing lies more than `height` levels below `node`.
pub open spec fn shallow(children: spec_fn(i64) -> Seq<i64>, node: i64, height: nat) -> bool
    decreases height,
{
    if height == 0 {
        children(node).len() == 0
    } else {
        forall|i: int|
            0 <= i < children(node).len() ==> shallow(
                children,
                #[trigger] children(node)[i],
                (height - 1) as nat,
            )
    }
}

/// Whether nothing lies more than `height` levels below any node of a row.
pub open spec fn all_shallow(children: spec_fn(i64) -> Seq<i64>, nodes: Seq<i64>, height: nat)
    -> bool {
    forall|i: int| 0 <= i < nodes.len() ==> shallow(children, #[trigger] nodes[i], height)
}

/// In how many ways one comes from `from` to `to` by going down from a node
/// to one of its children, `height` times at most.
pub open spec fn ways(children: spec_fn(i64) -> Seq<i64>, from: i64, to: i64, height: nat) -> nat
    decreases height, 0nat,
{
    let here: nat = if from == to {
        1
    } else {
        0
    };
    if height == 0 {
        here
    } else {
        here + ways_all(children, children(from), to, (height - 1) as nat)
    }
}

/// In how many ways one comes from a node of a row down to `to`.
pub open spec fn ways_all(
    children: spec_fn(i64) -> Seq<i64>,
    nodes: Seq<i64>,
    to: i64,
    height: nat,
) -> nat
    decreases height, nodes.len() + 1,
{
    if nodes.len() == 0 {
        0
    } else {
        ways(children, nodes.first(), to, height) + ways_all(
            children,
            nodes.drop_first(),
            to,
            height,
        )
    }
}

/// How often `node` stands in a row.
pub open spec fn times(row: Seq<i64>, node: i64) -> nat
    decreases row.len(),
{
    if row.len() == 0 {
        0
    } else {
        let last: nat = if row.last() == node {
            1
        } else {
            0
        };
        times(row.drop_last(), node) + last
    }
}

/// A node stands in two rows put together as often as in both.
pub proof fn lemma_times_add(a: Seq<i64>, b: Seq<i64>, node: i64)
    ensures
        times(a + b, node) == times(a, node) + times(b, node),
    decreases b.len(),
{
    if b.len() == 0 {
        assert(a + b == a);
    } else {
        lemma_times_add(a, b.drop_last(), node);
        assert((a + b).drop_last() == a + b.drop_last());
        assert((a + b).last() == b.last());
    }
}

/// A node stands in a row if and only if it stands there at least once.
pub proof fn lemma_times_contains(row: Seq<i64>, node: i64)
    ensures
        row.contains(node) <==> times(row, node) > 0,
    decreases row.len(),
{
    if row.len() > 0 {
        lemma_times_contains(row.drop_last(), node);
        if row.contains(node) {
            let i = choose|i: int| 0 <= i < row.len() && row[i] == node;
            if i < row.len() - 1 {
                assert(row.drop_last()[i] == node);
            }
        }
        if row.drop_last().contains(node) {
            let i = choose|i: int| 0 <= i < row.drop_last().len() && row.drop_last()[i] == node;
            assert(row[i] == node);
        }
        if row.last() == node {
            assert(row[row.len() - 1] == node);
        }
    }
}

/// What lies below two rows put together is what lies below the first,
/// followed by what lies below the second.
pub proof fn lemma_preorder_all_add(
    children: spec_fn(i64) -> Seq<i64>,
    a: Seq<i64>,
    b: Seq<i64>,
    height: nat,
)
    ensures
        preorder_all(children, a + b, height) == preorder_all(children, a, height) + preorder_all(
            children,
            b,
            height,
        ),
    decreases a.len(),
{
    if a.len() == 0 {
        assert(a + b == b);
        assert(preorder_all(children, a, height) + preorder_all(children, b, height)
            == preorder_all(children, b, height));
    } else {
        lemma_preorder_all_add(children, a.drop_first(), b, height);
        assert((a + b).drop_first() == a.drop_first() + b);
        assert((a + b).first() == a.first());
        assert(preorder_all(children, a + b, height) =~= preorder_all(children, a, height)
            + preorder_all(children, b, height));
    }
}

/// Where nothing lies deeper, looking one level deeper shows the same.
pub proof fn lemma_preorder_stable(children: spec_fn(i64) -> Seq<i64>, node: i64, height: nat)
    requires
        shallow(children, node, height),
    ensures
        shallow(children, node, height + 1),
        preorder(children, node, height + 1) == preorder(children, node, height),
    decreases height, 0nat,
{
    let kids = children(node);
    if height == 0 {
        assert(preorder_all(children, kids, 0) == Seq::<i64>::empty());
        assert(preorder(children, node, 1) =~= preorder(children, node, 0));
    } else {
        lemma_preorder_all_stable(children, kids, (height - 1) as nat);
    }
}

/// Where nothing lies deeper below a row, looking one level deeper shows
/// the same.
pub proof fn lemma_preorder_all_stable(
    children: spec_fn(i64) -> Seq<i64>,
    nodes: Seq<i64>,
    height: nat,
)
    requires
        all_shallow(children, nodes, height),
    ensures
        all_shallow(children, nodes, height + 1),
        preorder_all(children, nodes, height + 1) == preorder_all(children, nodes, height),
    decreases height, nodes.len() + 1,
{
    if nodes.len() > 0 {
        assert(shallow(children, nodes[0], height));
        lemma_preorder_stable(children, nodes.first(), height);
        assert forall|i: int| 0 <= i < nodes.drop_first().len() implies shallow(
            children,
            #[trigger] nodes.drop_first()[i],
            height,
        ) by {
            assert(nodes.drop_first()[i] == nodes[i + 1]);
        }
        lemma_preorder_all_stable(children, nodes.drop_first(), height);
        assert forall|i: int| 0 <= i < nodes.len() implies shallow(
            children,
            #[trigger] nodes[i],
            height + 1,
        ) by {
            if i > 0 {
                assert(nodes[i] == nodes.drop_first()[i - 1]);
            }
        }
    }
}

/// The walk goes through what lies below the pending nodes, the node that
/// was found last first.
pub proof fn lemma_walk_goes_down(
    children: spec_fn(i64) -> Seq<i64>,
    pending: Seq<i64>,
    height: nat,
    steps: nat,
)
    requires
        all_shallow(children, pending, height),
        steps >= preorder_all(children, pending.reverse(), height).len(),
    ensures
        named(children, pending, steps) == preorder_all(children, pending.reverse(), height),
    decreases steps,
{
    let turned = pending.reverse();
    if pending.len() == 0 {
        assert(turned.len() == 0);
    } else {
        let top = pending.last();
        let rest = pending.drop_last();
        let kids = children(top);
        assert(turned.first() == top);
        assert(turned.drop_first() =~= rest.reverse());
        assert(shallow(children, pending[pending.len() - 1], height));
        assert forall|i: int| 0 <= i < rest.len() implies shallow(
            children,
            #[trigger] rest[i],
            height,
        ) by {
            assert(rest[i] == pending[i]);
        }
        let below: Seq<i64> = if height == 0 {
            Seq::empty()
        } else {
            preorder_all(children, kids, (height - 1) as nat)
        };
        assert(preorder(children, top, height) =~= seq![top] + below);
        // what lies below the children is the same seen from `height`
        if height == 0 {
            assert(preorder_all(children, kids, height) == below);
            assert(all_shallow(children, kids, height));
        } else {
            assert forall|i: int| 0 <= i < kids.len() implies shallow(
                children,
                #[trigger] kids[i],
                (height - 1) as nat,
            ) by {}
            lemma_preorder_all_stable(children, kids, (height - 1) as nat);
        }
        let next = rest + kids.reverse();
        assert(next.reverse() =~= kids + rest.reverse());
        lemma_preorder_all_add(children, kids, rest.reverse(), height);
        assert forall|i: int| 0 <= i < next.len() implies shallow(
            children,
            #[trigger] next[i],
            height,
        ) by {
            if i >= rest.len() {
                assert(next[i] == kids[kids.len() - 1 - (i - rest.len())]);
            }
        }
        let whole = preorder_all(children, turned, height);
        assert(whole =~= seq![top] + (below + preorder_all(children, rest.reverse(), height)));
        assert(steps > 0);
        lemma_walk_goes_down(children, next, height, (steps - 1) as nat);
        assert(named(children, pending, steps) =~= whole);
    }
}

/// A node stands in what lies below `from` as often as there are ways from
/// `from` down to it.
pub proof fn lemma_preorder_ways(
    children: spec_fn(i64) -> Seq<i64>,
    from: i64,
    to: i64,
    height: nat,
)
    ensures
        times(preorder(children, from, height), to) == ways(children, from, to, height),
    decreases height, 0nat,
{
    let here = seq![from];
    assert(times(here, to) == ways(children, from, to, 0)) by {
        assert(here.drop_last() == Seq::<i64>::empty());
        assert(times(here.drop_last(), to) == 0);
    }
    if height > 0 {
        let below = preorder_all(children, children(from), (height - 1) as nat);
        lemma_preorder_all_ways(children, children(from), to, (height - 1) as nat);
        lemma_times_add(here, below, to);
    }
}

/// A node stands in what lies below a row as often as there are ways from
/// the nodes of the row down to it.
pub proof fn lemma_preorder_all_ways(
    children: spec_fn(i64) -> Seq<i64>,
    nodes: Seq<i64>,
    to: i64,
    height: nat,
)
    ensures
        times(preorder_all(children, nodes, height), to) == ways_all(children, nodes, to, height),
    decreases height, nodes.len() + 1,
{
    if nodes.len() > 0 {
        lemma_preorder_ways(children, nodes.first(), to, height);
        lemma_preorder_all_ways(children, nodes.drop_first(), to, height);
        lemma_times_add(
            preorder(children, nodes.first(), height),
            preorder_all(children, nodes.drop_first(), height),
            to,
        );
    }
}

/// The walk is full.
///
/// Let nothing lie more than `height` levels below the root, and let the
/// walk take as many steps as there are nodes to name. Then it names what
/// lies at and below the root, parents first; it names a node as often as
/// there are ways from the root down to it, so in a tree, where one way
/// leads to every node, it names every node exactly once; and it names no
/// node to which no way leads.
pub proof fn lemma_walk_is_full(
    children: spec_fn(i64) -> Seq<i64>,
    root: i64,
    height: nat,
    steps: nat,
    node: i64,
)
    requires
        shallow(children, root, height),
        steps >= preorder(children, root, height).len(),
    ensures
        named(children, seq![root], steps) == preorder(children, root, height),
        times(named(children, seq![root], steps), node) == ways(children, root, node, height),
        named(children, seq![root], steps).contains(node) <==> ways(children, root, node, height)
            > 0,
{
    let pending = seq![root];
    assert(pending.reverse() =~= pending);
    assert(pending.drop_first() == Seq::<i64>::empty());
    assert(preorder_all(children, pending, height) =~= preorder(children, root, height)) by {
        assert(preorder_all(children, pending.drop_first(), height) == Seq::<i64>::empty());
    }
    assert(all_shallow(children, pending, height));
    lemma_walk_goes_down(children, pending, height, steps);
    lemma_preorder_ways(children, root, node, height);
    lemma_times_contains(named(children, seq![root], steps), node);
}

} // verus!
