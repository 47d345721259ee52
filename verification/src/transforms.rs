//! Transforms as the engine holds them, and the rules that decide which
//! transform is copied in which direction.
//!
//! A transform is a list of single-precision numbers. Each number is held as
//! its IEEE 754 bit pattern, so that a transform travels through the mirror
//! unchanged, bit for bit. Two transforms are compared as the engine compares
//! them: number by number, by value and without tolerance.
use vstd::prelude::*;
use crate::mirror::{
    MirrorEntity, SceneMirror, indexed, lemma_indexed_same_ids, lookup, row_of,
};
use crate::order::{lemma_mapped, lemma_place, lemma_update_ordered, ordered, tree_of};
use crate::tree::{
    MirrorNode, MirrorTree, node_settled, node_settled_2d, pull_due, pull_due_2d, tree_pulled,
    tree_pulled_2d, tree_pulled_all, tree_pulled_all_2d, tree_pushes, tree_pushes_2d,
    tree_settled, tree_settled_2d, tree_transformed, tree_transformed_2d,
};

verus! {

/// Whether the bit pattern stands for "not a number".
pub open spec fn is_nan(bits: u32) -> bool {
    bits % 0x8000_0000 > 0x7f80_0000
}

/// Whether the bit pattern stands for zero, of either sign.
pub open spec fn is_zero(bits: u32) -> bool {
    bits % 0x8000_0000 == 0
}

/// Equality of two numbers by value: a number that is not a number equals
/// nothing, not even itself, and the two zeros are equal.
pub open spec fn number_eq(a: u32, b: u32) -> bool {
    &&& !is_nan(a)
    &&& !is_nan(b)
    &&& (a == b || (is_zero(a) && is_zero(b)))
}

/// Equality of two lists of numbers: the same length, and equal number by
/// number.
pub open spec fn numbers_eq(a: Seq<u32>, b: Seq<u32>) -> bool {
    &&& a.len() == b.len()
    &&& forall|i: int| 0 <= i < a.len() ==> number_eq(#[trigger] a[i], b[i])
}

/// Whether no number of the list is "not a number".
pub open spec fn all_numbers(a: Seq<u32>) -> bool {
    forall|i: int| 0 <= i < a.len() ==> !is_nan(#[trigger] a[i])
}

/// Compares two numbers by value.
pub fn number_equals(a: u32, b: u32) -> (equal: bool)
    ensures
        equal == number_eq(a, b),
{
    let ma: u32 = a % 0x8000_0000;
    let mb: u32 = b % 0x8000_0000;
    ma <= 0x7f80_0000 && mb <= 0x7f80_0000 && (a == b || (ma == 0 && mb == 0))
}

/// Compares two lists of numbers of one length by value.
pub fn numbers_equal<const N: usize>(a: &[u32; N], b: &[u32; N]) -> (equal: bool)
    ensures
        equal == numbers_eq(a@, b@),
{
    let mut i: usize = 0;
    while i < N
        invariant
            i <= N,
            a@.len() == N,
            b@.len() == N,
            forall|j: int| 0 <= j < i ==> number_eq(#[trigger] a@[j], b@[j]),
        decreases N - i,
    {
        if !number_equals(a[i], b[i]) {
            return false;
        }
        i = i + 1;
    }
    true
}

/// A value equals itself as soon as none of its numbers is "not a number".
pub proof fn lemma_numbers_eq_reflexive(a: Seq<u32>)
    requires
        all_numbers(a),
    ensures
        numbers_eq(a, a),
{
}

/// The transform of a node in space: the nine numbers of its basis, row by
/// row, and the three numbers of its origin.
#[derive(Clone, Copy, Debug)]
pub struct Transform {
    pub basis: [u32; 9],
    pub origin: [u32; 3],
}

/// The transform of a node in the plane: the two vectors of its basis and its
/// origin, two numbers each.
#[derive(Clone, Copy, Debug)]
pub struct Transform2D {
    pub a: [u32; 2],
    pub b: [u32; 2],
    pub origin: [u32; 2],
}

impl Transform {
    /// Equality by value, as the engine compares two transforms.
    pub open spec fn same_as(self, other: Transform) -> bool {
        numbers_eq(self.basis@, other.basis@) && numbers_eq(self.origin@, other.origin@)
    }

    /// Whether none of the twelve numbers is "not a number".
    pub open spec fn is_numeric(self) -> bool {
        all_numbers(self.basis@) && all_numbers(self.origin@)
    }

    /// Compares two transforms by value.
    pub fn equals(&self, other: &Transform) -> (equal: bool)
        ensures
            equal == self.same_as(*other),
    {
        numbers_equal(&self.basis, &other.basis) && numbers_equal(&self.origin, &other.origin)
    }
}

impl Transform2D {
    /// Equality by value, as the engine compares two transforms.
    pub open spec fn same_as(self, other: Transform2D) -> bool {
        &&& numbers_eq(self.a@, other.a@)
        &&& numbers_eq(self.b@, other.b@)
        &&& numbers_eq(self.origin@, other.origin@)
    }

    /// Whether none of the six numbers is "not a number".
    pub open spec fn is_numeric(self) -> bool {
        all_numbers(self.a@) && all_numbers(self.b@) && all_numbers(self.origin@)
    }

    /// Compares two transforms by value.
    pub fn equals(&self, other: &Transform2D) -> (equal: bool)
        ensures
            equal == self.same_as(*other),
    {
        numbers_equal(&self.a, &other.a) && numbers_equal(&self.b, &other.b) && numbers_equal(
            &self.origin,
            &other.origin,
        )
    }
}

/// The transform in space that the engine shows for a node, or that is to
/// be written to it.
#[derive(Clone, Copy, Debug)]
pub struct LiveTransform {
    pub object_id: i64,
    pub transform: Transform,
}

impl SceneMirror {
    /// Sets the transform in space of a node, and marks it as written. A node
    /// that the mirror does not hold, or that has no such transform, is left
    /// alone.
    pub fn set_transform(&mut self, id: i64, transform: Transform) -> (set: bool)
        ensures
            final(self)@ == tree_transformed(old(self)@, id, transform),
            set == (old(self)@.contains_key(id) && old(self)@[id].transform is Some),
            final(self).fresh() == old(self).fresh(),
    {
        proof {
            use_type_invariant(&*self);
            SceneMirror::lemma_open();
        }
        let ghost row = row_of(self.nodes@);
        let i = match lookup(&self.nodes, &self.places, id) {
            Some(i) => i,
            None => {
                return false;
            },
        };
        proof {
            lemma_place(row, i as int);
        }
        if self.nodes[i].transform.is_none() {
            return false;
        }
        let ghost record = MirrorNode {
            transform: Some(transform),
            transform_changed: true,
            ..row[i as int]
        };
        proof {
            lemma_update_ordered(row, self.next_entity, i as int, record);
        }
        let mut nodes: Vec<MirrorEntity> = Vec::new();
        std::mem::swap(&mut nodes, &mut self.nodes);
        nodes[i].transform = Some(transform);
        nodes[i].transform_changed = true;
        assert(row_of(nodes@) =~= row.update(i as int, record));
        proof {
            lemma_indexed_same_ids(self.places@, row, row_of(nodes@));
        }
        self.nodes = nodes;
        true
    }

    /// Pulls one reading of the engine into the mirror: the reading is
    /// copied when the mirror holds a transform in space for the node and the
    /// reading differs from it by value.
    pub fn pull_transform(&mut self, reading: &LiveTransform) -> (copied: bool)
        ensures
            final(self)@ == tree_pulled(old(self)@, *reading),
            copied == pull_due(old(self)@, *reading),
            final(self).fresh() == old(self).fresh(),
    {
        proof {
            use_type_invariant(&*self);
            SceneMirror::lemma_open();
        }
        let ghost row = row_of(self.nodes@);
        let i = match lookup(&self.nodes, &self.places, reading.object_id) {
            Some(i) => i,
            None => {
                return false;
            },
        };
        proof {
            lemma_place(row, i as int);
        }
        let differs = match &self.nodes[i].transform {
            Some(held) => !held.equals(&reading.transform),
            None => false,
        };
        if differs {
            self.set_transform(reading.object_id, reading.transform);
        }
        differs
    }

    /// The pull of a frame, before the logic of the game runs: every reading
    /// of the engine that differs from what the mirror holds is copied into
    /// the mirror.
    pub fn pre_update_godot_transforms(&mut self, live: &Vec<LiveTransform>)
        ensures
            final(self)@ == tree_pulled_all(old(self)@, live@),
            final(self).fresh() == old(self).fresh(),
    {
        let mut i: usize = 0;
        while i < live.len()
            invariant
                i <= live.len(),
                self@ == tree_pulled_all(old(self)@, live@.take(i as int)),
                self.fresh() == old(self).fresh(),
            decreases live.len() - i,
        {
            proof {
                assert(live@.take(i + 1).drop_last() == live@.take(i as int));
            }
            self.pull_transform(&live[i]);
            i = i + 1;
        }
        proof {
            assert(live@.take(live@.len() as int) == live@);
        }
    }

    /// The push of a frame, after the logic of the game has run. For every
    /// reading of the engine it is decided whether the transform that the
    /// mirror holds is written to the engine: only one that was written in
    /// the mirror since the last push, and that differs by value from what the
    /// engine shows. After that no transform counts as written.
    pub fn post_update_godot_transforms(&mut self, live: &Vec<LiveTransform>) -> (writes: Vec<
        LiveTransform,
    >)
        ensures
            writes@ == tree_pushes(old(self)@, live@),
            final(self)@ == tree_settled(old(self)@),
            final(self).fresh() == old(self).fresh(),
    {
        proof {
            use_type_invariant(&*self);
            SceneMirror::lemma_open();
        }
        let ghost row = row_of(self.nodes@);
        let ghost t = self@;
        let mut writes: Vec<LiveTransform> = Vec::new();
        let mut i: usize = 0;
        while i < live.len()
            invariant
                i <= live.len(),
                *self == *old(self),
                row == row_of(self.nodes@),
                ordered(row, self.next_entity),
                indexed(self.places@, row),
                t == tree_of(row),
                writes@ == tree_pushes(t, live@.take(i as int)),
            decreases live.len() - i,
        {
            proof {
                assert(live@.take(i + 1).drop_last() == live@.take(i as int));
            }
            let reading = &live[i];
            match lookup(&self.nodes, &self.places, reading.object_id) {
                Some(k) => {
                    proof {
                        lemma_place(row, k as int);
                    }
                    if self.nodes[k].transform_changed {
                        match &self.nodes[k].transform {
                            Some(held) => {
                                if !held.equals(&reading.transform) {
                                    writes.push(
                                        LiveTransform {
                                            object_id: reading.object_id,
                                            transform: *held,
                                        },
                                    );
                                }
                            },
                            None => {},
                        }
                    }
                },
                None => {},
            }
            i = i + 1;
        }
        proof {
            assert(live@.take(live@.len() as int) == live@);
        }
        let mut nodes: Vec<MirrorEntity> = Vec::new();
        std::mem::swap(&mut nodes, &mut self.nodes);
        let mut k: usize = 0;
        while k < nodes.len()
            invariant
                k <= nodes.len(),
                nodes@.len() == row.len(),
                forall|j: int| 0 <= j < k ==> #[trigger] row_of(nodes@)[j] == node_settled(row[j]),
                forall|j: int| k <= j < row.len() ==> #[trigger] row_of(nodes@)[j] == row[j],
            decreases nodes.len() - k,
        {
            let ghost before = row_of(nodes@);
            nodes[k].transform_changed = false;
            proof {
                assert(before[k as int] == row[k as int]);
                assert(row_of(nodes@)[k as int] == node_settled(row[k as int]));
                assert forall|j: int| 0 <= j < row.len() && j != k implies #[trigger] row_of(
                    nodes@,
                )[j] == before[j] by {}
            }
            k = k + 1;
        }
        proof {
            lemma_mapped(row, row_of(nodes@), self.next_entity, |n: MirrorNode| node_settled(n));
        }
        proof {
            lemma_indexed_same_ids(self.places@, row, row_of(nodes@));
        }
        self.nodes = nodes;
        writes
    }
}

/// The transform in the plane that the engine shows for a node, or that is to
/// be written to it.
#[derive(Clone, Copy, Debug)]
pub struct LiveTransform2D {
    pub object_id: i64,
    pub transform: Transform2D,
}

impl SceneMirror {
    /// Sets the transform in the plane of a node, and marks it as written. A node
    /// that the mirror does not hold, or that has no such transform, is left
    /// alone.
    pub fn set_transform_2d(&mut self, id: i64, transform: Transform2D) -> (set: bool)
        ensures
            final(self)@ == tree_transformed_2d(old(self)@, id, transform),
            set == (old(self)@.contains_key(id) && old(self)@[id].transform_2d is Some),
            final(self).fresh() == old(self).fresh(),
    {
        proof {
            use_type_invariant(&*self);
            SceneMirror::lemma_open();
        }
        let ghost row = row_of(self.nodes@);
        let i = match lookup(&self.nodes, &self.places, id) {
            Some(i) => i,
            None => {
                return false;
            },
        };
        proof {
            lemma_place(row, i as int);
        }
        if self.nodes[i].transform_2d.is_none() {
            return false;
        }
        let ghost record = MirrorNode {
            transform_2d: Some(transform),
            transform_2d_changed: true,
            ..row[i as int]
        };
        proof {
            lemma_update_ordered(row, self.next_entity, i as int, record);
        }
        let mut nodes: Vec<MirrorEntity> = Vec::new();
        std::mem::swap(&mut nodes, &mut self.nodes);
        nodes[i].transform_2d = Some(transform);
        nodes[i].transform_2d_changed = true;
        assert(row_of(nodes@) =~= row.update(i as int, record));
        proof {
            lemma_indexed_same_ids(self.places@, row, row_of(nodes@));
        }
        self.nodes = nodes;
        true
    }

    /// Pulls one reading of the engine into the mirror: the reading is
    /// copied when the mirror holds a transform in the plane for the node and the
    /// reading differs from it by value.
    pub fn pull_transform_2d(&mut self, reading: &LiveTransform2D) -> (copied: bool)
        ensures
            final(self)@ == tree_pulled_2d(old(self)@, *reading),
            copied == pull_due_2d(old(self)@, *reading),
            final(self).fresh() == old(self).fresh(),
    {
        proof {
            use_type_invariant(&*self);
            SceneMirror::lemma_open();
        }
        let ghost row = row_of(self.nodes@);
        let i = match lookup(&self.nodes, &self.places, reading.object_id) {
            Some(i) => i,
            None => {
                return false;
            },
        };
        proof {
            lemma_place(row, i as int);
        }
        let differs = match &self.nodes[i].transform_2d {
            Some(held) => !held.equals(&reading.transform),
            None => false,
        };
        if differs {
            self.set_transform_2d(reading.object_id, reading.transform);
        }
        differs
    }

    /// The pull of a frame, before the logic of the game runs: every reading
    /// of the engine that differs from what the mirror holds is copied into
    /// the mirror.
    pub fn pre_update_godot_transforms_2d(&mut self, live: &Vec<LiveTransform2D>)
        ensures
            final(self)@ == tree_pulled_all_2d(old(self)@, live@),
            final(self).fresh() == old(self).fresh(),
    {
        let mut i: usize = 0;
        while i < live.len()
            invariant
                i <= live.len(),
                self@ == tree_pulled_all_2d(old(self)@, live@.take(i as int)),
                self.fresh() == old(self).fresh(),
            decreases live.len() - i,
        {
            proof {
                assert(live@.take(i + 1).drop_last() == live@.take(i as int));
            }
            self.pull_transform_2d(&live[i]);
            i = i + 1;
        }
        proof {
            assert(live@.take(live@.len() as int) == live@);
        }
    }

    /// The push of a frame, after the logic of the game has run. For every
    /// reading of the engine it is decided whether the transform that the
    /// mirror holds is written to the engine: only one that was written in
    /// the mirror since the last push, and that differs by value from what the
    /// engine shows. After that no transform counts as written.
    pub fn post_update_godot_transforms_2d(&mut self, live: &Vec<LiveTransform2D>) -> (writes: Vec<
        LiveTransform2D,
    >)
        ensures
            writes@ == tree_pushes_2d(old(self)@, live@),
            final(self)@ == tree_settled_2d(old(self)@),
            final(self).fresh() == old(self).fresh(),
    {
        proof {
            use_type_invariant(&*self);
            SceneMirror::lemma_open();
        }
        let ghost row = row_of(self.nodes@);
        let ghost t = self@;
        let mut writes: Vec<LiveTransform2D> = Vec::new();
        let mut i: usize = 0;
        while i < live.len()
            invariant
                i <= live.len(),
                *self == *old(self),
                row == row_of(self.nodes@),
                ordered(row, self.next_entity),
                indexed(self.places@, row),
                t == tree_of(row),
                writes@ == tree_pushes_2d(t, live@.take(i as int)),
            decreases live.len() - i,
        {
            proof {
                assert(live@.take(i + 1).drop_last() == live@.take(i as int));
            }
            let reading = &live[i];
            match lookup(&self.nodes, &self.places, reading.object_id) {
                Some(k) => {
                    proof {
                        lemma_place(row, k as int);
                    }
                    if self.nodes[k].transform_2d_changed {
                        match &self.nodes[k].transform_2d {
                            Some(held) => {
                                if !held.equals(&reading.transform) {
                                    writes.push(
                                        LiveTransform2D {
                                            object_id: reading.object_id,
                                            transform: *held,
                                        },
                                    );
                                }
                            },
                            None => {},
                        }
                    }
                },
                None => {},
            }
            i = i + 1;
        }
        proof {
            assert(live@.take(live@.len() as int) == live@);
        }
        let mut nodes: Vec<MirrorEntity> = Vec::new();
        std::mem::swap(&mut nodes, &mut self.nodes);
        let mut k: usize = 0;
        while k < nodes.len()
            invariant
                k <= nodes.len(),
                nodes@.len() == row.len(),
                forall|j: int| 0 <= j < k ==> #[trigger] row_of(nodes@)[j] == node_settled_2d(row[j]),
                forall|j: int| k <= j < row.len() ==> #[trigger] row_of(nodes@)[j] == row[j],
            decreases nodes.len() - k,
        {
            let ghost before = row_of(nodes@);
            nodes[k].transform_2d_changed = false;
            proof {
                assert(before[k as int] == row[k as int]);
                assert(row_of(nodes@)[k as int] == node_settled_2d(row[k as int]));
                assert forall|j: int| 0 <= j < row.len() && j != k implies #[trigger] row_of(
                    nodes@,
                )[j] == before[j] by {}
            }
            k = k + 1;
        }
        proof {
            lemma_mapped(row, row_of(nodes@), self.next_entity, |n: MirrorNode| node_settled_2d(n));
        }
        proof {
            lemma_indexed_same_ids(self.places@, row, row_of(nodes@));
        }
        self.nodes = nodes;
        writes
    }
}

/// Whether the engine shows, for every reading, the value that the mirror
/// holds: no reading is due to be pulled.
pub open spec fn engine_agrees(t: MirrorTree, readings: Seq<LiveTransform>) -> bool {
    forall|i: int| 0 <= i < readings.len() ==> !pull_due(t, #[trigger] readings[i])
}

/// No transform is written twice.
///
/// Take the mirror as a push leaves it, and let the next frame find the
/// engine as the mirror holds it, value by value. If nothing sets a
/// transform in that frame, its pull copies nothing and its push writes
/// nothing.
pub proof fn lemma_no_redundant_writes(pushed: MirrorTree, readings: Seq<LiveTransform>)
    requires
        engine_agrees(tree_settled(pushed), readings),
    ensures
        tree_pulled_all(tree_settled(pushed), readings) == tree_settled(pushed),
        tree_pushes(tree_settled(pushed), readings) == Seq::<LiveTransform>::empty(),
    decreases readings.len(),
{
    if readings.len() > 0 {
        let front = readings.drop_last();
        assert forall|i: int| 0 <= i < front.len() implies !pull_due(
            tree_settled(pushed),
            #[trigger] front[i],
        ) by {
            assert(front[i] == readings[i]);
        }
        lemma_no_redundant_writes(pushed, front);
        assert(!pull_due(tree_settled(pushed), readings[readings.len() - 1]));
    }
}

/// Whether the engine shows, for every reading, the value that the mirror
/// holds: no reading is due to be pulled.
pub open spec fn engine_agrees_2d(t: MirrorTree, readings: Seq<LiveTransform2D>) -> bool {
    forall|i: int| 0 <= i < readings.len() ==> !pull_due_2d(t, #[trigger] readings[i])
}

/// No transform is written twice.
///
/// Take the mirror as a push leaves it, and let the next frame find the
/// engine as the mirror holds it, value by value. If nothing sets a
/// transform in that frame, its pull copies nothing and its push writes
/// nothing.
pub proof fn lemma_no_redundant_writes_2d(pushed: MirrorTree, readings: Seq<LiveTransform2D>)
    requires
        engine_agrees_2d(tree_settled_2d(pushed), readings),
    ensures
        tree_pulled_all_2d(tree_settled_2d(pushed), readings) == tree_settled_2d(pushed),
        tree_pushes_2d(tree_settled_2d(pushed), readings) == Seq::<LiveTransform2D>::empty(),
    decreases readings.len(),
{
    if readings.len() > 0 {
        let front = readings.drop_last();
        assert forall|i: int| 0 <= i < front.len() implies !pull_due_2d(
            tree_settled_2d(pushed),
            #[trigger] front[i],
        ) by {
            assert(front[i] == readings[i]);
        }
        lemma_no_redundant_writes_2d(pushed, front);
        assert(!pull_due_2d(tree_settled_2d(pushed), readings[readings.len() - 1]));
    }
}

} // verus!
