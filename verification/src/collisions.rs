//! Which bodies touch which: the record that each tracked entity carries,
//! and the events that change it.
use vstd::prelude::*;
use crate::channel::NotificationChannel;
use crate::entity::Entity;
use crate::mirror::{
    MirrorEntity, SceneMirror, lemma_indexed_same_ids, lookup, row_of,
};
use crate::order::{lemma_cleared, lemma_place, lemma_update_ordered};
use crate::tree::{
    MirrorNode, MirrorTree, collision_counts, node_cleared, recents_cleared, tree_collided,
    tree_collided_all,
};

verus! {

/// Whether a contact began or ended.
#[derive(Clone, Copy, Debug, PartialEq, Eq, Structural)]
pub enum CollisionEventType {
    Started,
    Ended,
}

/// One contact event of the engine. Origin and target are instance ids: the
/// origin is the body that reports, the target is the body it met or left.
#[derive(Clone, Copy, Debug)]
pub struct CollisionEvent {
    pub event_type: CollisionEventType,
    pub origin: i64,
    pub target: i64,
}

/// The end of the queue of contact events from which the frame reads.
#[derive(Debug)]
pub struct CollisionEventReader(pub NotificationChannel<CollisionEvent>);

/// Drains the queue of contact events into the events of the frame.
pub fn write_godot_collision_events(events: &mut CollisionEventReader) -> (stream: Vec<
    CollisionEvent,
>)
    ensures
        stream@ == old(events).0@,
        final(events).0@ == Seq::<CollisionEvent>::empty(),
{
    events.0.try_drain()
}

/// The contacts of one entity: the set of partners it touches now and the
/// set of partners whose contact began in the current frame. Each set is
/// kept as a row without repeats, in the order in which the partners came
/// in.
#[derive(Debug)]
pub struct Collisions {
    colliding_entities: Vec<Entity>,
    recent_collisions: Vec<Entity>,
}

/// The mathematical value of a collision record.
pub struct CollisionsView {
    pub colliding: Seq<Entity>,
    pub recent: Seq<Entity>,
}

/// The partners with `target` among them: put behind the others where it
/// was not there yet.
pub open spec fn with_partner(partners: Seq<Entity>, target: Entity) -> Seq<Entity> {
    if partners.contains(target) {
        partners
    } else {
        partners.push(target)
    }
}

/// The test that an entity is another one than `target`.
pub open spec fn other_than(target: Entity) -> spec_fn(Entity) -> bool {
    |e: Entity| e != target
}

impl CollisionsView {
    /// The record without any contact.
    pub open spec fn empty() -> CollisionsView {
        CollisionsView { colliding: Seq::empty(), recent: Seq::empty() }
    }

    /// The record at the start of a frame: the recent contacts are forgotten.
    pub open spec fn cleared(self) -> CollisionsView {
        CollisionsView { colliding: self.colliding, recent: Seq::empty() }
    }

    /// Whether no partner stands twice in either row.
    pub open spec fn is_set(self) -> bool {
        self.colliding.no_duplicates() && self.recent.no_duplicates()
    }

    /// The record after a contact with `target` began: the target is among
    /// the running and among the recent contacts, in each once.
    pub open spec fn started(self, target: Entity) -> CollisionsView {
        CollisionsView {
            colliding: with_partner(self.colliding, target),
            recent: with_partner(self.recent, target),
        }
    }

    /// The record after the contact with `target` ended: the target leaves
    /// the running contacts, the recent ones stay.
    pub open spec fn ended(self, target: Entity) -> CollisionsView {
        CollisionsView {
            colliding: self.colliding.filter(other_than(target)),
            recent: self.recent,
        }
    }

    /// The record after one event that names `target`.
    pub open spec fn after(self, event_type: CollisionEventType, target: Entity) -> CollisionsView {
        match event_type {
            CollisionEventType::Started => self.started(target),
            CollisionEventType::Ended => self.ended(target),
        }
    }
}

impl View for Collisions {
    type V = CollisionsView;

    closed spec fn view(&self) -> CollisionsView {
        CollisionsView { colliding: self.colliding_entities@, recent: self.recent_collisions@ }
    }
}

/// A row without repeats has none after a partner was put among it.
pub proof fn lemma_with_partner_is_set(partners: Seq<Entity>, target: Entity)
    requires
        partners.no_duplicates(),
    ensures
        with_partner(partners, target).no_duplicates(),
{
}

/// A row without repeats has none after a partner was taken out.
pub proof fn lemma_without_is_set(partners: Seq<Entity>, target: Entity)
    requires
        partners.no_duplicates(),
    ensures
        partners.filter(other_than(target)).no_duplicates(),
    decreases partners.len(),
{
    reveal(Seq::filter);
    if partners.len() > 0 {
        let front = partners.drop_last();
        let last = partners.last();
        let kept = front.filter(other_than(target));
        lemma_without_is_set(front, target);
        if last != target {
            if kept.contains(last) {
                front.lemma_filter_contains_rev(other_than(target), last);
                let i = choose|i: int| 0 <= i < front.len() && front[i] == last;
                assert(partners[i] == partners[partners.len() - 1]);
            }
            assert(partners.filter(other_than(target)) == kept.push(last));
        }
    }
}

impl Default for Collisions {
    fn default() -> (record: Self)
        ensures
            record@ == CollisionsView::empty(),
    {
        Collisions { colliding_entities: Vec::new(), recent_collisions: Vec::new() }
    }
}

impl Clone for Collisions {
    fn clone(&self) -> (copy: Self)
        ensures
            copy@ == self@,
    {
        proof {
            use_type_invariant(self);
        }
        Collisions {
            colliding_entities: self.colliding_entities.clone(),
            recent_collisions: self.recent_collisions.clone(),
        }
    }
}

/// Whether `target` is among the partners.
fn holds_partner(partners: &Vec<Entity>, target: Entity) -> (held: bool)
    ensures
        held == partners@.contains(target),
{
    let mut i: usize = 0;
    while i < partners.len()
        invariant
            i <= partners.len(),
            forall|j: int| 0 <= j < i ==> partners@[j] != target,
        decreases partners.len() - i,
    {
        if partners[i] == target {
            return true;
        }
        i = i + 1;
    }
    false
}

impl Collisions {
    /// What holds of every record: no partner stands twice among the running
    /// contacts, and none twice among the recent ones.
    #[verifier::type_invariant]
    pub closed spec fn wf(&self) -> bool {
        self.colliding_entities@.no_duplicates() && self.recent_collisions@.no_duplicates()
    }

    /// The partners that this entity touches now, each once.
    pub fn colliding(&self) -> (partners: &[Entity])
        ensures
            partners@ == self@.colliding,
            partners@.no_duplicates(),
    {
        proof {
            use_type_invariant(self);
        }
        self.colliding_entities.as_slice()
    }

    /// The partners whose contact began in the current frame, each once.
    pub fn recent_collisions(&self) -> (partners: &[Entity])
        ensures
            partners@ == self@.recent,
            partners@.no_duplicates(),
    {
        proof {
            use_type_invariant(self);
        }
        self.recent_collisions.as_slice()
    }

    /// Whether this entity touches `partner` now.
    pub fn is_colliding(&self, partner: Entity) -> (touching: bool)
        ensures
            touching == self@.colliding.contains(partner),
    {
        holds_partner(&self.colliding_entities, partner)
    }

    /// Forgets the recent contacts; the running ones stay.
    pub fn clear_recent(&mut self)
        ensures
            final(self)@ == old(self)@.cleared(),
    {
        proof {
            use_type_invariant(&*self);
        }
        self.recent_collisions = Vec::new();
    }

    /// Records that a contact with `target` began. A partner that is among
    /// the contacts already is not put there again.
    pub fn started(&mut self, target: Entity)
        ensures
            final(self)@ == old(self)@.started(target),
    {
        proof {
            use_type_invariant(&*self);
        }
        if !holds_partner(&self.colliding_entities, target) {
            let mut partners: Vec<Entity> = Vec::new();
            std::mem::swap(&mut partners, &mut self.colliding_entities);
            partners.push(target);
            self.colliding_entities = partners;
        }
        if !holds_partner(&self.recent_collisions, target) {
            let mut partners: Vec<Entity> = Vec::new();
            std::mem::swap(&mut partners, &mut self.recent_collisions);
            partners.push(target);
            self.recent_collisions = partners;
        }
    }

    /// Records that the contact with `target` ended.
    pub fn ended(&mut self, target: Entity)
        ensures
            final(self)@ == old(self)@.ended(target),
    {
        proof {
            use_type_invariant(&*self);
            lemma_without_is_set(self.colliding_entities@, target);
        }
        let ghost keep = other_than(target);
        let mut kept: Vec<Entity> = Vec::new();
        let mut i: usize = 0;
        while i < self.colliding_entities.len()
            invariant
                i <= self.colliding_entities.len(),
                keep == other_than(target),
                kept@ == self.colliding_entities@.take(i as int).filter(keep),
                *self == *old(self),
            decreases self.colliding_entities.len() - i,
        {
            let e = self.colliding_entities[i];
            proof {
                let s = self.colliding_entities@;
                assert(s.take(i + 1).drop_last() == s.take(i as int));
                reveal(Seq::filter);
            }
            if e != target {
                kept.push(e);
            }
            i = i + 1;
        }
        proof {
            let s = self.colliding_entities@;
            assert(s.take(s.len() as int) == s);
        }
        self.colliding_entities = kept;
    }

    /// Applies one event that names `target`.
    pub fn record(&mut self, event_type: CollisionEventType, target: Entity)
        ensures
            final(self)@ == old(self)@.after(event_type, target),
    {
        match event_type {
            CollisionEventType::Started => self.started(target),
            CollisionEventType::Ended => self.ended(target),
        }
    }
}

impl SceneMirror {
    /// Forgets, for every node, the contacts that began in the last frame.
    pub fn clear_recent_collisions(&mut self)
        ensures
            final(self)@ == recents_cleared(old(self)@),
            final(self).fresh() == old(self).fresh(),
    {
        proof {
            use_type_invariant(&*self);
            SceneMirror::lemma_open();
        }
        let ghost row = row_of(self.nodes@);
        let mut nodes: Vec<MirrorEntity> = Vec::new();
        std::mem::swap(&mut nodes, &mut self.nodes);
        let mut i: usize = 0;
        while i < nodes.len()
            invariant
                i <= nodes.len(),
                nodes@.len() == row.len(),
                forall|k: int| 0 <= k < i ==> #[trigger] row_of(nodes@)[k] == node_cleared(row[k]),
                forall|k: int| i <= k < row.len() ==> #[trigger] row_of(nodes@)[k] == row[k],
            decreases nodes.len() - i,
        {
            let ghost before = row_of(nodes@);
            match &mut nodes[i].collisions {
                Some(contacts) => {
                    contacts.clear_recent();
                },
                None => {},
            }
            proof {
                assert(before[i as int] == row[i as int]);
                assert(row_of(nodes@)[i as int] == node_cleared(row[i as int]));
                assert forall|k: int| 0 <= k < row.len() && k != i implies #[trigger] row_of(
                    nodes@,
                )[k] == before[k] by {}
            }
            i = i + 1;
        }
        proof {
            lemma_cleared(row, row_of(nodes@), self.next_entity);
        }
        proof {
            lemma_indexed_same_ids(self.places@, row, row_of(nodes@));
        }
        self.nodes = nodes;
    }

    /// Takes up one contact event. The event counts when the mirror holds
    /// both bodies and the origin keeps track of its contacts; else it is
    /// left aside.
    pub fn collision(&mut self, event: &CollisionEvent) -> (counted: bool)
        ensures
            final(self)@ == tree_collided(old(self)@, *event),
            counted == collision_counts(old(self)@, *event),
            final(self).fresh() == old(self).fresh(),
    {
        proof {
            use_type_invariant(&*self);
            SceneMirror::lemma_open();
        }
        let ghost row = row_of(self.nodes@);
        let len = self.nodes.len();
        let target = match lookup(&self.nodes, &self.places, event.target) {
            Some(j) => {
                proof {
                    lemma_place(row, j as int);
                }
                self.nodes[j].entity
            },
            None => {
                return false;
            },
        };
        let i = match lookup(&self.nodes, &self.places, event.origin) {
            Some(i) => i,
            None => {
                return false;
            },
        };
        proof {
            lemma_place(row, i as int);
        }
        if self.nodes[i].collisions.is_none() {
            return false;
        }
        let ghost after = row[i as int].collisions->Some_0.after(event.event_type, target);
        let ghost record = MirrorNode { collisions: Some(after), ..row[i as int] };
        proof {
            lemma_update_ordered(row, self.next_entity, i as int, record);
        }
        let mut nodes: Vec<MirrorEntity> = Vec::new();
        std::mem::swap(&mut nodes, &mut self.nodes);
        match &mut nodes[i].collisions {
            Some(contacts) => {
                contacts.record(event.event_type, target);
            },
            None => {},
        }
        assert(row_of(nodes@) =~= row.update(i as int, record));
        proof {
            lemma_indexed_same_ids(self.places@, row, row_of(nodes@));
        }
        self.nodes = nodes;
        true
    }

    /// The bookkeeping of contacts for one frame: the recent contacts of the
    /// last frame are forgotten, then the events of this frame are taken up
    /// in their order.
    pub fn update_godot_collisions(&mut self, events: &Vec<CollisionEvent>)
        ensures
            final(self)@ == tree_collided_all(recents_cleared(old(self)@), events@),
            final(self).fresh() == old(self).fresh(),
    {
        self.clear_recent_collisions();
        let ghost start = self@;
        let mut i: usize = 0;
        while i < events.len()
            invariant
                i <= events.len(),
                self@ == tree_collided_all(start, events@.take(i as int)),
                self.fresh() == old(self).fresh(),
            decreases events.len() - i,
        {
            proof {
                assert(events@.take(i + 1).drop_last() == events@.take(i as int));
            }
            self.collision(&events[i]);
            i = i + 1;
        }
        proof {
            assert(events@.take(events@.len() as int) == events@);
        }
    }
}

/// Whether an event is the start of a contact of `origin` that counts.
pub open spec fn begins(t: MirrorTree, origin: i64, event: CollisionEvent) -> bool {
    &&& event.event_type == CollisionEventType::Started
    &&& event.origin == origin
    &&& collision_counts(t, event)
}

/// The partners whose contact with `origin` began in this frame, each once,
/// in the order in which they came in.
pub open spec fn recent_after(t: MirrorTree, origin: i64, events: Seq<CollisionEvent>) -> Seq<
    Entity,
>
    decreases events.len(),
{
    if events.len() == 0 {
        Seq::empty()
    } else {
        let front = recent_after(t, origin, events.drop_last());
        if begins(t, origin, events.last()) {
            with_partner(front, t[events.last().target].entity)
        } else {
            front
        }
    }
}

/// Whether an event that counts is about the contact of `origin` with
/// `partner`.
pub open spec fn concerns(t: MirrorTree, origin: i64, partner: Entity, event: CollisionEvent)
    -> bool {
    &&& event.origin == origin
    &&& collision_counts(t, event)
    &&& t[event.target].entity == partner
}

/// Whether `origin` touches `partner` after the events of a frame: the last
/// event about the two decides, and where there is none, what held before.
pub open spec fn touching_after(
    t: MirrorTree,
    origin: i64,
    partner: Entity,
    events: Seq<CollisionEvent>,
    before: bool,
) -> bool
    decreases events.len(),
{
    if events.len() == 0 {
        before
    } else if concerns(t, origin, partner, events.last()) {
        events.last().event_type == CollisionEventType::Started
    } else {
        touching_after(t, origin, partner, events.drop_last(), before)
    }
}

/// After the recent contacts were forgotten, no record holds one.
pub proof fn lemma_recent_starts_empty(t: MirrorTree)
    ensures
        forall|id: i64|
            #![trigger recents_cleared(t)[id]]
            recents_cleared(t).contains_key(id) ==> (recents_cleared(t)[id].collisions matches Some(
                c,
            ) ==> c.recent == Seq::<Entity>::empty()),
        recents_cleared(t).dom() == t.dom(),
{
}

/// Contact events change nothing but contacts: the mirror holds the same
/// nodes, each with its entity, and the same nodes keep track of contacts.
pub proof fn lemma_collided_keeps(t: MirrorTree, events: Seq<CollisionEvent>)
    ensures
        tree_collided_all(t, events).dom() == t.dom(),
        forall|id: i64|
            #![trigger tree_collided_all(t, events)[id]]
            t.contains_key(id) ==> tree_collided_all(t, events)[id] == (MirrorNode {
                collisions: tree_collided_all(t, events)[id].collisions,
                ..t[id]
            }) && (tree_collided_all(t, events)[id].collisions is Some) == (t[id].collisions
                is Some),
    decreases events.len(),
{
    if events.len() > 0 {
        let front = tree_collided_all(t, events.drop_last());
        lemma_collided_keeps(t, events.drop_last());
        let r = tree_collided_all(t, events);
        assert(r.dom() =~= t.dom());
        assert forall|id: i64| #![trigger r[id]] t.contains_key(id) implies r[id] == (MirrorNode {
            collisions: r[id].collisions,
            ..t[id]
        }) && (r[id].collisions is Some) == (t[id].collisions is Some) by {
            assert(front[id] == (MirrorNode { collisions: front[id].collisions, ..t[id] }));
        }
    }
}

/// A partner is in a row after a partner was put among it if and only if
/// it was in the row or is the one that was put.
proof fn lemma_with_partner_contains(s: Seq<Entity>, x: Entity, e: Entity)
    ensures
        with_partner(s, x).contains(e) <==> (s.contains(e) || e == x),
{
    if !s.contains(x) {
        if s.contains(e) {
            let i = choose|i: int| 0 <= i < s.len() && s[i] == e;
            assert(s.push(x)[i] == e);
        }
        if e == x {
            assert(s.push(x)[s.len() as int] == e);
        }
        if s.push(x).contains(e) {
            let i = choose|i: int| 0 <= i < s.push(x).len() && s.push(x)[i] == e;
            if i < s.len() {
                assert(s[i] == e);
            }
        }
    }
}

/// A partner is in a row after `x` was taken out if and only if it was in
/// the row and is not `x`.
proof fn lemma_without_contains(s: Seq<Entity>, x: Entity, e: Entity)
    ensures
        s.filter(other_than(x)).contains(e) <==> (s.contains(e) && e != x),
{
    let kept = s.filter(other_than(x));
    if kept.contains(e) {
        s.lemma_filter_contains_rev(other_than(x), e);
        let i = choose|i: int| 0 <= i < kept.len() && kept[i] == e;
        s.lemma_filter_pred(other_than(x), i);
    }
    if s.contains(e) && e != x {
        let i = choose|i: int| 0 <= i < s.len() && s[i] == e;
        s.lemma_filter_contains(other_than(x), i);
    }
}

/// The contacts of a frame.
///
/// Let `origin` keep track of its contacts. After the bookkeeping of a
/// frame, its recent contacts are exactly the partners of the starts that
/// counted in this frame, each once; and it touches a partner if and only if
/// the last event about the two was a start, or, where the frame had no
/// event about the two, if it touched the partner before. No partner stands
/// twice among the recent contacts, and none twice among the running ones if
/// none did before.
pub proof fn lemma_frame_contacts(t: MirrorTree, origin: i64, events: Seq<CollisionEvent>)
    requires
        t.contains_key(origin),
        t[origin].collisions is Some,
    ensures
        ({
            let after = tree_collided_all(recents_cleared(t), events);
            &&& after.contains_key(origin)
            &&& after[origin].collisions matches Some(c)
            &&& c.recent == recent_after(t, origin, events)
            &&& c.recent.no_duplicates()
            &&& t[origin].collisions->Some_0.colliding.no_duplicates()
                ==> c.colliding.no_duplicates()
            &&& forall|partner: Entity|
                #![trigger c.colliding.contains(partner)]
                c.colliding.contains(partner) == touching_after(
                    t,
                    origin,
                    partner,
                    events,
                    t[origin].collisions->Some_0.colliding.contains(partner),
                )
        }),
    decreases events.len(),
{
    let start = recents_cleared(t);
    let after = tree_collided_all(start, events);
    lemma_collided_keeps(start, events);
    if events.len() > 0 {
        let front = events.drop_last();
        let last = events.last();
        let mid = tree_collided_all(start, front);
        lemma_collided_keeps(start, front);
        lemma_frame_contacts(t, origin, front);
        assert(collision_counts(mid, last) == collision_counts(t, last));
        let held = mid[origin].collisions->Some_0;
        if collision_counts(t, last) && last.origin == origin {
            assert(mid[last.target].entity == t[last.target].entity);
            lemma_with_partner_is_set(held.recent, t[last.target].entity);
            if held.colliding.no_duplicates() {
                lemma_with_partner_is_set(held.colliding, t[last.target].entity);
                lemma_without_is_set(held.colliding, t[last.target].entity);
            }
        }
        let c = after[origin].collisions->Some_0;
        assert forall|partner: Entity|
            #![trigger c.colliding.contains(partner)]
            c.colliding.contains(partner) == touching_after(
                t,
                origin,
                partner,
                events,
                t[origin].collisions->Some_0.colliding.contains(partner),
            ) by {
            if collision_counts(t, last) && last.origin == origin {
                let target = t[last.target].entity;
                assert(mid[last.target].entity == target);
                lemma_with_partner_contains(held.colliding, target, partner);
                lemma_without_contains(held.colliding, target, partner);
            }
        }
    }
}

/// The recent contacts of a frame hold a partner if and only if the frame
/// had a start that counted for this origin and this partner.
pub proof fn lemma_recent_members(
    t: MirrorTree,
    origin: i64,
    events: Seq<CollisionEvent>,
    partner: Entity,
)
    ensures
        recent_after(t, origin, events).contains(partner) <==> exists|k: int|
            0 <= k < events.len() && begins(t, origin, #[trigger] events[k])
                && t[events[k].target].entity == partner,
    decreases events.len(),
{
    if events.len() == 0 {
        assert(!recent_after(t, origin, events).contains(partner));
    } else {
        let front = events.drop_last();
        let last = events.last();
        lemma_recent_members(t, origin, front, partner);
        if begins(t, origin, last) {
            lemma_with_partner_contains(recent_after(t, origin, front), t[last.target].entity, partner);
        }
        if recent_after(t, origin, events).contains(partner) {
            if recent_after(t, origin, front).contains(partner) {
                let k = choose|k: int|
                    0 <= k < front.len() && begins(t, origin, #[trigger] front[k])
                        && t[front[k].target].entity == partner;
                assert(events[k] == front[k]);
            } else {
                assert(begins(t, origin, events[events.len() - 1]));
            }
        }
        if exists|k: int|
            0 <= k < events.len() && begins(t, origin, #[trigger] events[k])
                && t[events[k].target].entity == partner {
            let k = choose|k: int|
                0 <= k < events.len() && begins(t, origin, #[trigger] events[k])
                    && t[events[k].target].entity == partner;
            if k < events.len() - 1 {
                assert(front[k] == events[k]);
            }
        }
    }
}

} // verus!
