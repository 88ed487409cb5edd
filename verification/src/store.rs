//! The set of live balls, each under a name that is never reused.

use crate::ball::{BallState, Entity, EntityId};
use crate::level::Level;
use crate::motion::{Vector2, Velocity};
use vstd::prelude::*;
use vstd::seq_lib::seq_to_set_is_finite;

verus! {

/// A world is in order when every ball in it is well formed and at most one
/// of them is aiming.
pub open spec fn world_ok(m: Map<EntityId, Entity>) -> bool {
    &&& forall|id: EntityId| m.contains_key(id) ==> (#[trigger] m[id]).wf()
    &&& forall|a: EntityId, b: EntityId|
        m.contains_key(a) && m.contains_key(b) && (#[trigger] m[a]).spec_is_aiming() && (
        #[trigger] m[b]).spec_is_aiming() ==> a == b
}

/// Every name in use in a world, a live ball's own or the target of a merging
/// ball, is one that has been given out: it lies below `next`, the number of
/// the next name.
pub open spec fn names_known(m: Map<EntityId, Entity>, next: u64) -> bool {
    forall|id: EntityId|
        m.contains_key(id) ==> id.0 < next && ((#[trigger] m[id]).ball.state matches BallState::MergingInto(
            mi,
        ) ==> mi.target.0 < next)
}

/// Whether some ball of the world is aiming.
pub open spec fn has_aiming(m: Map<EntityId, Entity>) -> bool {
    exists|id: EntityId| m.contains_key(id) && (#[trigger] m[id]).spec_is_aiming()
}

/// Putting a well-formed ball into a world keeps the world in order, as long
/// as the ball does not become a second aiming ball.
pub proof fn lemma_world_ok_insert(m: Map<EntityId, Entity>, id: EntityId, entity: Entity)
    requires
        world_ok(m),
        entity.wf(),
        entity.spec_is_aiming() ==> !has_aiming(m) || (m.contains_key(id)
            && m[id].spec_is_aiming()),
    ensures
        world_ok(m.insert(id, entity)),
{
    let m2 = m.insert(id, entity);
    assert forall|a: EntityId| m2.contains_key(a) implies (#[trigger] m2[a]).wf() by {
        if a != id {
            assert(m[a].wf());
        }
    }
    assert forall|a: EntityId, b: EntityId|
        m2.contains_key(a) && m2.contains_key(b) && (#[trigger] m2[a]).spec_is_aiming() && (
        #[trigger] m2[b]).spec_is_aiming() implies a == b by {
        if a != id && b != id {
            assert(m[a].spec_is_aiming() && m[b].spec_is_aiming());
        } else if a != id {
            assert(m[a].spec_is_aiming());
            if m.contains_key(id) && m[id].spec_is_aiming() {
                assert(m[id].spec_is_aiming() && m[a].spec_is_aiming());
            }
        } else if b != id {
            assert(m[b].spec_is_aiming());
            if m.contains_key(id) && m[id].spec_is_aiming() {
                assert(m[id].spec_is_aiming() && m[b].spec_is_aiming());
            }
        }
    }
}

#[derive(Debug, Clone, Copy)]
struct Slot {
    id: EntityId,
    entity: Entity,
}

spec fn has_id(s: Seq<Slot>, id: EntityId) -> bool {
    exists|i: int| 0 <= i < s.len() && (#[trigger] s[i]).id == id
}

spec fn index_of(s: Seq<Slot>, id: EntityId) -> int {
    choose|i: int| 0 <= i < s.len() && (#[trigger] s[i]).id == id
}

spec fn increasing(s: Seq<Slot>) -> bool {
    forall|i: int, j: int| 0 <= i < j < s.len() ==> (#[trigger] s[i]).id.0 < (#[trigger] s[j]).id.0
}

spec fn slots_view(s: Seq<Slot>) -> Map<EntityId, Entity> {
    Map::new(|id: EntityId| has_id(s, id), |id: EntityId| s[index_of(s, id)].entity)
}

spec fn slot_ids(s: Seq<Slot>) -> Seq<EntityId> {
    Seq::new(s.len(), |i: int| s[i].id)
}

proof fn lemma_index(s: Seq<Slot>, i: int)
    requires
        increasing(s),
        0 <= i < s.len(),
    ensures
        has_id(s, s[i].id),
        index_of(s, s[i].id) == i,
        slots_view(s).contains_key(s[i].id),
        slots_view(s)[s[i].id] == s[i].entity,
{
    let j = index_of(s, s[i].id);
    assert(0 <= j < s.len() && s[j].id == s[i].id);
    if j < i {
        assert(s[j].id.0 < s[i].id.0);
    }
    if i < j {
        assert(s[i].id.0 < s[j].id.0);
    }
}

proof fn lemma_view_update(s: Seq<Slot>, i: int, entity: Entity)
    requires
        increasing(s),
        0 <= i < s.len(),
    ensures
        increasing(s.update(i, Slot { id: s[i].id, entity })),
        slots_view(s.update(i, Slot { id: s[i].id, entity })) == slots_view(s).insert(
            s[i].id,
            entity,
        ),
{
    let s2 = s.update(i, Slot { id: s[i].id, entity });
    assert forall|a: int, b: int| 0 <= a < b < s2.len() implies (#[trigger] s2[a]).id.0 < (
    #[trigger] s2[b]).id.0 by {
        assert(s[a].id.0 < s[b].id.0);
    }
    let target = slots_view(s).insert(s[i].id, entity);
    lemma_index(s, i);
    assert forall|id: EntityId| slots_view(s2).contains_key(id) <==> target.contains_key(
        id,
    ) by {
        if has_id(s2, id) {
            let j = index_of(s2, id);
            assert(s[j].id == id);
        }
        if has_id(s, id) {
            let j = index_of(s, id);
            assert(s2[j].id == id);
        }
    }
    assert forall|id: EntityId| slots_view(s2).contains_key(id) implies slots_view(s2)[id]
        == target[id] by {
        let j = index_of(s2, id);
        lemma_index(s2, j);
        assert(s[j].id == id);
        lemma_index(s, j);
    }
    assert(slots_view(s2) =~= target);
}

proof fn lemma_view_push(s: Seq<Slot>, slot: Slot)
    requires
        increasing(s),
        forall|i: int| 0 <= i < s.len() ==> (#[trigger] s[i]).id.0 < slot.id.0,
    ensures
        increasing(s.push(slot)),
        !slots_view(s).contains_key(slot.id),
        slots_view(s.push(slot)) == slots_view(s).insert(slot.id, slot.entity),
{
    let s2 = s.push(slot);
    assert forall|a: int, b: int| 0 <= a < b < s2.len() implies (#[trigger] s2[a]).id.0 < (
    #[trigger] s2[b]).id.0 by {
        if b < s.len() {
            assert(s[a].id.0 < s[b].id.0);
        } else {
            assert(s[a].id.0 < slot.id.0);
        }
    }
    if has_id(s, slot.id) {
        let j = index_of(s, slot.id);
        assert(s[j].id.0 < slot.id.0);
    }
    let target = slots_view(s).insert(slot.id, slot.entity);
    lemma_index(s2, s.len() as int);
    assert forall|id: EntityId| slots_view(s2).contains_key(id) <==> target.contains_key(
        id,
    ) by {
        if has_id(s2, id) {
            let j = index_of(s2, id);
            if j < s.len() {
                assert(s[j].id == id);
            }
        }
        if has_id(s, id) {
            let j = index_of(s, id);
            assert(s2[j].id == id);
        }
    }
    assert forall|id: EntityId| slots_view(s2).contains_key(id) implies slots_view(s2)[id]
        == target[id] by {
        let j = index_of(s2, id);
        lemma_index(s2, j);
        if j < s.len() {
            assert(s[j].id == id);
            lemma_index(s, j);
        }
    }
    assert(slots_view(s2) =~= target);
}

proof fn lemma_view_remove(s: Seq<Slot>, i: int)
    requires
        increasing(s),
        0 <= i < s.len(),
    ensures
        increasing(s.remove(i)),
        slots_view(s.remove(i)) == slots_view(s).remove(s[i].id),
{
    let s2 = s.remove(i);
    assert forall|a: int, b: int| 0 <= a < b < s2.len() implies (#[trigger] s2[a]).id.0 < (
    #[trigger] s2[b]).id.0 by {
        let a1 = if a < i {
            a
        } else {
            a + 1
        };
        let b1 = if b < i {
            b
        } else {
            b + 1
        };
        assert(s[a1].id.0 < s[b1].id.0);
    }
    let target = slots_view(s).remove(s[i].id);
    lemma_index(s, i);
    assert forall|id: EntityId| slots_view(s2).contains_key(id) <==> target.contains_key(
        id,
    ) by {
        if has_id(s2, id) {
            let j = index_of(s2, id);
            let j1 = if j < i {
                j
            } else {
                j + 1
            };
            assert(s[j1].id == id);
            lemma_index(s, j1);
        }
        if has_id(s, id) && id != s[i].id {
            let j = index_of(s, id);
            let j2 = if j < i {
                j
            } else {
                j - 1
            };
            assert(s2[j2].id == id);
        }
    }
    assert forall|id: EntityId| slots_view(s2).contains_key(id) implies slots_view(s2)[id]
        == target[id] by {
        let j = index_of(s2, id);
        lemma_index(s2, j);
        let j1 = if j < i {
            j
        } else {
            j + 1
        };
        assert(s[j1].id == id);
        lemma_index(s, j1);
    }
    assert(slots_view(s2) =~= target);
}

proof fn lemma_ids(s: Seq<Slot>)
    requires
        increasing(s),
    ensures
        slot_ids(s).no_duplicates(),
        slot_ids(s).to_set() == slots_view(s).dom(),
        slots_view(s).dom().finite(),
        slots_view(s).dom().len() == s.len(),
{
    let ids = slot_ids(s);
    assert forall|a: int, b: int| 0 <= a < ids.len() && 0 <= b < ids.len() && a != b implies ids[a]
        != ids[b] by {
        if a < b {
            assert(s[a].id.0 < s[b].id.0);
        } else {
            assert(s[b].id.0 < s[a].id.0);
        }
    }
    assert forall|id: EntityId| ids.to_set().contains(id) <==> slots_view(s).dom().contains(
        id,
    ) by {
        if ids.contains(id) {
            let j = choose|j: int| 0 <= j < ids.len() && ids[j] == id;
            assert(s[j].id == id);
        }
        if has_id(s, id) {
            let j = index_of(s, id);
            assert(ids[j] == id);
        }
    }
    assert(ids.to_set() =~= slots_view(s).dom());
    seq_to_set_is_finite(ids);
    ids.unique_seq_to_set();
}

/// The authoritative set of live balls. It owns their creation and their
/// destruction, and hands every new ball a name that no ball had before.
#[derive(Debug)]
pub struct EntityStore {
    slots: Vec<Slot>,
    next: u64,
}

impl View for EntityStore {
    type V = Map<EntityId, Entity>;

    /// The live balls by name.
    closed spec fn view(&self) -> Map<EntityId, Entity> {
        slots_view(self.slots@)
    }
}

impl EntityStore {
    /// The number that the next ball's name will carry.
    pub closed spec fn next_id(&self) -> u64 {
        self.next
    }

    /// The names are kept in the order in which they were given out, and all
    /// lie below the next one.
    pub closed spec fn inv(&self) -> bool {
        &&& increasing(self.slots@)
        &&& forall|i: int| 0 <= i < self.slots@.len() ==> (#[trigger] self.slots@[i]).id.0 < self.next
    }

    pub open spec fn wf(&self) -> bool {
        self.inv() && world_ok(self@) && names_known(self@, self.next_id())
    }

    /// No live ball carries the next name or a later one, and the live balls
    /// are finitely many.
    pub proof fn lemma_names(&self)
        requires
            self.inv(),
        ensures
            forall|id: EntityId| self@.contains_key(id) ==> id.0 < self.next_id(),
            self@.dom().finite(),
    {
        lemma_ids(self.slots@);
        assert forall|id: EntityId| self@.contains_key(id) implies id.0 < self.next_id() by {
            let j = index_of(self.slots@, id);
            assert(self.slots@[j].id == id);
        }
    }

    /// An empty store.
    pub fn new() -> (store: EntityStore)
        ensures
            store.wf(),
            store@ == Map::<EntityId, Entity>::empty(),
            store.next_id() == 0,
    {
        let store = EntityStore { slots: Vec::new(), next: 0 };
        assert(store@ =~= Map::<EntityId, Entity>::empty());
        store
    }

    fn find(&self, id: EntityId) -> (r: Option<usize>)
        requires
            self.inv(),
        ensures
            match r {
                Some(i) => i < self.slots@.len() && self.slots@[i as int].id == id
                    && self@.contains_key(id) && self@[id] == self.slots@[i as int].entity,
                None => !self@.contains_key(id),
            },
    {
        let mut i: usize = 0;
        while i < self.slots.len()
            invariant
                self.inv(),
                i <= self.slots@.len(),
                forall|k: int| 0 <= k < i ==> (#[trigger] self.slots@[k]).id != id,
            decreases self.slots@.len() - i,
        {
            if self.slots[i].id.0 == id.0 {
                proof {
                    lemma_index(self.slots@, i as int);
                }
                return Some(i);
            }
            i += 1;
        }
        None
    }

    /// How many balls are alive.
    pub fn len(&self) -> (n: usize)
        requires
            self.wf(),
        ensures
            self@.dom().finite(),
            n == self@.dom().len(),
    {
        proof {
            lemma_ids(self.slots@);
        }
        self.slots.len()
    }

    /// Whether a ball of that name is alive.
    pub fn contains(&self, id: EntityId) -> (r: bool)
        requires
            self.wf(),
        ensures
            r == self@.contains_key(id),
    {
        self.find(id).is_some()
    }

    /// The ball of that name, if it is alive.
    pub fn get(&self, id: EntityId) -> (r: Option<Entity>)
        requires
            self.wf(),
        ensures
            r == (if self@.contains_key(id) {
                Some(self@[id])
            } else {
                None
            }),
    {
        match self.find(id) {
            Some(i) => Some(self.slots[i].entity),
            None => None,
        }
    }

    /// The names of the live balls, oldest first.
    pub fn ids(&self) -> (ids: Vec<EntityId>)
        requires
            self.wf(),
        ensures
            forall|id: EntityId| ids@.contains(id) <==> self@.contains_key(id),
            forall|i: int, j: int| 0 <= i < j < ids@.len() ==> ids@[i].0 < ids@[j].0,
            ids@.no_duplicates(),
            ids@.len() == self@.dom().len(),
    {
        let mut ids: Vec<EntityId> = Vec::new();
        let mut i: usize = 0;
        while i < self.slots.len()
            invariant
                i <= self.slots@.len(),
                ids@ == slot_ids(self.slots@).subrange(0, i as int),
            decreases self.slots@.len() - i,
        {
            ids.push(self.slots[i].id);
            i += 1;
            assert(ids@ =~= slot_ids(self.slots@).subrange(0, i as int));
        }
        proof {
            assert(ids@ =~= slot_ids(self.slots@));
            lemma_ids(self.slots@);
            assert forall|id: EntityId| ids@.contains(id) <==> self@.contains_key(id) by {
                assert(ids@.to_set().contains(id) <==> self@.dom().contains(id));
            }
            assert forall|i: int, j: int| 0 <= i < j < ids@.len() implies ids@[i].0 < ids@[j].0 by {
                assert(self.slots@[i].id.0 < self.slots@[j].id.0);
            }
        }
        ids
    }

    /// Replaces the ball of a live name.
    pub(crate) fn put(&mut self, id: EntityId, entity: Entity)
        requires
            old(self).wf(),
            old(self)@.contains_key(id),
            world_ok(old(self)@.insert(id, entity)),
            entity.ball.state matches BallState::MergingInto(mi) ==> mi.target.0 < old(
                self,
            ).next_id(),
        ensures
            final(self).wf(),
            final(self)@ == old(self)@.insert(id, entity),
            final(self).next_id() == old(self).next_id(),
    {
        match self.find(id) {
            Some(i) => {
                proof {
                    lemma_view_update(self.slots@, i as int, entity);
                }
                self.slots[i] = Slot { id, entity };
            },
            None => {},
        }
    }

    /// Adds a ball under a new name. Names run out after `u64::MAX` balls;
    /// from then on nothing is added.
    pub(crate) fn create(&mut self, entity: Entity) -> (r: Option<EntityId>)
        requires
            old(self).wf(),
            world_ok(old(self)@.insert(EntityId(old(self).next_id()), entity)),
            !(entity.ball.state is MergingInto),
        ensures
            final(self).wf(),
            !old(self)@.contains_key(EntityId(old(self).next_id())),
            old(self).next_id() < u64::MAX ==> r == Some(EntityId(old(self).next_id()))
                && final(self)@ == old(self)@.insert(EntityId(old(self).next_id()), entity)
                && final(self).next_id() == old(self).next_id() + 1,
            old(self).next_id() == u64::MAX ==> r.is_none() && final(self)@ == old(self)@
                && final(self).next_id() == old(self).next_id(),
    {
        proof {
            self.lemma_names();
        }
        if self.next == u64::MAX {
            return None;
        }
        let id = EntityId(self.next);
        proof {
            lemma_view_push(self.slots@, Slot { id, entity });
        }
        self.slots.push(Slot { id, entity });
        self.next = self.next + 1;
        Some(id)
    }

    /// Adds a ball of the given level that falls from rest at `position`.
    /// Nothing is added once the names have run out.
    pub fn insert(&mut self, level: Level, position: Vector2) -> (r: Option<EntityId>)
        requires
            old(self).wf(),
            level.valid(),
        ensures
            final(self).wf(),
            !old(self)@.contains_key(EntityId(old(self).next_id())),
            old(self).next_id() < u64::MAX ==> r == Some(EntityId(old(self).next_id()))
                && final(self)@ == old(self)@.insert(
                EntityId(old(self).next_id()),
                Entity::spec_at_rest(level, BallState::Normal, position),
            ) && final(self).next_id() == old(self).next_id() + 1,
            old(self).next_id() == u64::MAX ==> r.is_none() && final(self)@ == old(self)@
                && final(self).next_id() == old(self).next_id(),
    {
        let entity = Entity::at_rest(level, BallState::Normal, position);
        proof {
            lemma_world_ok_insert(self@, EntityId(self.next_id()), entity);
        }
        self.create(entity)
    }

    /// Takes over what the physics collaborator reports of a body. A ball
    /// without a body, or a name that is gone, is left alone.
    pub fn set_motion(&mut self, id: EntityId, position: Vector2, velocity: Velocity) -> (applied:
        bool)
        requires
            old(self).wf(),
        ensures
            final(self).wf(),
            applied == (old(self)@.contains_key(id) && old(self)@[id].spec_has_body()),
            final(self)@ == (if applied {
                old(self)@.insert(id, Entity { position, velocity, ..old(self)@[id] })
            } else {
                old(self)@
            }),
            final(self).next_id() == old(self).next_id(),
    {
        match self.get(id) {
            Some(entity) => {
                if entity.has_body() {
                    let moved = Entity { position, velocity, ..entity };
                    proof {
                        lemma_world_ok_insert(self@, id, moved);
                    }
                    self.put(id, moved);
                    true
                } else {
                    false
                }
            },
            None => false,
        }
    }

    /// Removes a ball, in whatever state it is. Other balls that refer to it
    /// find it gone when they next look.
    pub fn despawn(&mut self, id: EntityId) -> (removed: bool)
        requires
            old(self).wf(),
        ensures
            final(self).wf(),
            removed == old(self)@.contains_key(id),
            final(self)@ == old(self)@.remove(id),
            final(self).next_id() == old(self).next_id(),
    {
        match self.find(id) {
            Some(i) => {
                proof {
                    lemma_view_remove(self.slots@, i as int);
                }
                self.slots.remove(i);
                true
            },
            None => {
                assert(self@ =~= self@.remove(id));
                false
            },
        }
    }
}

} // verus!
