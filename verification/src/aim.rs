//! The one ball that waits to be dropped: it follows the pointer, and a
//! release turns it into a falling body.

use crate::ball::{Ball, BallState, Entity, EntityId};
use crate::motion::Vector2;
use crate::store::{has_aiming, lemma_world_ok_insert, world_ok, EntityStore};
use vstd::prelude::*;

verus! {

/// The aiming ball of a world, if it has one.
pub open spec fn spec_aiming(m: Map<EntityId, Entity>) -> Option<EntityId> {
    if has_aiming(m) {
        Some(choose|id: EntityId| m.contains_key(id) && (#[trigger] m[id]).spec_is_aiming())
    } else {
        None
    }
}

/// In a world in order, a ball that is aiming is the aiming ball.
pub proof fn lemma_aiming_unique(m: Map<EntityId, Entity>, id: EntityId)
    requires
        world_ok(m),
        m.contains_key(id),
        m[id].spec_is_aiming(),
    ensures
        spec_aiming(m) == Some(id),
{
    let c = choose|c: EntityId| m.contains_key(c) && (#[trigger] m[c]).spec_is_aiming();
    assert(m[c].spec_is_aiming() && m[id].spec_is_aiming());
}

/// Finds the aiming ball.
pub fn find_aiming(store: &EntityStore) -> (r: Option<EntityId>)
    requires
        store.wf(),
    ensures
        r == spec_aiming(store@),
        r matches Some(id) ==> store@.contains_key(id) && store@[id].spec_is_aiming(),
{
    let ids = store.ids();
    let mut k: usize = 0;
    while k < ids.len()
        invariant
            store.wf(),
            k <= ids@.len(),
            forall|id: EntityId| ids@.contains(id) <==> store@.contains_key(id),
            forall|j: int| 0 <= j < k ==> !(#[trigger] store@[ids@[j]]).spec_is_aiming(),
        decreases ids@.len() - k,
    {
        let id = ids[k];
        assert(ids@.contains(id));
        match store.get(id) {
            Some(entity) => {
                if entity.is_aiming() {
                    proof {
                        lemma_aiming_unique(store@, id);
                    }
                    return Some(id);
                }
            },
            None => {},
        }
        k += 1;
    }
    proof {
        if has_aiming(store@) {
            let c = choose|c: EntityId|
                store@.contains_key(c) && (#[trigger] store@[c]).spec_is_aiming();
            assert(ids@.contains(c));
            let j = choose|j: int| 0 <= j < ids@.len() && ids@[j] == c;
            assert(!store@[ids@[j]].spec_is_aiming());
        }
    }
    None
}

/// An aiming ball takes the pointer's horizontal position and keeps its
/// height. Without a pointer it stays where it is.
pub open spec fn aim_entity(e: Entity, pointer: Option<Vector2>) -> Entity {
    match pointer {
        Some(p) => if e.spec_is_aiming() {
            Entity { position: Vector2 { x: p.x, y: e.position.y }, ..e }
        } else {
            e
        },
        None => e,
    }
}

/// The world after the aiming ball has followed the pointer.
pub open spec fn after_aim(m: Map<EntityId, Entity>, pointer: Option<Vector2>) -> Map<
    EntityId,
    Entity,
> {
    Map::new(|id: EntityId| m.contains_key(id), |id: EntityId| aim_entity(m[id], pointer))
}

/// Moves the aiming ball under the pointer.
pub fn aim_system(store: &mut EntityStore, pointer: Option<Vector2>)
    requires
        old(store).wf(),
    ensures
        final(store).wf(),
        final(store)@ == after_aim(old(store)@, pointer),
        final(store).next_id() == old(store).next_id(),
{
    let aiming = find_aiming(store);
    match (aiming, pointer) {
        (Some(id), Some(p)) => {
            match store.get(id) {
                Some(entity) => {
                    let moved = Entity {
                        position: Vector2 { x: p.x, y: entity.position.y },
                        ..entity
                    };
                    proof {
                        lemma_world_ok_insert(store@, id, moved);
                        assert forall|other: EntityId| store@.contains_key(other) && other
                            != id implies !(#[trigger] store@[other]).spec_is_aiming() by {
                            if store@[other].spec_is_aiming() {
                                lemma_aiming_unique(store@, other);
                            }
                        }
                        assert(store@.insert(id, moved) =~= after_aim(store@, pointer));
                    }
                    store.put(id, moved);
                },
                None => {},
            }
        },
        _ => {
            proof {
                assert forall|other: EntityId| store@.contains_key(other) implies aim_entity(
                    #[trigger] store@[other],
                    pointer,
                ) == store@[other] by {
                    if store@[other].spec_is_aiming() {
                        lemma_aiming_unique(store@, other);
                    }
                }
                assert(store@ =~= after_aim(store@, pointer));
            }
        },
    }
}

/// On release an aiming ball becomes a normal ball, which carries a body.
pub open spec fn drop_entity(e: Entity, released: bool) -> Entity {
    if released && e.spec_is_aiming() {
        Entity { ball: Ball { level: e.ball.level, state: BallState::Normal }, ..e }
    } else {
        e
    }
}

/// The world after the release signal has been looked at.
pub open spec fn after_drop(m: Map<EntityId, Entity>, released: bool) -> Map<EntityId, Entity> {
    Map::new(|id: EntityId| m.contains_key(id), |id: EntityId| drop_entity(m[id], released))
}

/// The ball that a release drops.
pub open spec fn spec_dropped(m: Map<EntityId, Entity>, released: bool) -> Option<EntityId> {
    if released {
        spec_aiming(m)
    } else {
        None
    }
}

/// Drops the aiming ball if the release signal is set. The ball returned is
/// the one that now needs a physical body.
pub fn drop_system(store: &mut EntityStore, released: bool) -> (dropped: Option<EntityId>)
    requires
        old(store).wf(),
    ensures
        final(store).wf(),
        final(store)@ == after_drop(old(store)@, released),
        dropped == spec_dropped(old(store)@, released),
        released ==> !has_aiming(final(store)@),
        final(store).next_id() == old(store).next_id(),
{
    if !released {
        assert(store@ =~= after_drop(store@, released));
        return None;
    }
    let aiming = find_aiming(store);
    match aiming {
        Some(id) => {
            match store.get(id) {
                Some(entity) => {
                    let falling = Entity {
                        ball: Ball { level: entity.ball.level, state: BallState::Normal },
                        ..entity
                    };
                    proof {
                        lemma_world_ok_insert(store@, id, falling);
                        assert forall|other: EntityId| store@.contains_key(other) && other
                            != id implies !(#[trigger] store@[other]).spec_is_aiming() by {
                            if store@[other].spec_is_aiming() {
                                lemma_aiming_unique(store@, other);
                            }
                        }
                        assert(store@.insert(id, falling) =~= after_drop(store@, released));
                    }
                    store.put(id, falling);
                },
                None => {},
            }
        },
        None => {
            assert(store@ =~= after_drop(store@, released));
        },
    }
    aiming
}

/// Following the pointer keeps the world in order and changes no ball that is
/// not aiming.
pub proof fn lemma_aim_keeps_order(m: Map<EntityId, Entity>, pointer: Option<Vector2>)
    requires
        world_ok(m),
    ensures
        world_ok(after_aim(m, pointer)),
        after_aim(m, pointer).dom() == m.dom(),
        forall|id: EntityId|
            m.contains_key(id) && !m[id].spec_is_aiming() ==> #[trigger] after_aim(m, pointer)[id]
                == m[id],
{
    let after = after_aim(m, pointer);
    assert(after.dom() =~= m.dom());
    assert forall|id: EntityId| after.contains_key(id) implies (#[trigger] after[id]).wf() by {
        assert(m[id].wf());
    }
    assert forall|a: EntityId, b: EntityId|
        after.contains_key(a) && after.contains_key(b) && (#[trigger] after[a]).spec_is_aiming()
            && (#[trigger] after[b]).spec_is_aiming() implies a == b by {
        assert(m[a].spec_is_aiming() && m[b].spec_is_aiming());
    }
}

/// Looking at the release signal keeps the world in order and changes no
/// ball that is not aiming. After a release no ball is aiming.
pub proof fn lemma_drop_keeps_order(m: Map<EntityId, Entity>, released: bool)
    requires
        world_ok(m),
    ensures
        world_ok(after_drop(m, released)),
        after_drop(m, released).dom() == m.dom(),
        released ==> !has_aiming(after_drop(m, released)),
        forall|id: EntityId|
            m.contains_key(id) && !m[id].spec_is_aiming() ==> #[trigger] after_drop(m, released)[id]
                == m[id],
{
    let after = after_drop(m, released);
    assert(after.dom() =~= m.dom());
    assert forall|id: EntityId| after.contains_key(id) implies (#[trigger] after[id]).wf() by {
        assert(m[id].wf());
    }
    assert forall|a: EntityId, b: EntityId|
        after.contains_key(a) && after.contains_key(b) && (#[trigger] after[a]).spec_is_aiming()
            && (#[trigger] after[b]).spec_is_aiming() implies a == b by {
        assert(m[a].spec_is_aiming() && m[b].spec_is_aiming());
    }
}

} // verus!
