//! Drives the two animations that a merge starts: the absorbed ball moves
//! into the absorbing one and disappears, and the absorbing ball grows into
//! its new level.

use crate::ball::{Ball, BallState, Entity, EntityId, Growing, MergingInto};
use crate::interp::{lemma_lerp_bounds, lerp, spec_lerp};
use crate::level::lemma_scale_values;
use crate::motion::Vector2;
use crate::store::{lemma_world_ok_insert, world_ok, EntityStore};
use crate::timer::lemma_timer_completion;
use vstd::prelude::*;

verus! {

/// Whether a merging ball can still find its target: the target is alive and
/// carries a body. A target that is itself being absorbed, or that waits to
/// be dropped, does not count.
pub open spec fn target_live(m: Map<EntityId, Entity>, target: EntityId) -> bool {
    m.contains_key(target) && m[target].spec_has_body()
}

/// Where the target of a merging ball is now, if the ball can still find it.
pub open spec fn target_position(m: Map<EntityId, Entity>, e: Entity) -> Option<Vector2> {
    match e.ball.state {
        BallState::MergingInto(mi) => if target_live(m, mi.target) {
            Some(m[mi.target].position)
        } else {
            None
        },
        _ => None,
    }
}

/// What a merge step of `delta` nanoseconds makes of a ball whose target is
/// at `target`. A merging ball's timer advances. If the target is gone or the
/// timer completes on this step, the ball disappears. Otherwise it stands as
/// far along the way from where the merge began to where its target is now as
/// its timer has come. A ball that is not merging stays as it is.
pub open spec fn merge_outcome(e: Entity, target: Option<Vector2>, delta: u64) -> Option<Entity> {
    match e.ball.state {
        BallState::MergingInto(mi) => {
            let timer = mi.timer.spec_tick(delta);
            match target {
                Some(to) => if timer.just_finished {
                    None
                } else {
                    Some(
                        Entity {
                            ball: Ball {
                                level: e.ball.level,
                                state: BallState::MergingInto(MergingInto { timer, ..mi }),
                            },
                            position: mi.from_position.spec_lerp(to, timer.spec_fraction()),
                            ..e
                        },
                    )
                },
                None => None,
            }
        },
        _ => Some(e),
    }
}

/// Whether a ball disappears in a merge step: it is merging, and its timer
/// completes on this step or its target is gone.
pub open spec fn merge_ends(m: Map<EntityId, Entity>, e: Entity, delta: u64) -> bool {
    merge_outcome(e, target_position(m, e), delta).is_none()
}

/// The world after a merge step.
pub open spec fn after_merge_step(m: Map<EntityId, Entity>, delta: u64) -> Map<EntityId, Entity> {
    Map::new(
        |id: EntityId| m.contains_key(id) && !merge_ends(m, m[id], delta),
        |id: EntityId| merge_outcome(m[id], target_position(m, m[id]), delta).unwrap(),
    )
}

/// The world when the balls named in `done` have taken their merge step and
/// the others have not.
spec fn merge_prefix(m: Map<EntityId, Entity>, done: Seq<EntityId>, delta: u64) -> Map<
    EntityId,
    Entity,
> {
    Map::new(
        |id: EntityId| m.contains_key(id) && !(done.contains(id) && merge_ends(m, m[id], delta)),
        |id: EntityId|
            if done.contains(id) {
                merge_outcome(m[id], target_position(m, m[id]), delta).unwrap()
            } else {
                m[id]
            },
    )
}

proof fn lemma_take_step(ids: Seq<EntityId>, k: int)
    requires
        0 <= k < ids.len(),
        ids.no_duplicates(),
    ensures
        !ids.take(k).contains(ids[k]),
        forall|x: EntityId|
            #[trigger] ids.take(k + 1).contains(x) <==> ids.take(k).contains(x) || x == ids[k],
{
    let short = ids.take(k);
    let long = ids.take(k + 1);
    if short.contains(ids[k]) {
        let j = choose|j: int| 0 <= j < short.len() && short[j] == ids[k];
        assert(ids[j] == ids[k]);
    }
    assert forall|x: EntityId| #[trigger] long.contains(x) <==> short.contains(x) || x == ids[k] by {
        if long.contains(x) {
            let j = choose|j: int| 0 <= j < long.len() && long[j] == x;
            if j < k {
                assert(short[j] == x);
            }
        }
        if short.contains(x) {
            let j = choose|j: int| 0 <= j < short.len() && short[j] == x;
            assert(long[j] == x);
        }
        if x == ids[k] {
            assert(long[k] == x);
        }
    }
}

/// Advances one ball by a merge step, given where its target is now, or
/// `None` if it has no live target. Returns `None` if the ball disappears.
pub fn merge_ball(entity: Entity, target: Option<Vector2>, delta: u64) -> (moved: Option<Entity>)
    requires
        entity.wf(),
    ensures
        moved == merge_outcome(entity, target, delta),
        moved matches Some(e) ==> e.wf() && e.spec_is_aiming() == entity.spec_is_aiming()
            && e.spec_has_body() == entity.spec_has_body(),
{
    match entity.ball.state {
        BallState::MergingInto(mi) => {
            let mut timer = mi.timer;
            timer.tick(delta);
            proof {
                lemma_timer_completion(mi.timer, delta);
            }
            match target {
                Some(to) => {
                    if timer.just_finished {
                        None
                    } else {
                        Some(
                            Entity {
                                ball: Ball {
                                    level: entity.ball.level,
                                    state: BallState::MergingInto(MergingInto { timer, ..mi }),
                                },
                                position: mi.from_position.lerp(to, timer.fraction()),
                                ..entity
                            },
                        )
                    }
                },
                None => None,
            }
        },
        _ => Some(entity),
    }
}

/// Where a ball's target is now, if the ball is merging and its target is
/// alive and carries a body.
pub fn find_target(store: &EntityStore, entity: &Entity) -> (target: Option<Vector2>)
    requires
        store.wf(),
    ensures
        target == target_position(store@, *entity),
{
    match entity.ball.state {
        BallState::MergingInto(mi) => match store.get(mi.target) {
            Some(t) => if t.has_body() {
                Some(t.position)
            } else {
                None
            },
            None => None,
        },
        _ => None,
    }
}

/// Runs the merge step of a frame of `delta` nanoseconds. Returns the balls
/// that it removed, oldest first.
pub fn merge_into_system(store: &mut EntityStore, delta: u64) -> (despawned: Vec<EntityId>)
    requires
        old(store).wf(),
    ensures
        final(store).wf(),
        final(store)@ == after_merge_step(old(store)@, delta),
        forall|id: EntityId|
            despawned@.contains(id) <==> old(store)@.contains_key(id) && merge_ends(
                old(store)@,
                old(store)@[id],
                delta,
            ),
        forall|i: int, j: int| 0 <= i < j < despawned@.len() ==> despawned@[i].0 < despawned@[j].0,
        final(store).next_id() == old(store).next_id(),
{
    let ids = store.ids();
    let ghost m0 = store@;
    let mut despawned: Vec<EntityId> = Vec::new();
    let mut k: usize = 0;
    proof {
        assert(store@ =~= merge_prefix(m0, ids@.take(0), delta));
    }
    while k < ids.len()
        invariant
            store.wf(),
            world_ok(m0),
            m0 == old(store)@,
            k <= ids@.len(),
            ids@.no_duplicates(),
            forall|id: EntityId| ids@.contains(id) <==> m0.contains_key(id),
            forall|i: int, j: int| 0 <= i < j < ids@.len() ==> ids@[i].0 < ids@[j].0,
            store@ == merge_prefix(m0, ids@.take(k as int), delta),
            forall|id: EntityId|
                despawned@.contains(id) <==> ids@.take(k as int).contains(id) && merge_ends(
                    m0,
                    m0[id],
                    delta,
                ),
            forall|i: int, j: int|
                0 <= i < j < despawned@.len() ==> despawned@[i].0 < despawned@[j].0,
            store.next_id() == old(store).next_id(),
        decreases ids@.len() - k,
    {
        let id = ids[k];
        let ghost gone = despawned@;
        proof {
            lemma_take_step(ids@, k as int);
            assert(ids@.contains(id));
            assert(m0[id].wf());
            assert(store@.contains_key(id) && store@[id] == m0[id]);
        }
        match store.get(id) {
            Some(entity) => {
                let target = find_target(store, &entity);
                proof {
                    if let BallState::MergingInto(mi) = entity.ball.state {
                        if m0.contains_key(mi.target) {
                            assert(m0[mi.target].wf());
                        }
                    }
                    assert(target == target_position(m0, m0[id]));
                }
                match merge_ball(entity, target, delta) {
                    Some(moved) => {
                        proof {
                            lemma_world_ok_insert(store@, id, moved);
                        }
                        store.put(id, moved);
                    },
                    None => {
                        store.despawn(id);
                        despawned.push(id);
                    },
                }
            },
            None => {},
        }
        let ghost ends = merge_ends(m0, m0[id], delta);
        proof {
            assert(store@ =~= merge_prefix(m0, ids@.take(k + 1), delta));
            assert forall|x: EntityId|
                despawned@.contains(x) <==> ids@.take(k + 1).contains(x) && merge_ends(
                    m0,
                    m0[x],
                    delta,
                ) by {
                if ends {
                    assert(despawned@ == gone.push(id));
                    if gone.contains(x) {
                        let j = choose|j: int| 0 <= j < gone.len() && gone[j] == x;
                        assert(despawned@[j] == x);
                    }
                    if despawned@.contains(x) {
                        let j = choose|j: int| 0 <= j < despawned@.len() && despawned@[j] == x;
                        if j < gone.len() {
                            assert(gone[j] == x);
                        }
                    }
                    assert(despawned@[gone.len() as int] == id);
                }
            }
            assert forall|i: int, j: int| 0 <= i < j < despawned@.len() implies despawned@[i].0
                < despawned@[j].0 by {
                if ends && j == gone.len() {
                    assert(gone[i] == despawned@[i]);
                    assert(gone.contains(despawned@[i]));
                    let short = ids@.take(k as int);
                    assert(short.contains(despawned@[i]));
                    let p = choose|p: int| 0 <= p < short.len() && short[p] == despawned@[i];
                    assert(ids@[p].0 < ids@[k as int].0);
                } else {
                    assert(gone[i].0 < gone[j].0);
                }
            }
        }
        k += 1;
    }
    proof {
        assert(ids@.take(k as int) =~= ids@);
        assert(store@ =~= after_merge_step(m0, delta));
    }
    despawned
}

/// A ball after a grow step. A growing ball's timer advances; its scale and
/// each channel of its color stand as far along the way from those of the
/// level it had to those of its level as the timer has come. On the step
/// that completes the timer the ball is a normal ball again.
pub open spec fn grow_entity(e: Entity, delta: u64) -> Entity {
    match e.ball.state {
        BallState::Growing(g) => {
            let timer = g.timer.spec_tick(delta);
            let t = timer.spec_fraction();
            Entity {
                ball: Ball {
                    level: e.ball.level,
                    state: if timer.just_finished {
                        BallState::Normal
                    } else {
                        BallState::Growing(Growing { timer, ..g })
                    },
                },
                scale: spec_lerp(g.from_level.spec_scale(), e.ball.level.spec_scale(), t) as u32,
                color: g.from_level.spec_color().spec_lerp(e.ball.level.spec_color(), t),
                ..e
            }
        },
        _ => e,
    }
}

/// The world after a grow step.
pub open spec fn after_grow_step(m: Map<EntityId, Entity>, delta: u64) -> Map<EntityId, Entity> {
    Map::new(|id: EntityId| m.contains_key(id), |id: EntityId| grow_entity(m[id], delta))
}

spec fn grow_prefix(m: Map<EntityId, Entity>, done: Seq<EntityId>, delta: u64) -> Map<
    EntityId,
    Entity,
> {
    Map::new(
        |id: EntityId| m.contains_key(id),
        |id: EntityId|
            if done.contains(id) {
                grow_entity(m[id], delta)
            } else {
                m[id]
            },
    )
}

/// Advances one ball by a grow step.
pub fn grow_ball(entity: Entity, delta: u64) -> (grown: Entity)
    requires
        entity.wf(),
    ensures
        grown == grow_entity(entity, delta),
        grown.wf(),
        !grown.spec_is_aiming() || entity.spec_is_aiming(),
{
    match entity.ball.state {
        BallState::Growing(g) => {
            let mut timer = g.timer;
            timer.tick(delta);
            let t = timer.fraction();
            let from_scale = g.from_level.scale();
            let to_scale = entity.ball.level.scale();
            proof {
                lemma_timer_completion(g.timer, delta);
                lemma_lerp_bounds(from_scale as int, to_scale as int, t);
            }
            let scale = lerp(from_scale as i64, to_scale as i64, t) as u32;
            let color = g.from_level.color().lerp(entity.ball.level.color(), t);
            let state = if timer.just_finished {
                BallState::Normal
            } else {
                BallState::Growing(Growing { timer, ..g })
            };
            Entity { ball: Ball { level: entity.ball.level, state }, scale, color, ..entity }
        },
        _ => entity,
    }
}

/// Runs the grow step of a frame of `delta` nanoseconds.
pub fn grow_system(store: &mut EntityStore, delta: u64)
    requires
        old(store).wf(),
    ensures
        final(store).wf(),
        final(store)@ == after_grow_step(old(store)@, delta),
        final(store).next_id() == old(store).next_id(),
{
    let ids = store.ids();
    let ghost m0 = store@;
    let mut k: usize = 0;
    proof {
        assert(store@ =~= grow_prefix(m0, ids@.take(0), delta));
    }
    while k < ids.len()
        invariant
            store.wf(),
            world_ok(m0),
            k <= ids@.len(),
            ids@.no_duplicates(),
            forall|id: EntityId| ids@.contains(id) <==> m0.contains_key(id),
            store@ == grow_prefix(m0, ids@.take(k as int), delta),
            store.next_id() == old(store).next_id(),
        decreases ids@.len() - k,
    {
        let id = ids[k];
        proof {
            lemma_take_step(ids@, k as int);
            assert(ids@.contains(id));
            assert(m0[id].wf());
        }
        match store.get(id) {
            Some(entity) => {
                let grown = grow_ball(entity, delta);
                proof {
                    lemma_world_ok_insert(store@, id, grown);
                }
                store.put(id, grown);
            },
            None => {},
        }
        proof {
            assert(store@ =~= grow_prefix(m0, ids@.take(k + 1), delta));
        }
        k += 1;
    }
    proof {
        assert(ids@.take(k as int) =~= ids@);
        assert(store@ =~= after_grow_step(m0, delta));
    }
}

/// A merging ball whose target is gone, or no longer carries a body, is
/// removed by the next merge step, however much time its timer has left.
pub proof fn lemma_orphan_despawned(m: Map<EntityId, Entity>, id: EntityId, delta: u64)
    requires
        m.contains_key(id),
        m[id].ball.state matches BallState::MergingInto(mi) && !target_live(m, mi.target),
    ensures
        !after_merge_step(m, delta).contains_key(id),
{
}

/// Despawning the target of a merging ball makes the next merge step remove
/// the merging ball too.
pub proof fn lemma_target_despawned(
    m: Map<EntityId, Entity>,
    id: EntityId,
    target: EntityId,
    delta: u64,
)
    requires
        m.contains_key(id),
        m[id].ball.state matches BallState::MergingInto(mi) && mi.target == target,
    ensures
        !after_merge_step(m.remove(target), delta).contains_key(id),
{
}

/// What a merge step does to a merging ball whose target is alive: if the
/// step covers the time that remains, the ball is removed; otherwise it
/// stays, with that much less time remaining, on the line from where the
/// merge began to where the target is now.
pub proof fn lemma_merge_progress(m: Map<EntityId, Entity>, id: EntityId, delta: u64)
    requires
        world_ok(m),
        m.contains_key(id),
        m[id].ball.state matches BallState::MergingInto(mi) && target_live(m, mi.target),
    ensures
        ({
            let after = after_merge_step(m, delta);
            let mi = m[id].ball.state->MergingInto_0;
            &&& delta >= mi.timer.spec_remaining() ==> !after.contains_key(id)
            &&& delta < mi.timer.spec_remaining() ==> {
                &&& after.contains_key(id)
                &&& after[id].wf()
                &&& after[id].ball.level == m[id].ball.level
                &&& after[id].ball.state matches BallState::MergingInto(next)
                &&& next.target == mi.target
                &&& next.from_position == mi.from_position
                &&& next.timer.spec_remaining() == mi.timer.spec_remaining() - delta
                &&& after[id].position == mi.from_position.spec_lerp(
                    m[mi.target].position,
                    next.timer.spec_fraction(),
                )
            }
        }),
{
    let mi = m[id].ball.state->MergingInto_0;
    assert(m[id].wf());
    lemma_timer_completion(mi.timer, delta);
}

/// What a grow step does to a growing ball: if the step covers the time that
/// remains, the ball is a normal ball with exactly the scale and color of its
/// level; otherwise it keeps growing, with that much less time remaining. Its
/// level, position and velocity stay as they are.
pub proof fn lemma_grow_progress(e: Entity, delta: u64)
    requires
        e.wf(),
        e.ball.state is Growing,
    ensures
        ({
            let after = grow_entity(e, delta);
            let g = e.ball.state->Growing_0;
            &&& after.wf()
            &&& after.ball.level == e.ball.level
            &&& after.position == e.position
            &&& after.velocity == e.velocity
            &&& delta >= g.timer.spec_remaining() ==> {
                &&& after.ball.state is Normal
                &&& after.scale == e.ball.level.spec_scale()
                &&& after.color == e.ball.level.spec_color()
            }
            &&& delta < g.timer.spec_remaining() ==> {
                &&& after.ball.state matches BallState::Growing(next)
                &&& next.from_level == g.from_level
                &&& next.timer.spec_remaining() == g.timer.spec_remaining() - delta
            }
        }),
{
    let g = e.ball.state->Growing_0;
    let timer = g.timer.spec_tick(delta);
    let t = timer.spec_fraction();
    lemma_timer_completion(g.timer, delta);
    lemma_scale_values();
    let from = g.from_level.spec_color();
    let to = e.ball.level.spec_color();
    lemma_lerp_bounds(g.from_level.spec_scale(), e.ball.level.spec_scale(), t);
    lemma_lerp_bounds(from.r as int, to.r as int, t);
    lemma_lerp_bounds(from.g as int, to.g as int, t);
    lemma_lerp_bounds(from.b as int, to.b as int, t);
}

/// A merge step leaves every ball that is not merging as it is, and a grow
/// step leaves every ball that is not growing as it is.
pub proof fn lemma_steps_leave_others(m: Map<EntityId, Entity>, id: EntityId, delta: u64)
    requires
        m.contains_key(id),
    ensures
        !(m[id].ball.state is MergingInto) ==> after_merge_step(m, delta).contains_key(id)
            && after_merge_step(m, delta)[id] == m[id],
        !(m[id].ball.state is Growing) ==> after_grow_step(m, delta)[id] == m[id],
        after_grow_step(m, delta).dom() == m.dom(),
{
    assert(after_grow_step(m, delta).dom() =~= m.dom());
}

/// A merge step keeps the world in order.
pub proof fn lemma_merge_step_keeps_order(m: Map<EntityId, Entity>, delta: u64)
    requires
        world_ok(m),
    ensures
        world_ok(after_merge_step(m, delta)),
{
    let after = after_merge_step(m, delta);
    assert forall|id: EntityId| after.contains_key(id) implies (#[trigger] after[id]).wf() by {
        assert(m[id].wf());
        if m[id].ball.state is MergingInto {
            lemma_timer_completion(m[id].ball.state->MergingInto_0.timer, delta);
        }
    }
    assert forall|a: EntityId, b: EntityId|
        after.contains_key(a) && after.contains_key(b) && (#[trigger] after[a]).spec_is_aiming()
            && (#[trigger] after[b]).spec_is_aiming() implies a == b by {
        assert(m[a].spec_is_aiming() && m[b].spec_is_aiming());
    }
}

/// A grow step keeps the world in order.
pub proof fn lemma_grow_step_keeps_order(m: Map<EntityId, Entity>, delta: u64)
    requires
        world_ok(m),
    ensures
        world_ok(after_grow_step(m, delta)),
{
    let after = after_grow_step(m, delta);
    assert forall|id: EntityId| after.contains_key(id) implies (#[trigger] after[id]).wf() by {
        assert(m[id].wf());
        if m[id].ball.state is Growing {
            lemma_grow_progress(m[id], delta);
        }
    }
    assert forall|a: EntityId, b: EntityId|
        after.contains_key(a) && after.contains_key(b) && (#[trigger] after[a]).spec_is_aiming()
            && (#[trigger] after[b]).spec_is_aiming() implies a == b by {
        assert(m[a].spec_is_aiming() && m[b].spec_is_aiming());
    }
}

} // verus!
