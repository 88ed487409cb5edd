//! What holds of whole frames, proved from what the steps promise.

use crate::aim::{
    after_aim, after_drop, lemma_aim_keeps_order, lemma_aiming_unique, lemma_drop_keeps_order,
    spec_dropped,
};
use crate::animate::{
    after_grow_step, after_merge_step, lemma_grow_progress, lemma_grow_step_keeps_order,
    lemma_merge_progress, lemma_merge_step_keeps_order, lemma_steps_leave_others, target_live,
};
use crate::ball::{Ball, BallState, Entity, EntityId};
use crate::collision::{
    absorbed_in, can_merge, lemma_merge_outcome, lemma_merges_account_for_bodies,
    lemma_resolve_all_keeps_names, lemma_resolve_all_keeps_order, lemma_resolve_all_leaves_busy,
    lemma_resolve_keeps_order, merges_of, resolve_all, resolve_one, spec_absorbed, spec_absorbing,
    Collision,
};
use crate::config::Config;
use crate::level::Level;
use crate::spawn::{after_spawn, can_spawn, lemma_spawn_keeps_order};
use crate::store::{names_known, world_ok};
use crate::tick::{after_tick, aimed_world, dropped_world, FrameInput};
use vstd::prelude::*;

verus! {

/// A frame keeps the world in order: in particular, at most one ball is
/// aiming when the frame ends.
pub proof fn lemma_tick_keeps_order(
    m: Map<EntityId, Entity>,
    next: u64,
    config: Config,
    input: FrameInput,
    level: Level,
)
    requires
        world_ok(m),
        level.valid(),
    ensures
        world_ok(after_tick(m, next, config, input, level)),
{
    lemma_spawn_keeps_order(m, next, config, input.pointer, level);
    let m1 = after_spawn(m, next, config, input.pointer, level);
    lemma_aim_keeps_order(m1, input.pointer);
    let m2 = after_aim(m1, input.pointer);
    lemma_drop_keeps_order(m2, input.released);
    let m3 = after_drop(m2, input.released);
    lemma_resolve_all_keeps_order(m3, input.collisions@, config.grow_time);
    let m4 = resolve_all(m3, input.collisions@, config.grow_time);
    lemma_merge_step_keeps_order(m4, input.delta);
    lemma_grow_step_keeps_order(after_merge_step(m4, input.delta), input.delta);
}

/// A merging ball whose target is gone when a frame begins is itself gone
/// when that frame ends, whatever else the frame brings.
pub proof fn lemma_orphan_gone_after_tick(
    m: Map<EntityId, Entity>,
    next: u64,
    config: Config,
    input: FrameInput,
    level: Level,
    id: EntityId,
)
    requires
        world_ok(m),
        level.valid(),
        names_known(m, next),
        m.contains_key(id),
        m[id].ball.state matches BallState::MergingInto(mi) && !m.contains_key(mi.target),
    ensures
        !after_tick(m, next, config, input, level).contains_key(id),
{
    let target = m[id].ball.state->MergingInto_0.target;
    lemma_spawn_keeps_order(m, next, config, input.pointer, level);
    let m1 = after_spawn(m, next, config, input.pointer, level);
    assert(m1.contains_key(id) && m1[id] == m[id]);
    assert(!m1.contains_key(target));
    lemma_aim_keeps_order(m1, input.pointer);
    let m2 = after_aim(m1, input.pointer);
    assert(m2.contains_key(id) && m2[id] == m[id]);
    lemma_drop_keeps_order(m2, input.released);
    let m3 = after_drop(m2, input.released);
    assert(m3.contains_key(id) && m3[id] == m[id]);
    assert(!m3.contains_key(target));
    lemma_resolve_all_keeps_order(m3, input.collisions@, config.grow_time);
    lemma_resolve_all_leaves_busy(m3, input.collisions@, config.grow_time, id);
    let m4 = resolve_all(m3, input.collisions@, config.grow_time);
    assert(!m4.contains_key(target));
    assert(!after_merge_step(m4, input.delta).contains_key(id));
}

/// A frame without collisions, without a release and without a spawn leaves
/// the level and the state of every ball that is not merging or growing as
/// they were.
pub proof fn lemma_quiet_frame(
    m: Map<EntityId, Entity>,
    next: u64,
    config: Config,
    input: FrameInput,
    level: Level,
    id: EntityId,
)
    requires
        world_ok(m),
        level.valid(),
        names_known(m, next),
        input.collisions@.len() == 0,
        !input.released,
        m.contains_key(id),
        m[id].ball.state is Normal || m[id].ball.state is Aiming,
    ensures
        after_tick(m, next, config, input, level).contains_key(id),
        after_tick(m, next, config, input, level)[id].ball == m[id].ball,
{
    lemma_spawn_keeps_order(m, next, config, input.pointer, level);
    let m1 = after_spawn(m, next, config, input.pointer, level);
    assert(m1.contains_key(id) && m1[id] == m[id]);
    let m2 = after_aim(m1, input.pointer);
    let m3 = after_drop(m2, input.released);
    assert(m3.contains_key(id) && m3[id].ball == m[id].ball);
    let m4 = resolve_all(m3, input.collisions@, config.grow_time);
    assert(m4 == m3);
}

/// A merge seen through to its end. Two free balls of one level below the
/// highest collide; a merge step and a grow step that cover the grow time
/// follow. Then the absorbed ball is gone, and the absorbing ball is a normal
/// ball one level up, where it was, with exactly the scale and color of its
/// new level. Every other ball that was aiming or falling freely is as it was.
pub proof fn lemma_merge_completes(
    m: Map<EntityId, Entity>,
    a: EntityId,
    b: EntityId,
    grow_time: u64,
    delta: u64,
)
    requires
        world_ok(m),
        can_merge(m, a, b),
        delta >= grow_time,
    ensures
        ({
            let started = resolve_one(m, Collision { a, b }, grow_time);
            let ended = after_grow_step(after_merge_step(started, delta), delta);
            let from = spec_absorbed(m, a, b);
            let into = spec_absorbing(m, a, b);
            let level = Level((m[a].ball.level.0 + 1) as usize);
            &&& !ended.contains_key(from)
            &&& ended.contains_key(into)
            &&& ended[into].ball == (Ball { level, state: BallState::Normal })
            &&& ended[into].scale == level.spec_scale()
            &&& ended[into].color == level.spec_color()
            &&& ended[into].position == m[into].position
            &&& forall|id: EntityId|
                m.contains_key(id) && id != a && id != b && (m[id].spec_is_normal()
                    || m[id].spec_is_aiming()) ==> ended.contains_key(id) && #[trigger] ended[id]
                    == m[id]
        }),
{
    let started = resolve_one(m, Collision { a, b }, grow_time);
    let merged = after_merge_step(started, delta);
    let from = spec_absorbed(m, a, b);
    let into = spec_absorbing(m, a, b);
    lemma_merge_outcome(m, a, b, grow_time);
    lemma_resolve_keeps_order(m, Collision { a, b }, grow_time);
    assert(started[from].wf() && started[into].wf());
    assert(target_live(started, into));
    lemma_merge_progress(started, from, delta);
    lemma_steps_leave_others(started, into, delta);
    lemma_grow_progress(started[into], delta);
    assert forall|id: EntityId|
        m.contains_key(id) && id != a && id != b && (m[id].spec_is_normal()
            || m[id].spec_is_aiming()) implies after_grow_step(merged, delta).contains_key(id)
        && #[trigger] after_grow_step(merged, delta)[id] == m[id] by {
        assert(started[id] == m[id]);
        lemma_steps_leave_others(started, id, delta);
    }
}

/// A frame brings no unknown name into the world: after it, every name in
/// use lies below the number of the next name, which a spawn has moved on
/// by one.
pub proof fn lemma_tick_keeps_names(
    m: Map<EntityId, Entity>,
    next: u64,
    config: Config,
    input: FrameInput,
    level: Level,
)
    requires
        names_known(m, next),
    ensures
        names_known(
            after_tick(m, next, config, input, level),
            if can_spawn(m, next) {
                (next + 1) as u64
            } else {
                next
            },
        ),
{
    let after: u64 = if can_spawn(m, next) {
        (next + 1) as u64
    } else {
        next
    };
    let m1 = after_spawn(m, next, config, input.pointer, level);
    assert forall|id: EntityId| m1.contains_key(id) implies id.0 < after && ((
    #[trigger] m1[id]).ball.state matches BallState::MergingInto(mi) ==> mi.target.0
        < after) by {
        if m.contains_key(id) && !(can_spawn(m, next) && id == EntityId(next)) {
            assert(m1[id] == m[id]);
            assert(id.0 < next && (m[id].ball.state matches BallState::MergingInto(mi)
                ==> mi.target.0 < next));
        }
    }
    let m2 = after_aim(m1, input.pointer);
    assert forall|id: EntityId| m2.contains_key(id) implies id.0 < after && ((
    #[trigger] m2[id]).ball.state matches BallState::MergingInto(mi) ==> mi.target.0
        < after) by {
        assert(m2[id].ball == m1[id].ball);
    }
    let m3 = after_drop(m2, input.released);
    assert forall|id: EntityId| m3.contains_key(id) implies id.0 < after && ((
    #[trigger] m3[id]).ball.state matches BallState::MergingInto(mi) ==> mi.target.0
        < after) by {
        assert(m2[id].ball.state is MergingInto ==> m3[id] == m2[id]);
    }
    lemma_resolve_all_keeps_names(m3, input.collisions@, config.grow_time, after);
    let m4 = resolve_all(m3, input.collisions@, config.grow_time);
    let m5 = after_merge_step(m4, input.delta);
    assert forall|id: EntityId| m5.contains_key(id) implies id.0 < after && ((
    #[trigger] m5[id]).ball.state matches BallState::MergingInto(mi) ==> mi.target.0
        < after) by {
        assert(m4[id].ball.state matches BallState::MergingInto(mi) ==> mi.target.0 < after);
    }
    let m6 = after_grow_step(m5, input.delta);
    assert forall|id: EntityId| m6.contains_key(id) implies id.0 < after && ((
    #[trigger] m6[id]).ball.state matches BallState::MergingInto(mi) ==> mi.target.0
        < after) by {
        assert(m5[id].ball.state is MergingInto ==> m6[id] == m5[id]);
        assert(m5[id].ball.state matches BallState::MergingInto(mi) ==> mi.target.0 < after);
    }
}

/// The report of a frame accounts for every body. A ball that is alive when
/// the frame ends carries a body if and only if it carried one when the frame
/// began or the frame dropped it, and no merge of the frame has absorbed it.
/// So a collaborator that attaches a body to the dropped ball and takes the
/// body from each absorbed ball keeps the bodies as the states ask.
pub proof fn lemma_report_accounts_for_bodies(
    m: Map<EntityId, Entity>,
    next: u64,
    config: Config,
    input: FrameInput,
    level: Level,
    id: EntityId,
)
    requires
        world_ok(m),
        names_known(m, next),
        level.valid(),
        after_tick(m, next, config, input, level).contains_key(id),
    ensures
        after_tick(m, next, config, input, level)[id].spec_has_body() <==> ((m.contains_key(id)
            && m[id].spec_has_body()) || spec_dropped(
            aimed_world(m, next, config, input, level),
            input.released,
        ) == Some(id)) && !absorbed_in(
            merges_of(
                dropped_world(m, next, config, input, level),
                input.collisions@,
                config.grow_time,
            ),
            id,
        ),
{
    lemma_spawn_keeps_order(m, next, config, input.pointer, level);
    let m1 = after_spawn(m, next, config, input.pointer, level);
    lemma_aim_keeps_order(m1, input.pointer);
    let m2 = after_aim(m1, input.pointer);
    lemma_drop_keeps_order(m2, input.released);
    let m3 = after_drop(m2, input.released);
    lemma_resolve_all_keeps_order(m3, input.collisions@, config.grow_time);
    let m4 = resolve_all(m3, input.collisions@, config.grow_time);
    let m5 = after_merge_step(m4, input.delta);
    assert(m5.contains_key(id) && m4.contains_key(id) && m3.contains_key(id));
    assert(m2.contains_key(id) && m1.contains_key(id));
    if m.contains_key(id) {
        assert(id.0 < next);
        assert(m1[id] == m[id]);
    } else {
        assert(m1[id].spec_is_aiming());
    }
    assert(m2[id].ball == m1[id].ball);
    if m2[id].spec_is_aiming() {
        lemma_aiming_unique(m2, id);
    }
    if spec_dropped(m2, input.released) == Some(id) {
        assert(m2[id].spec_is_aiming());
    }
    lemma_merges_account_for_bodies(m3, input.collisions@, config.grow_time, id);
    assert(m5[id].spec_has_body() == m4[id].spec_has_body());
}

} // verus!
