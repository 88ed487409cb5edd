//! One frame of the game: the six steps in their fixed order.
//!
//! Spawn, aim, drop, resolve collisions, animate merges, animate growth. Each
//! step sees the world that the step before it left.

use crate::aim::{after_aim, after_drop, aim_system, drop_system, find_aiming, spec_dropped};
use crate::animate::{after_grow_step, after_merge_step, grow_system, merge_ends, merge_into_system};
use crate::ball::{Entity, EntityId};
use crate::collision::{ball_collision_system, merges_of, resolve_all, Collision, Merge};
use crate::config::Config;
use crate::level::Level;
use crate::motion::Vector2;
use crate::spawn::{
    after_spawn, ceiling, lemma_ceiling_valid, spawn_ball, spawn_ceiling, spec_spawned,
};
use crate::store::EntityStore;
use vstd::prelude::*;

verus! {

/// What the collaborators report for one frame.
#[derive(Debug, PartialEq, Eq)]
pub struct FrameInput {
    /// Where the pointer is in the world, if it is over the window.
    pub pointer: Option<Vector2>,
    /// Whether the primary button is pressed.
    pub released: bool,
    /// The collisions that began since the last frame, in the order in which
    /// physics reported them.
    pub collisions: Vec<Collision>,
    /// Nanoseconds since the last frame.
    pub delta: u64,
}

/// What a frame did, for the collaborators to act on.
#[derive(Debug, PartialEq, Eq)]
pub struct FrameReport {
    /// The ball that appeared. It needs a sprite and no body.
    pub spawned: Option<EntityId>,
    /// The ball that was released. It needs a body.
    pub dropped: Option<EntityId>,
    /// The merges that began. Each absorbed ball loses its body, and both
    /// balls of a merge are at rest.
    pub merges: Vec<Merge>,
    /// The balls that were removed, oldest first.
    pub despawned: Vec<EntityId>,
}

/// The world after the spawn and aim steps.
pub open spec fn aimed_world(
    m: Map<EntityId, Entity>,
    next: u64,
    config: Config,
    input: FrameInput,
    level: Level,
) -> Map<EntityId, Entity> {
    after_aim(after_spawn(m, next, config, input.pointer, level), input.pointer)
}

/// The world after the spawn, aim and drop steps.
pub open spec fn dropped_world(
    m: Map<EntityId, Entity>,
    next: u64,
    config: Config,
    input: FrameInput,
    level: Level,
) -> Map<EntityId, Entity> {
    after_drop(aimed_world(m, next, config, input, level), input.released)
}

/// The world after the frame's collisions have been resolved.
pub open spec fn resolved_world(
    m: Map<EntityId, Entity>,
    next: u64,
    config: Config,
    input: FrameInput,
    level: Level,
) -> Map<EntityId, Entity> {
    resolve_all(dropped_world(m, next, config, input, level), input.collisions@, config.grow_time)
}

/// The world after a whole frame in which a ball that spawns gets `level`.
pub open spec fn after_tick(
    m: Map<EntityId, Entity>,
    next: u64,
    config: Config,
    input: FrameInput,
    level: Level,
) -> Map<EntityId, Entity> {
    after_grow_step(
        after_merge_step(resolved_world(m, next, config, input, level), input.delta),
        input.delta,
    )
}

/// Whether `report` tells what a frame did to the world `m`.
pub open spec fn reports(
    report: FrameReport,
    m: Map<EntityId, Entity>,
    next: u64,
    config: Config,
    input: FrameInput,
    level: Level,
) -> bool {
    let resolved = resolved_world(m, next, config, input, level);
    &&& report.spawned == spec_spawned(m, next)
    &&& report.dropped == spec_dropped(aimed_world(m, next, config, input, level), input.released)
    &&& report.merges@ == merges_of(
        dropped_world(m, next, config, input, level),
        input.collisions@,
        config.grow_time,
    )
    &&& forall|id: EntityId|
        report.despawned@.contains(id) <==> resolved.contains_key(id) && merge_ends(
            resolved,
            resolved[id],
            input.delta,
        )
    &&& forall|i: int, j: int|
        0 <= i < j < report.despawned@.len() ==> report.despawned@[i].0 < report.despawned@[j].0
}

/// Runs one frame in which a ball that spawns gets `level`.
pub fn tick_with_level(
    store: &mut EntityStore,
    config: &Config,
    input: &FrameInput,
    level: Level,
) -> (report: FrameReport)
    requires
        old(store).wf(),
        level.valid(),
    ensures
        final(store).wf(),
        final(store)@ == after_tick(old(store)@, old(store).next_id(), *config, *input, level),
        reports(report, old(store)@, old(store).next_id(), *config, *input, level),
        final(store).next_id() == old(store).next_id() + (if report.spawned.is_some() {
            1int
        } else {
            0int
        }),
{
    let spawned = spawn_ball(store, config, input.pointer, level);
    aim_system(store, input.pointer);
    let dropped = drop_system(store, input.released);
    let merges = ball_collision_system(store, &input.collisions, config);
    let despawned = merge_into_system(store, input.delta);
    grow_system(store, input.delta);
    FrameReport { spawned, dropped, merges, despawned }
}

/// Runs one frame. If a ball spawns, its level is drawn at random from 1 to
/// the ceiling.
pub fn tick(store: &mut EntityStore, config: &Config, input: &FrameInput) -> (report: FrameReport)
    requires
        old(store).wf(),
        config.valid(),
    ensures
        final(store).wf(),
        exists|level: Level|
            1 <= level.0 <= spawn_ceiling(old(store)@, *config).0 && final(store)@
                == #[trigger] after_tick(
                old(store)@,
                old(store).next_id(),
                *config,
                *input,
                level,
            ) && reports(report, old(store)@, old(store).next_id(), *config, *input, level),
        final(store).next_id() == old(store).next_id() + (if report.spawned.is_some() {
            1int
        } else {
            0int
        }),
{
    let level = if find_aiming(store).is_some() {
        proof {
            lemma_ceiling_valid(store@, *config);
        }
        Level(1)
    } else {
        Level::random(ceiling(store, config))
    };
    tick_with_level(store, config, input, level)
}

} // verus!
