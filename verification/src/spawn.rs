//! Decides when a new ball appears and what level it gets.

use crate::aim::find_aiming;
use crate::ball::{BallState, Entity, EntityId};
use crate::config::Config;
use crate::level::{Level, MAX_LEVEL};
use crate::motion::Vector2;
use crate::store::{has_aiming, lemma_world_ok_insert, world_ok, EntityStore};
use vstd::prelude::*;

verus! {

/// Whether `l` is the highest level among the live balls, or 1 if that is
/// higher (as it is when no ball is alive).
pub open spec fn is_max_level(m: Map<EntityId, Entity>, l: usize) -> bool {
    &&& l >= 1
    &&& forall|id: EntityId| m.contains_key(id) ==> (#[trigger] m[id]).ball.level.0 <= l
    &&& l == 1 || exists|id: EntityId| m.contains_key(id) && (#[trigger] m[id]).ball.level.0 == l
}

/// The highest level among the live balls, 1 if there are none.
pub open spec fn spec_max_level(m: Map<EntityId, Entity>) -> usize {
    choose|l: usize| is_max_level(m, l)
}

/// A world has one highest level.
pub proof fn lemma_max_level_unique(m: Map<EntityId, Entity>, l: usize)
    requires
        is_max_level(m, l),
    ensures
        spec_max_level(m) == l,
{
    let c = spec_max_level(m);
    assert(is_max_level(m, c));
    if c < l {
        let id = choose|id: EntityId| m.contains_key(id) && (#[trigger] m[id]).ball.level.0 == l;
        assert(m[id].ball.level.0 <= c);
    }
    if l < c {
        let id = choose|id: EntityId| m.contains_key(id) && (#[trigger] m[id]).ball.level.0 == c;
        assert(m[id].ball.level.0 <= l);
    }
}

/// The highest level among the live balls, level 1 if there are none.
pub fn current_max_level(store: &EntityStore) -> (level: Level)
    requires
        store.wf(),
    ensures
        level.0 == spec_max_level(store@),
        is_max_level(store@, level.0),
        level.valid(),
{
    let ids = store.ids();
    let mut best: usize = 1;
    let mut k: usize = 0;
    while k < ids.len()
        invariant
            store.wf(),
            k <= ids@.len(),
            forall|id: EntityId| ids@.contains(id) <==> store@.contains_key(id),
            Level(best).valid(),
            forall|j: int| 0 <= j < k ==> (#[trigger] store@[ids@[j]]).ball.level.0 <= best,
            best == 1 || exists|id: EntityId|
                store@.contains_key(id) && (#[trigger] store@[id]).ball.level.0 == best,
        decreases ids@.len() - k,
    {
        let id = ids[k];
        assert(ids@.contains(id));
        match store.get(id) {
            Some(entity) => {
                assert(store@[id].wf());
                if entity.ball.level.0 > best {
                    best = entity.ball.level.0;
                }
            },
            None => {},
        }
        k += 1;
    }
    proof {
        assert forall|id: EntityId| store@.contains_key(id) implies (
        #[trigger] store@[id]).ball.level.0 <= best by {
            assert(ids@.contains(id));
            let j = choose|j: int| 0 <= j < ids@.len() && ids@[j] == id;
            assert(store@[ids@[j]].ball.level.0 <= best);
        }
        lemma_max_level_unique(store@, best);
    }
    Level(best)
}

/// The highest level that a new ball may get: the configured ceiling, but
/// no more than the highest level alive.
pub open spec fn spawn_ceiling(m: Map<EntityId, Entity>, config: Config) -> Level {
    if config.max_random_level <= spec_max_level(m) {
        Level(config.max_random_level)
    } else {
        Level(spec_max_level(m))
    }
}

/// Where a new ball appears: under the pointer, or at the middle if there is
/// no pointer, at the configured height.
pub open spec fn spawn_position(config: Config, pointer: Option<Vector2>) -> Vector2 {
    Vector2 {
        x: match pointer {
            Some(p) => p.x,
            None => 0,
        },
        y: config.drop_height,
    }
}

/// A new ball appears when no ball is aiming and a name is left for it.
pub open spec fn can_spawn(m: Map<EntityId, Entity>, next: u64) -> bool {
    !has_aiming(m) && next < u64::MAX
}

/// The world after a spawn step that was to give the new ball `level`.
pub open spec fn after_spawn(
    m: Map<EntityId, Entity>,
    next: u64,
    config: Config,
    pointer: Option<Vector2>,
    level: Level,
) -> Map<EntityId, Entity> {
    if can_spawn(m, next) {
        m.insert(
            EntityId(next),
            Entity::spec_at_rest(level, BallState::Aiming, spawn_position(config, pointer)),
        )
    } else {
        m
    }
}

/// The name of the ball that a spawn step creates.
pub open spec fn spec_spawned(m: Map<EntityId, Entity>, next: u64) -> Option<EntityId> {
    if can_spawn(m, next) {
        Some(EntityId(next))
    } else {
        None
    }
}

/// Creates an aiming ball of the given level unless a ball is aiming
/// already. The new ball has no physical body.
pub fn spawn_ball(
    store: &mut EntityStore,
    config: &Config,
    pointer: Option<Vector2>,
    level: Level,
) -> (spawned: Option<EntityId>)
    requires
        old(store).wf(),
        level.valid(),
    ensures
        final(store).wf(),
        final(store)@ == after_spawn(
            old(store)@,
            old(store).next_id(),
            *config,
            pointer,
            level,
        ),
        spawned == spec_spawned(old(store)@, old(store).next_id()),
        final(store).next_id() == old(store).next_id() + (if spawned.is_some() {
            1int
        } else {
            0int
        }),
{
    if find_aiming(store).is_some() {
        return None;
    }
    let x = match pointer {
        Some(p) => p.x,
        None => 0,
    };
    let entity = Entity::at_rest(level, BallState::Aiming, Vector2 { x, y: config.drop_height });
    proof {
        lemma_world_ok_insert(store@, EntityId(store.next_id()), entity);
    }
    store.create(entity)
}

/// The highest level that a new ball may get now.
pub fn ceiling(store: &EntityStore, config: &Config) -> (level: Level)
    requires
        store.wf(),
        config.valid(),
    ensures
        level == spawn_ceiling(store@, *config),
        level.valid(),
{
    let highest = current_max_level(store);
    if config.max_random_level <= highest.0 {
        Level(config.max_random_level)
    } else {
        highest
    }
}

/// Runs the spawn step of a frame: unless a ball is aiming already, a ball
/// of a random level from 1 to the ceiling appears, aiming.
pub fn spawn_system(store: &mut EntityStore, config: &Config, pointer: Option<Vector2>) -> (spawned:
    Option<EntityId>)
    requires
        old(store).wf(),
        config.valid(),
    ensures
        final(store).wf(),
        exists|level: Level|
            1 <= level.0 <= spawn_ceiling(old(store)@, *config).0 && final(store)@
                == #[trigger] after_spawn(
                old(store)@,
                old(store).next_id(),
                *config,
                pointer,
                level,
            ),
        spawned == spec_spawned(old(store)@, old(store).next_id()),
        final(store).next_id() == old(store).next_id() + (if spawned.is_some() {
            1int
        } else {
            0int
        }),
{
    if find_aiming(store).is_some() {
        proof {
            assert(store@ == after_spawn(store@, store.next_id(), *config, pointer, Level(1)));
            lemma_ceiling_valid(store@, *config);
        }
        return None;
    }
    let level = Level::random(ceiling(store, config));
    spawn_ball(store, config, pointer, level)
}

/// A world whose levels are bounded has a highest level.
proof fn lemma_max_level_below(m: Map<EntityId, Entity>, bound: usize)
    requires
        bound >= 1,
        forall|id: EntityId| m.contains_key(id) ==> (#[trigger] m[id]).ball.level.0 <= bound,
    ensures
        exists|l: usize| is_max_level(m, l),
    decreases bound,
{
    if bound == 1 {
        assert(is_max_level(m, 1));
    } else if exists|id: EntityId| m.contains_key(id) && (#[trigger] m[id]).ball.level.0 == bound {
        assert(is_max_level(m, bound));
    } else {
        lemma_max_level_below(m, (bound - 1) as usize);
    }
}

/// In a world in order the ceiling is a valid level whenever the configured
/// one is at least 1.
pub proof fn lemma_ceiling_valid(m: Map<EntityId, Entity>, config: Config)
    requires
        world_ok(m),
        config.valid(),
    ensures
        is_max_level(m, spec_max_level(m)),
        spawn_ceiling(m, config).valid(),
{
    assert forall|id: EntityId| m.contains_key(id) implies (#[trigger] m[id]).ball.level.0
        <= MAX_LEVEL by {
        assert(m[id].wf());
    }
    lemma_max_level_below(m, MAX_LEVEL);
    let l = spec_max_level(m);
    assert(is_max_level(m, l));
    if l != 1 {
        let id = choose|id: EntityId| m.contains_key(id) && (#[trigger] m[id]).ball.level.0 == l;
        assert(m[id].wf());
    }
}

/// The spawn step keeps the world in order. It changes no ball that was
/// alive, as long as the next name is not in use.
pub proof fn lemma_spawn_keeps_order(
    m: Map<EntityId, Entity>,
    next: u64,
    config: Config,
    pointer: Option<Vector2>,
    level: Level,
)
    requires
        world_ok(m),
        level.valid(),
    ensures
        world_ok(after_spawn(m, next, config, pointer, level)),
        forall|id: EntityId|
            m.contains_key(id) ==> after_spawn(m, next, config, pointer, level).contains_key(id),
        forall|id: EntityId|
            id != EntityId(next) ==> (after_spawn(m, next, config, pointer, level).contains_key(id)
                <==> m.contains_key(id)),
        forall|id: EntityId|
            m.contains_key(id) && id != EntityId(next) ==> #[trigger] after_spawn(
                m,
                next,
                config,
                pointer,
                level,
            )[id] == m[id],
{
    if can_spawn(m, next) {
        crate::level::lemma_scale_values();
        let entity = Entity::spec_at_rest(
            level,
            BallState::Aiming,
            spawn_position(config, pointer),
        );
        lemma_world_ok_insert(m, EntityId(next), entity);
    }
}

} // verus!
