//! Resolves collision events into merges.
//!
//! Two balls merge when both are falling freely, their levels are equal and
//! a higher level exists. The faster ball absorbs the slower one; at equal
//! speed the ball named second in the event absorbs the one named first.

use crate::ball::{Ball, BallState, Entity, EntityId, Growing, MergingInto};
use crate::config::Config;
use crate::level::{Level, MAX_LEVEL};
use crate::motion::Velocity;
use crate::store::{lemma_world_ok_insert, names_known, world_ok, EntityStore};
use crate::timer::Timer;
use vstd::prelude::*;

verus! {

/// Two bodies have begun to touch. The pair is unordered as far as physics
/// goes; the order matters only when both balls are equally fast.
#[derive(Debug, Clone, Copy, PartialEq, Eq, Structural)]
pub struct Collision {
    pub a: EntityId,
    pub b: EntityId,
}

/// A merge that a collision has started.
#[derive(Debug, Clone, Copy, PartialEq, Eq, Structural)]
pub struct Merge {
    /// The ball that disappears. It has lost its body.
    pub absorbed: EntityId,
    /// The ball that survives and grows.
    pub absorbing: EntityId,
}

/// Whether a collision of `a` and `b` starts a merge: both are alive and
/// distinct, both fall freely (neither aims, merges or grows), their levels
/// are equal, and there is a level above.
pub open spec fn can_merge(m: Map<EntityId, Entity>, a: EntityId, b: EntityId) -> bool {
    &&& a != b
    &&& m.contains_key(a)
    &&& m.contains_key(b)
    &&& m[a].spec_is_normal()
    &&& m[b].spec_is_normal()
    &&& m[a].ball.level == m[b].ball.level
    &&& m[a].ball.level.0 < MAX_LEVEL
}

/// Whether `a` is strictly faster than `b`.
pub open spec fn faster(m: Map<EntityId, Entity>, a: EntityId, b: EntityId) -> bool {
    m[a].velocity.spec_speed_squared() > m[b].velocity.spec_speed_squared()
}

/// The ball that survives a merge of `a` and `b`: the faster one, and `b`
/// when neither is faster.
pub open spec fn spec_absorbing(m: Map<EntityId, Entity>, a: EntityId, b: EntityId) -> EntityId {
    if faster(m, a, b) {
        a
    } else {
        b
    }
}

/// The ball that disappears in a merge of `a` and `b`.
pub open spec fn spec_absorbed(m: Map<EntityId, Entity>, a: EntityId, b: EntityId) -> EntityId {
    if faster(m, a, b) {
        b
    } else {
        a
    }
}

/// The absorbed ball as the merge begins: brought to rest, on its way to
/// `target` from where it is now.
pub open spec fn start_merging(e: Entity, target: EntityId, grow_time: u64) -> Entity {
    Entity {
        ball: Ball {
            level: e.ball.level,
            state: BallState::MergingInto(
                MergingInto {
                    target,
                    timer: Timer::spec_new(grow_time),
                    from_position: e.position,
                },
            ),
        },
        velocity: Velocity::spec_zero(),
        ..e
    }
}

/// The absorbing ball as the merge begins: brought to rest, one level up,
/// and growing from the level it had.
pub open spec fn start_growing(e: Entity, grow_time: u64) -> Entity {
    Entity {
        ball: Ball {
            level: Level((e.ball.level.0 + 1) as usize),
            state: BallState::Growing(
                Growing { timer: Timer::spec_new(grow_time), from_level: e.ball.level },
            ),
        },
        velocity: Velocity::spec_zero(),
        ..e
    }
}

/// The merge that an event starts, if it starts one.
pub open spec fn spec_merge(m: Map<EntityId, Entity>, event: Collision) -> Option<Merge> {
    if can_merge(m, event.a, event.b) {
        Some(
            Merge {
                absorbed: spec_absorbed(m, event.a, event.b),
                absorbing: spec_absorbing(m, event.a, event.b),
            },
        )
    } else {
        None
    }
}

/// The world after one event.
pub open spec fn resolve_one(m: Map<EntityId, Entity>, event: Collision, grow_time: u64) -> Map<
    EntityId,
    Entity,
> {
    match spec_merge(m, event) {
        Some(merge) => m.insert(
            merge.absorbed,
            start_merging(m[merge.absorbed], merge.absorbing, grow_time),
        ).insert(merge.absorbing, start_growing(m[merge.absorbing], grow_time)),
        None => m,
    }
}

/// The world after a queue of events, each resolved in the world that the
/// events before it left.
pub open spec fn resolve_all(m: Map<EntityId, Entity>, events: Seq<Collision>, grow_time: u64) -> Map<
    EntityId,
    Entity,
>
    decreases events.len(),
{
    if events.len() == 0 {
        m
    } else {
        resolve_all(resolve_one(m, events[0], grow_time), events.drop_first(), grow_time)
    }
}

/// The merges that a queue of events starts, in the order of the events.
pub open spec fn merges_of(m: Map<EntityId, Entity>, events: Seq<Collision>, grow_time: u64) -> Seq<
    Merge,
>
    decreases events.len(),
{
    if events.len() == 0 {
        Seq::empty()
    } else {
        let rest = merges_of(resolve_one(m, events[0], grow_time), events.drop_first(), grow_time);
        match spec_merge(m, events[0]) {
            Some(merge) => seq![merge] + rest,
            None => rest,
        }
    }
}

/// Resolving an event keeps the world in order.
pub proof fn lemma_resolve_keeps_order(m: Map<EntityId, Entity>, event: Collision, grow_time: u64)
    requires
        world_ok(m),
    ensures
        world_ok(resolve_one(m, event, grow_time)),
        resolve_one(m, event, grow_time).dom() == m.dom(),
{
    match spec_merge(m, event) {
        Some(merge) => {
            let absorbed = start_merging(m[merge.absorbed], merge.absorbing, grow_time);
            let absorbing = start_growing(m[merge.absorbing], grow_time);
            assert(m[merge.absorbed].wf() && m[merge.absorbing].wf());
            lemma_world_ok_insert(m, merge.absorbed, absorbed);
            let m1 = m.insert(merge.absorbed, absorbed);
            lemma_world_ok_insert(m1, merge.absorbing, absorbing);
            assert(resolve_one(m, event, grow_time).dom() =~= m.dom());
        },
        None => {},
    }
}

/// Resolves one collision event. A stale name, a ball that is aiming,
/// merging or growing, a ball colliding with itself, unequal levels and
/// balls of the highest level all leave the world as it is.
pub fn resolve_collision(store: &mut EntityStore, event: Collision, grow_time: u64) -> (merge:
    Option<Merge>)
    requires
        old(store).wf(),
    ensures
        final(store).wf(),
        final(store)@ == resolve_one(old(store)@, event, grow_time),
        merge == spec_merge(old(store)@, event),
        final(store).next_id() == old(store).next_id(),
{
    if event.a == event.b {
        return None;
    }
    let first = match store.get(event.a) {
        Some(e) => e,
        None => {
            return None;
        },
    };
    let second = match store.get(event.b) {
        Some(e) => e,
        None => {
            return None;
        },
    };
    if !first.is_normal() || !second.is_normal() {
        return None;
    }
    if first.ball.level.0 != second.ball.level.0 || first.ball.level.0 >= MAX_LEVEL {
        return None;
    }
    let first_faster = first.velocity.speed_squared() > second.velocity.speed_squared();
    let merge = if first_faster {
        Merge { absorbed: event.b, absorbing: event.a }
    } else {
        Merge { absorbed: event.a, absorbing: event.b }
    };
    let from = if first_faster {
        second
    } else {
        first
    };
    let into = if first_faster {
        first
    } else {
        second
    };
    let absorbed = Entity {
        ball: Ball {
            level: from.ball.level,
            state: BallState::MergingInto(
                MergingInto {
                    target: merge.absorbing,
                    timer: Timer::new(grow_time),
                    from_position: from.position,
                },
            ),
        },
        velocity: Velocity::zero(),
        ..from
    };
    let absorbing = Entity {
        ball: Ball {
            level: Level(into.ball.level.0 + 1),
            state: BallState::Growing(
                Growing { timer: Timer::new(grow_time), from_level: into.ball.level },
            ),
        },
        velocity: Velocity::zero(),
        ..into
    };
    proof {
        assert(from.wf() && into.wf());
        lemma_world_ok_insert(store@, merge.absorbed, absorbed);
        lemma_world_ok_insert(store@.insert(merge.absorbed, absorbed), merge.absorbing, absorbing);
    }
    store.put(merge.absorbed, absorbed);
    store.put(merge.absorbing, absorbing);
    Some(merge)
}

/// Drains the queue of collision events, resolving each in turn. A ball that
/// an earlier event of the queue has set merging or growing is no longer
/// free, so later events that name it change nothing.
pub fn ball_collision_system(store: &mut EntityStore, events: &Vec<Collision>, config: &Config) -> (merges:
    Vec<Merge>)
    requires
        old(store).wf(),
    ensures
        final(store).wf(),
        final(store)@ == resolve_all(old(store)@, events@, config.grow_time),
        merges@ == merges_of(old(store)@, events@, config.grow_time),
        final(store)@.dom() == old(store)@.dom(),
        final(store).next_id() == old(store).next_id(),
{
    let mut merges: Vec<Merge> = Vec::new();
    let mut i: usize = 0;
    proof {
        assert(events@.subrange(0, events@.len() as int) =~= events@);
        assert(merges@ + merges_of(store@, events@, config.grow_time) =~= merges_of(
            store@,
            events@,
            config.grow_time,
        ));
    }
    while i < events.len()
        invariant
            store.wf(),
            i <= events@.len(),
            store.next_id() == old(store).next_id(),
            store@.dom() == old(store)@.dom(),
            resolve_all(store@, events@.subrange(i as int, events@.len() as int), config.grow_time)
                == resolve_all(old(store)@, events@, config.grow_time),
            merges@ + merges_of(
                store@,
                events@.subrange(i as int, events@.len() as int),
                config.grow_time,
            ) == merges_of(old(store)@, events@, config.grow_time),
        decreases events@.len() - i,
    {
        let ghost before = store@;
        let ghost rest = events@.subrange(i as int, events@.len() as int);
        let ghost done = merges@;
        proof {
            assert(rest[0] == events@[i as int]);
            assert(rest.drop_first() =~= events@.subrange(i + 1, events@.len() as int));
            lemma_resolve_keeps_order(before, events@[i as int], config.grow_time);
        }
        let merge = resolve_collision(store, events[i], config.grow_time);
        match merge {
            Some(m) => {
                merges.push(m);
                proof {
                    let tail = merges_of(store@, rest.drop_first(), config.grow_time);
                    assert(merges@ + tail =~= done + (seq![m] + tail));
                }
            },
            None => {},
        }
        i += 1;
    }
    proof {
        assert(merges@ + Seq::<Merge>::empty() =~= merges@);
    }
    merges
}

/// Two free balls of one level below the highest merge: the absorbed ball
/// starts merging into the absorbing one, the absorbing ball is one level up
/// and growing, both are at rest, and no other ball has changed.
pub proof fn lemma_merge_outcome(m: Map<EntityId, Entity>, a: EntityId, b: EntityId, grow_time: u64)
    requires
        can_merge(m, a, b),
    ensures
        ({
            let after = resolve_one(m, Collision { a, b }, grow_time);
            let from = spec_absorbed(m, a, b);
            let into = spec_absorbing(m, a, b);
            &&& (from == a && into == b) || (from == b && into == a)
            &&& after.dom() == m.dom()
            &&& after[into].ball.level.0 == m[a].ball.level.0 + 1
            &&& after[into].ball.state == BallState::Growing(
                Growing { timer: Timer::spec_new(grow_time), from_level: m[a].ball.level },
            )
            &&& after[from].ball.level == m[a].ball.level
            &&& after[from].ball.state == BallState::MergingInto(
                MergingInto {
                    target: into,
                    timer: Timer::spec_new(grow_time),
                    from_position: m[from].position,
                },
            )
            &&& after[a].velocity == Velocity::spec_zero()
            &&& after[b].velocity == Velocity::spec_zero()
            &&& after[a].position == m[a].position
            &&& after[b].position == m[b].position
            &&& forall|id: EntityId|
                m.contains_key(id) && id != a && id != b ==> #[trigger] after[id] == m[id]
        }),
{
    assert(resolve_one(m, Collision { a, b }, grow_time).dom() =~= m.dom());
}

/// When one ball is strictly faster than the other, it is the absorbing one
/// whichever way round the event names the pair, and the world that results
/// is the same.
pub proof fn lemma_faster_absorbs(m: Map<EntityId, Entity>, a: EntityId, b: EntityId, grow_time: u64)
    requires
        faster(m, a, b),
    ensures
        spec_absorbing(m, a, b) == a,
        spec_absorbing(m, b, a) == a,
        spec_absorbed(m, a, b) == b,
        spec_absorbed(m, b, a) == b,
        spec_merge(m, Collision { a, b }) == spec_merge(m, Collision { a: b, b: a }),
        resolve_one(m, Collision { a, b }, grow_time) == resolve_one(
            m,
            Collision { a: b, b: a },
            grow_time,
        ),
{
}

/// At equal speed the ball named second absorbs the ball named first.
pub proof fn lemma_tie_goes_to_second(m: Map<EntityId, Entity>, a: EntityId, b: EntityId)
    requires
        m[a].velocity.spec_speed_squared() == m[b].velocity.spec_speed_squared(),
    ensures
        spec_absorbing(m, a, b) == b,
        spec_absorbed(m, a, b) == a,
{
}

/// Draining an empty queue changes nothing and starts no merge.
pub proof fn lemma_no_events(m: Map<EntityId, Entity>, grow_time: u64)
    ensures
        resolve_all(m, Seq::<Collision>::empty(), grow_time) == m,
        merges_of(m, Seq::<Collision>::empty(), grow_time) == Seq::<Merge>::empty(),
{
}

/// An event changes nothing when it names a ball that is gone, a ball that
/// is not falling freely, one ball twice, or two balls of unequal level.
pub proof fn lemma_ignored_event(m: Map<EntityId, Entity>, event: Collision, grow_time: u64)
    requires
        !m.contains_key(event.a) || !m.contains_key(event.b) || !m[event.a].spec_is_normal()
            || !m[event.b].spec_is_normal() || event.a == event.b || m[event.a].ball.level
            != m[event.b].ball.level,
    ensures
        resolve_one(m, event, grow_time) == m,
        spec_merge(m, event).is_none(),
{
}

/// Once an event has set two balls merging, any further event that names
/// either of them changes nothing: a ball takes part in one merge at a time.
pub proof fn lemma_merge_only_once(
    m: Map<EntityId, Entity>,
    first: Collision,
    second: Collision,
    grow_time: u64,
)
    requires
        can_merge(m, first.a, first.b),
        second.a == first.a || second.a == first.b || second.b == first.a || second.b == first.b,
    ensures
        resolve_one(resolve_one(m, first, grow_time), second, grow_time) == resolve_one(
            m,
            first,
            grow_time,
        ),
{
}

/// Draining a queue of events keeps the world in order and keeps every ball
/// alive.
pub proof fn lemma_resolve_all_keeps_order(
    m: Map<EntityId, Entity>,
    events: Seq<Collision>,
    grow_time: u64,
)
    requires
        world_ok(m),
    ensures
        world_ok(resolve_all(m, events, grow_time)),
        resolve_all(m, events, grow_time).dom() == m.dom(),
    decreases events.len(),
{
    if events.len() > 0 {
        lemma_resolve_keeps_order(m, events[0], grow_time);
        lemma_resolve_all_keeps_order(
            resolve_one(m, events[0], grow_time),
            events.drop_first(),
            grow_time,
        );
    }
}

/// Draining a queue of events changes no ball that is not falling freely:
/// aiming, merging and growing balls come out as they went in.
pub proof fn lemma_resolve_all_leaves_busy(
    m: Map<EntityId, Entity>,
    events: Seq<Collision>,
    grow_time: u64,
    id: EntityId,
)
    requires
        m.contains_key(id),
        !m[id].spec_is_normal(),
    ensures
        resolve_all(m, events, grow_time).contains_key(id),
        resolve_all(m, events, grow_time)[id] == m[id],
    decreases events.len(),
{
    if events.len() > 0 {
        lemma_resolve_all_leaves_busy(
            resolve_one(m, events[0], grow_time),
            events.drop_first(),
            grow_time,
            id,
        );
    }
}

/// Resolving an event brings no unknown name into the world: the target of a
/// ball that starts merging is a live ball.
pub proof fn lemma_resolve_keeps_names(
    m: Map<EntityId, Entity>,
    event: Collision,
    grow_time: u64,
    next: u64,
)
    requires
        names_known(m, next),
    ensures
        names_known(resolve_one(m, event, grow_time), next),
{
    let after = resolve_one(m, event, grow_time);
    assert forall|id: EntityId| after.contains_key(id) implies id.0 < next && ((
    #[trigger] after[id]).ball.state matches BallState::MergingInto(mi) ==> mi.target.0
        < next) by {
        assert(m.contains_key(id));
        assert(id.0 < next && (m[id].ball.state matches BallState::MergingInto(mi)
            ==> mi.target.0 < next));
        if can_merge(m, event.a, event.b) {
            assert(m[event.a].ball.state is Normal);
            assert(m[event.b].ball.state is Normal);
        }
    }
}

/// Draining a queue of events brings no unknown name into the world.
pub proof fn lemma_resolve_all_keeps_names(
    m: Map<EntityId, Entity>,
    events: Seq<Collision>,
    grow_time: u64,
    next: u64,
)
    requires
        names_known(m, next),
    ensures
        names_known(resolve_all(m, events, grow_time), next),
    decreases events.len(),
{
    if events.len() > 0 {
        lemma_resolve_keeps_names(m, events[0], grow_time, next);
        lemma_resolve_all_keeps_names(
            resolve_one(m, events[0], grow_time),
            events.drop_first(),
            grow_time,
            next,
        );
    }
}

/// Whether one of the merges absorbs `id`.
pub open spec fn absorbed_in(merges: Seq<Merge>, id: EntityId) -> bool {
    exists|k: int| 0 <= k < merges.len() && (#[trigger] merges[k]).absorbed == id
}

/// Draining a queue of events takes the body from exactly the balls that the
/// merges it starts absorb: a ball carries a body afterwards if and only if
/// it carried one before and no merge of the queue has absorbed it.
pub proof fn lemma_merges_account_for_bodies(
    m: Map<EntityId, Entity>,
    events: Seq<Collision>,
    grow_time: u64,
    id: EntityId,
)
    requires
        m.contains_key(id),
    ensures
        resolve_all(m, events, grow_time).contains_key(id),
        resolve_all(m, events, grow_time)[id].spec_has_body() <==> m[id].spec_has_body()
            && !absorbed_in(merges_of(m, events, grow_time), id),
    decreases events.len(),
{
    if events.len() > 0 {
        let step = resolve_one(m, events[0], grow_time);
        let rest = merges_of(step, events.drop_first(), grow_time);
        let merges = merges_of(m, events, grow_time);
        lemma_merges_account_for_bodies(step, events.drop_first(), grow_time, id);
        match spec_merge(m, events[0]) {
            Some(merge) => {
                assert(merges == seq![merge] + rest);
                assert(merges[0] == merge);
                if absorbed_in(rest, id) {
                    let k = choose|k: int| 0 <= k < rest.len() && (#[trigger] rest[k]).absorbed == id;
                    assert(merges[k + 1] == rest[k]);
                }
                if absorbed_in(merges, id) {
                    let k = choose|k: int|
                        0 <= k < merges.len() && (#[trigger] merges[k]).absorbed == id;
                    if k > 0 {
                        assert(rest[k - 1] == merges[k]);
                    }
                }
                assert(absorbed_in(merges, id) <==> merge.absorbed == id || absorbed_in(rest, id));
            },
            None => {},
        }
    }
}

} // verus!
