use ball_merge::ball::{Ball, BallState, EntityId};
use ball_merge::collision::{Collision, Merge};
use ball_merge::config::Config;
use ball_merge::level::Level;
use ball_merge::motion::{Vector2, Velocity, WORLD_UNIT};
use ball_merge::store::EntityStore;
use ball_merge::tick::{tick, tick_with_level, FrameInput};

fn frame(collisions: Vec<Collision>, delta: u64) -> FrameInput {
    FrameInput { pointer: None, released: false, collisions, delta }
}

fn settled(store: &EntityStore) -> Vec<EntityId> {
    store.ids().into_iter().filter(|id| !store.get(*id).unwrap().is_aiming()).collect()
}

fn aiming(store: &EntityStore) -> Vec<EntityId> {
    store.ids().into_iter().filter(|id| store.get(*id).unwrap().is_aiming()).collect()
}

#[test]
fn two_touching_balls_merge_into_one_of_the_next_level() {
    let config = Config::default();
    let mut store = EntityStore::new();
    let e1 = store.insert(Level(2), Vector2::new(0, 0)).unwrap();
    let e2 = store.insert(Level(2), Vector2::new(2 * config.small_ball_radius, 0)).unwrap();
    let report = tick(&mut store, &config, &frame(vec![Collision { a: e1, b: e2 }], 50_000_000));
    assert_eq!(report.merges, vec![Merge { absorbed: e1, absorbing: e2 }]);
    assert!(report.despawned.is_empty());
    assert_eq!(settled(&store), vec![e1, e2]);
    let mut elapsed = 50_000_000;
    while elapsed < config.grow_time {
        let report = tick(&mut store, &config, &frame(Vec::new(), 50_000_000));
        elapsed += 50_000_000;
        if elapsed < config.grow_time {
            assert!(report.despawned.is_empty());
        } else {
            assert_eq!(report.despawned, vec![e1]);
        }
        assert!(report.merges.is_empty());
    }
    assert_eq!(settled(&store), vec![e2]);
    let survivor = store.get(e2).unwrap();
    assert_eq!(survivor.ball, Ball { level: Level(3), state: BallState::Normal });
    assert_eq!(survivor.scale, Level(3).scale());
    assert_eq!(survivor.color, Level(3).color());
    assert_eq!(survivor.velocity, Velocity::zero());
    for id in store.ids() {
        let state = store.get(id).unwrap().ball.state;
        assert!(!matches!(state, BallState::MergingInto(_) | BallState::Growing(_)));
    }
}

#[test]
fn merge_in_a_single_long_frame() {
    let config = Config::default();
    let mut store = EntityStore::new();
    let e1 = store.insert(Level(2), Vector2::new(0, 0)).unwrap();
    let e2 = store.insert(Level(2), Vector2::new(50_000, 0)).unwrap();
    let input = frame(vec![Collision { a: e2, b: e1 }], config.grow_time);
    let report = tick_with_level(&mut store, &config, &input, Level(1));
    assert_eq!(report.merges, vec![Merge { absorbed: e2, absorbing: e1 }]);
    assert_eq!(report.despawned, vec![e2]);
    assert_eq!(report.spawned, Some(EntityId(2)));
    assert_eq!(report.dropped, None);
    assert_eq!(settled(&store), vec![e1]);
    assert_eq!(store.get(e1).unwrap().ball, Ball { level: Level(3), state: BallState::Normal });
    assert_eq!(store.get(e1).unwrap().scale, 1_638_400);
}

#[test]
fn at_most_one_ball_aims_after_any_frame() {
    let config = Config::default();
    let mut store = EntityStore::new();
    for step in 0..40u64 {
        let input = FrameInput {
            pointer: if step % 3 == 0 { None } else { Some(Vector2::new(step as i64, 0)) },
            released: step % 4 == 1,
            collisions: Vec::new(),
            delta: 16_000_000,
        };
        tick(&mut store, &config, &input);
        assert!(aiming(&store).len() <= 1);
    }
    assert!(store.len() > 1);
}

#[test]
fn frame_spawns_aims_and_drops_in_order() {
    let config = Config::default();
    let mut store = EntityStore::new();
    let input = FrameInput {
        pointer: Some(Vector2::new(-300_000, 12)),
        released: true,
        collisions: Vec::new(),
        delta: 16_000_000,
    };
    let report = tick_with_level(&mut store, &config, &input, Level(1));
    assert_eq!(report.spawned, Some(EntityId(0)));
    assert_eq!(report.dropped, Some(EntityId(0)));
    let e = store.get(EntityId(0)).unwrap();
    assert_eq!(e.ball, Ball { level: Level(1), state: BallState::Normal });
    assert_eq!(e.position, Vector2 { x: -300_000, y: config.drop_height });
    assert!(aiming(&store).is_empty());
    let quiet = FrameInput { pointer: None, released: false, collisions: Vec::new(), delta: 1 };
    let report = tick_with_level(&mut store, &config, &quiet, Level(1));
    assert_eq!(report.spawned, Some(EntityId(1)));
    assert_eq!(report.dropped, None);
    assert_eq!(store.get(EntityId(1)).unwrap().position, Vector2 { x: 0, y: config.drop_height });
    let report = tick_with_level(&mut store, &config, &quiet, Level(1));
    assert_eq!(report.spawned, None);
    assert_eq!(store.len(), 2);
}

#[test]
fn frame_without_events_keeps_levels_and_states() {
    let config = Config::default();
    let mut store = EntityStore::new();
    let a = store.insert(Level(2), Vector2::zero()).unwrap();
    let b = store.insert(Level(2), Vector2::zero()).unwrap();
    let c = store.insert(Level(3), Vector2::zero()).unwrap();
    let before: Vec<Ball> = [a, b, c].iter().map(|id| store.get(*id).unwrap().ball).collect();
    for _ in 0..5 {
        let report = tick(&mut store, &config, &frame(Vec::new(), 100_000_000));
        assert!(report.merges.is_empty());
        assert!(report.despawned.is_empty());
    }
    let after: Vec<Ball> = [a, b, c].iter().map(|id| store.get(*id).unwrap().ball).collect();
    assert_eq!(before, after);
}

#[test]
fn frame_with_unequal_levels_changes_neither_ball() {
    let config = Config::default();
    let mut store = EntityStore::new();
    let a = store.insert(Level(2), Vector2::new(1, 1)).unwrap();
    let b = store.insert(Level(3), Vector2::new(2, 2)).unwrap();
    let before = (store.get(a).unwrap(), store.get(b).unwrap());
    let report = tick(&mut store, &config, &frame(vec![Collision { a, b }], 16_000_000));
    assert!(report.merges.is_empty());
    assert!(report.despawned.is_empty());
    assert_eq!((store.get(a).unwrap(), store.get(b).unwrap()), before);
}

#[test]
fn orphan_is_gone_after_the_very_next_frame() {
    let config = Config::default();
    let mut store = EntityStore::new();
    let a = store.insert(Level(2), Vector2::zero()).unwrap();
    let b = store.insert(Level(2), Vector2::zero()).unwrap();
    tick(&mut store, &config, &frame(vec![Collision { a, b }], 1_000_000));
    assert!(store.contains(a));
    assert!(store.despawn(b));
    let report = tick(&mut store, &config, &frame(Vec::new(), 1_000_000));
    assert_eq!(report.despawned, vec![a]);
    assert!(!store.contains(a));
}

#[test]
fn faster_of_five_and_three_absorbs_through_a_frame() {
    let config = Config::default();
    for swapped in [false, true] {
        let mut store = EntityStore::new();
        let five = store.insert(Level(1), Vector2::zero()).unwrap();
        let three = store.insert(Level(1), Vector2::zero()).unwrap();
        let to_units = |speed: f64| (speed * WORLD_UNIT as f64) as i64;
        store.set_motion(
            five,
            Vector2::zero(),
            Velocity { linear: Vector2::new(to_units(5.0), 0), angular: 0 },
        );
        store.set_motion(
            three,
            Vector2::zero(),
            Velocity { linear: Vector2::new(0, to_units(3.0)), angular: 0 },
        );
        let event = if swapped {
            Collision { a: three, b: five }
        } else {
            Collision { a: five, b: three }
        };
        let report = tick(&mut store, &config, &frame(vec![event], 1));
        assert_eq!(report.merges, vec![Merge { absorbed: three, absorbing: five }]);
    }
}

#[test]
fn growth_tracks_the_merge_frame_by_frame() {
    let config = Config::default();
    let mut store = EntityStore::new();
    let a = store.insert(Level(1), Vector2::new(0, 0)).unwrap();
    let b = store.insert(Level(1), Vector2::new(1000, 0)).unwrap();
    tick(&mut store, &config, &frame(vec![Collision { a, b }], 125_000_000));
    assert_eq!(store.get(a).unwrap().position, Vector2 { x: 500, y: 0 });
    assert_eq!(store.get(b).unwrap().scale, (1_048_576 + 1_310_720) / 2);
    assert_eq!(store.get(b).unwrap().ball.level, Level(2));
}
