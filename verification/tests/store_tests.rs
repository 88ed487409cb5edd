use ball_merge::ball::{Ball, BallState, Entity, EntityId};
use ball_merge::config::Config;
use ball_merge::level::Level;
use ball_merge::motion::{Vector2, Velocity, WORLD_UNIT};
use ball_merge::store::EntityStore;

#[test]
fn new_store_is_empty() {
    let store = EntityStore::new();
    assert_eq!(store.len(), 0);
    assert!(store.ids().is_empty());
    assert!(!store.contains(EntityId(0)));
    assert_eq!(store.get(EntityId(0)), None);
}

#[test]
fn insert_adds_a_normal_ball_at_rest() {
    let mut store = EntityStore::new();
    let id = store.insert(Level(3), Vector2::new(10, -20)).unwrap();
    assert_eq!(id, EntityId(0));
    assert_eq!(store.len(), 1);
    assert!(store.contains(id));
    let e = store.get(id).unwrap();
    assert_eq!(
        e,
        Entity {
            ball: Ball { level: Level(3), state: BallState::Normal },
            position: Vector2 { x: 10, y: -20 },
            velocity: Velocity::zero(),
            scale: Level(3).scale(),
            color: Level(3).color(),
        }
    );
    assert!(e.has_body());
    assert!(e.is_normal());
    assert!(!e.is_aiming());
}

#[test]
fn names_are_given_out_in_order_and_never_reused() {
    let mut store = EntityStore::new();
    let a = store.insert(Level(1), Vector2::zero()).unwrap();
    let b = store.insert(Level(1), Vector2::zero()).unwrap();
    assert_eq!((a, b), (EntityId(0), EntityId(1)));
    assert!(store.despawn(b));
    let c = store.insert(Level(1), Vector2::zero()).unwrap();
    assert_eq!(c, EntityId(2));
    assert_eq!(store.ids(), vec![EntityId(0), EntityId(2)]);
    assert!(!store.contains(b));
}

#[test]
fn despawn_removes_only_the_named_ball() {
    let mut store = EntityStore::new();
    let a = store.insert(Level(1), Vector2::zero()).unwrap();
    let b = store.insert(Level(2), Vector2::zero()).unwrap();
    let c = store.insert(Level(3), Vector2::zero()).unwrap();
    assert!(store.despawn(b));
    assert!(!store.despawn(b));
    assert!(!store.despawn(EntityId(99)));
    assert_eq!(store.len(), 2);
    assert_eq!(store.ids(), vec![a, c]);
    assert_eq!(store.get(a).unwrap().ball.level, Level(1));
    assert_eq!(store.get(c).unwrap().ball.level, Level(3));
}

#[test]
fn set_motion_moves_a_ball_with_a_body() {
    let mut store = EntityStore::new();
    let a = store.insert(Level(2), Vector2::zero()).unwrap();
    let b = store.insert(Level(2), Vector2::zero()).unwrap();
    let v = Velocity { linear: Vector2::new(5 * WORLD_UNIT, 0), angular: -7 };
    assert!(store.set_motion(a, Vector2::new(1, 2), v));
    let e = store.get(a).unwrap();
    assert_eq!(e.position, Vector2 { x: 1, y: 2 });
    assert_eq!(e.velocity, v);
    assert_eq!(e.ball, Ball { level: Level(2), state: BallState::Normal });
    assert_eq!(store.get(b).unwrap().velocity, Velocity::zero());
    assert!(!store.set_motion(EntityId(50), Vector2::zero(), v));
}

#[test]
fn set_motion_leaves_a_ball_without_a_body() {
    let mut store = EntityStore::new();
    let config = Config::default();
    let id = ball_merge::spawn::spawn_ball(&mut store, &config, None, Level(1)).unwrap();
    let before = store.get(id).unwrap();
    let v = Velocity { linear: Vector2::new(1, 1), angular: 1 };
    assert!(!store.set_motion(id, Vector2::new(9, 9), v));
    assert_eq!(store.get(id).unwrap(), before);
}

#[test]
fn at_rest_draws_the_ball_as_its_level_asks() {
    let e = Entity::at_rest(Level(5), BallState::Aiming, Vector2::new(4, 5));
    assert_eq!(e.scale, 2_560_000);
    assert_eq!(e.color, Level(5).color());
    assert_eq!(e.velocity, Velocity::zero());
    assert!(e.is_aiming());
    assert!(!e.has_body());
}

#[test]
fn default_config_values() {
    let config = Config::default();
    assert_eq!(config.drop_height, 600_000);
    assert_eq!(config.small_ball_radius, 25_000);
    assert_eq!(config.grow_time, 250_000_000);
    assert_eq!(config.max_random_level, 4);
    assert_eq!(config.drop_height as f64 / WORLD_UNIT as f64, 0.6);
    assert_eq!(config.small_ball_radius as f64 / WORLD_UNIT as f64, 0.025);
}
