use ball_merge::interp::{lerp, Fraction};
use ball_merge::motion::{Vector2, Velocity};
use ball_merge::timer::Timer;

#[test]
fn lerp_hits_both_ends() {
    let zero = Fraction::zero();
    let one = Fraction::one();
    assert_eq!(lerp(-40, 90, zero), -40);
    assert_eq!(lerp(-40, 90, one), 90);
    assert_eq!(lerp(90, -40, zero), 90);
    assert_eq!(lerp(90, -40, one), -40);
    assert_eq!(lerp(3, 3, Fraction { num: 1, den: 2 }), 3);
}

#[test]
fn lerp_covers_the_fraction_of_the_distance() {
    assert_eq!(lerp(0, 100, Fraction { num: 1, den: 4 }), 25);
    assert_eq!(lerp(100, 0, Fraction { num: 1, den: 4 }), 75);
    assert_eq!(lerp(-100, 100, Fraction { num: 3, den: 4 }), 50);
}

#[test]
fn lerp_rounds_toward_the_start() {
    assert_eq!(lerp(-5, 5, Fraction { num: 1, den: 3 }), -2);
    assert_eq!(lerp(5, -5, Fraction { num: 1, den: 3 }), 2);
    assert_eq!(lerp(0, 7, Fraction { num: 1, den: 2 }), 3);
    assert_eq!(lerp(7, 0, Fraction { num: 1, den: 2 }), 4);
}

#[test]
fn lerp_spans_the_whole_range() {
    let full = Fraction { num: u64::MAX, den: u64::MAX };
    assert_eq!(lerp(i64::MIN, i64::MAX, full), i64::MAX);
    assert_eq!(lerp(i64::MAX, i64::MIN, full), i64::MIN);
    assert_eq!(lerp(i64::MIN, i64::MAX, Fraction { num: 0, den: u64::MAX }), i64::MIN);
    assert_eq!(lerp(i64::MIN, i64::MAX, Fraction { num: 1, den: 2 }), -1);
    let nearly = Fraction { num: u64::MAX - 1, den: u64::MAX };
    assert_eq!(lerp(i64::MIN, i64::MAX, nearly), i64::MAX - 1);
}

#[test]
fn lerp_stays_between_the_ends() {
    for num in 0..=16u64 {
        let t = Fraction { num, den: 16 };
        let up = lerp(-7, 13, t);
        let down = lerp(13, -7, t);
        assert!(-7 <= up && up <= 13);
        assert!(-7 <= down && down <= 13);
    }
}

#[test]
fn vector_lerp_moves_each_coordinate() {
    let from = Vector2::new(0, 0);
    let to = Vector2::new(1000, -500);
    assert_eq!(from.lerp(to, Fraction { num: 1, den: 4 }), Vector2 { x: 250, y: -125 });
    assert_eq!(from.lerp(to, Fraction::one()), to);
    assert_eq!(from.lerp(to, Fraction::zero()), from);
}

#[test]
fn length_squared_is_exact() {
    assert_eq!(Vector2::new(3, 4).length_squared(), 25);
    assert_eq!(Vector2::new(-3, -4).length_squared(), 25);
    assert_eq!(Vector2::zero().length_squared(), 0);
    assert_eq!(Vector2::new(i64::MIN, i64::MIN).length_squared(), 1u128 << 127);
    assert_eq!(Vector2::new(i64::MAX, 0).length_squared(), (i64::MAX as u128) * (i64::MAX as u128));
}

#[test]
fn speed_ignores_rotation() {
    let v = Velocity { linear: Vector2::new(6, 8), angular: 1_000 };
    assert_eq!(v.speed_squared(), 100);
    assert_eq!(Velocity::zero().speed_squared(), 0);
    assert_eq!(Velocity::zero(), Velocity { linear: Vector2 { x: 0, y: 0 }, angular: 0 });
}

#[test]
fn timer_counts_up_to_its_duration() {
    let mut timer = Timer::new(100);
    assert_eq!(timer, Timer { elapsed: 0, duration: 100, finished: false, just_finished: false });
    timer.tick(30);
    assert_eq!(timer.elapsed, 30);
    assert!(!timer.finished);
    assert!(!timer.just_finished);
    assert_eq!(timer.remaining(), 70);
    assert_eq!(timer.fraction(), Fraction { num: 30, den: 100 });
    timer.tick(69);
    assert!(!timer.finished);
    assert_eq!(timer.remaining(), 1);
}

#[test]
fn timer_reports_completion_once() {
    let mut timer = Timer::new(100);
    timer.tick(60);
    timer.tick(40);
    assert!(timer.finished);
    assert!(timer.just_finished);
    assert_eq!(timer.elapsed, 100);
    assert_eq!(timer.fraction(), Fraction { num: 100, den: 100 });
    timer.tick(10);
    assert!(timer.finished);
    assert!(!timer.just_finished);
    assert_eq!(timer.elapsed, 100);
}

#[test]
fn timer_clamps_an_overshoot() {
    let mut timer = Timer::new(100);
    timer.tick(99);
    timer.tick(u64::MAX);
    assert!(timer.just_finished);
    assert_eq!(timer.elapsed, 100);
    assert_eq!(timer.remaining(), 0);
}

#[test]
fn timer_of_no_duration_is_complete_at_once() {
    let mut timer = Timer::new(0);
    assert_eq!(timer.fraction(), Fraction::one());
    assert!(!timer.finished);
    timer.tick(0);
    assert!(timer.finished);
    assert!(timer.just_finished);
}

#[test]
fn timer_ignores_an_empty_frame() {
    let mut timer = Timer::new(50);
    timer.tick(0);
    assert_eq!(timer, Timer::new(50));
}
