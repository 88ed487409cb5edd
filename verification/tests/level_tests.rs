use ball_merge::interp::Fraction;
use ball_merge::level::{Level, Rgb, CHANNEL_ONE, MAX_LEVEL, SCALE_ONE};

#[test]
fn scale_of_lowest_level_is_one() {
    assert_eq!(Level(1).scale(), SCALE_ONE);
    assert_eq!(SCALE_ONE, 1 << 20);
}

#[test]
fn scale_is_five_quarters_per_level() {
    assert_eq!(Level(2).scale(), 1_310_720);
    assert_eq!(Level(3).scale(), 1_638_400);
    assert_eq!(Level(11).scale(), 9_765_625);
    for l in 1..MAX_LEVEL {
        let lo = Level(l).scale() as u64;
        let hi = Level(l + 1).scale() as u64;
        assert_eq!(4 * hi, 5 * lo);
    }
}

#[test]
fn scale_matches_floating_point_power() {
    for l in 1..=MAX_LEVEL {
        let exact = Level(l).scale() as f64 / SCALE_ONE as f64;
        let power = 1.25f64.powi(l as i32 - 1);
        assert!((exact - power).abs() < 1e-9);
    }
}

#[test]
fn scale_strictly_increases_with_level() {
    for lo in 1..=MAX_LEVEL {
        for hi in (lo + 1)..=MAX_LEVEL {
            assert!(Level(hi).scale() > Level(lo).scale());
        }
    }
}

#[test]
fn scale_is_deterministic() {
    for l in 1..=MAX_LEVEL {
        assert_eq!(Level(l).scale(), Level(l).scale());
    }
}

#[test]
fn from_draw_wraps_the_draw_into_range() {
    assert_eq!(Level::from_draw(0, Level(4)), Level(1));
    assert_eq!(Level::from_draw(3, Level(4)), Level(4));
    assert_eq!(Level::from_draw(4, Level(4)), Level(1));
    assert_eq!(Level::from_draw(7, Level(4)), Level(4));
    assert_eq!(Level::from_draw(usize::MAX, Level(1)), Level(1));
    assert_eq!(Level::from_draw(10, Level(usize::MAX)), Level(11));
}

#[test]
fn random_level_stays_in_range() {
    for max in 1..=MAX_LEVEL {
        for _ in 0..200 {
            let level = Level::random(Level(max));
            assert!(1 <= level.0 && level.0 <= max);
        }
    }
}

#[test]
fn random_level_with_max_one_is_one() {
    for _ in 0..50 {
        assert_eq!(Level::random(Level(1)), Level(1));
    }
}

#[test]
fn random_level_varies() {
    let first = Level::random(Level(4));
    let mut differs = false;
    for _ in 0..400 {
        if Level::random(Level(4)) != first {
            differs = true;
        }
    }
    assert!(differs);
}

#[test]
fn color_of_each_level_is_exact() {
    assert_eq!(Level(1).color(), Rgb { r: 1100, g: 870, b: 594 });
    assert_eq!(Level(2).color(), Rgb { r: 1054, g: 1100, b: 594 });
    assert_eq!(Level(3).color(), Rgb { r: 778, g: 1100, b: 594 });
    assert_eq!(Level(4).color(), Rgb { r: 594, g: 1100, b: 686 });
    assert_eq!(Level(5).color(), Rgb { r: 594, g: 1100, b: 962 });
    assert_eq!(Level(6).color(), Rgb { r: 594, g: 962, b: 1100 });
    assert_eq!(Level(7).color(), Rgb { r: 594, g: 686, b: 1100 });
    assert_eq!(Level(8).color(), Rgb { r: 778, g: 594, b: 1100 });
    assert_eq!(Level(9).color(), Rgb { r: 1054, g: 594, b: 1100 });
    assert_eq!(Level(10).color(), Rgb { r: 1100, g: 594, b: 870 });
    assert_eq!(Level(11).color(), Rgb { r: 1100, g: 594, b: 594 });
}

fn hsl_channels(hue: f64, saturation: f64, lightness: f64) -> [f64; 3] {
    let chroma = (1.0 - (2.0 * lightness - 1.0).abs()) * saturation;
    let sixth = hue / 60.0;
    let second = chroma * (1.0 - (sixth % 2.0 - 1.0).abs());
    let (r, g, b) = if sixth < 1.0 {
        (chroma, second, 0.0)
    } else if sixth < 2.0 {
        (second, chroma, 0.0)
    } else if sixth < 3.0 {
        (0.0, chroma, second)
    } else if sixth < 4.0 {
        (0.0, second, chroma)
    } else if sixth < 5.0 {
        (second, 0.0, chroma)
    } else {
        (chroma, 0.0, second)
    };
    let m = lightness - chroma / 2.0;
    [r + m, g + m, b + m]
}

#[test]
fn color_matches_floating_point_hsl() {
    for l in 1..=MAX_LEVEL {
        let hue = l as f64 / MAX_LEVEL as f64 * 360.0;
        let expected = hsl_channels(hue, 1.0, 0.77);
        let c = Level(l).color();
        let got = [
            c.r as f64 / CHANNEL_ONE as f64,
            c.g as f64 / CHANNEL_ONE as f64,
            c.b as f64 / CHANNEL_ONE as f64,
        ];
        for i in 0..3 {
            assert!((expected[i] - got[i]).abs() < 1e-9, "level {} channel {}", l, i);
        }
    }
}

#[test]
fn color_is_a_pastel() {
    for l in 1..=MAX_LEVEL {
        let c = Level(l).color();
        for ch in [c.r, c.g, c.b] {
            assert!(594 <= ch && ch <= CHANNEL_ONE);
        }
        let hi = c.r.max(c.g).max(c.b);
        let lo = c.r.min(c.g).min(c.b);
        assert_eq!(hi, 1100);
        assert_eq!(lo, 594);
    }
}

#[test]
fn color_blend_is_channel_wise() {
    let from = Level(2).color();
    let to = Level(3).color();
    assert_eq!(from.lerp(to, Fraction { num: 0, den: 5 }), from);
    assert_eq!(from.lerp(to, Fraction { num: 5, den: 5 }), to);
    assert_eq!(from.lerp(to, Fraction { num: 1, den: 2 }), Rgb { r: 916, g: 1100, b: 594 });
    assert_eq!(to.lerp(from, Fraction { num: 1, den: 2 }), Rgb { r: 916, g: 1100, b: 594 });
}

#[test]
fn levels_order_by_tier() {
    assert!(Level(2) < Level(3));
    assert_eq!(Level(5), Level(5));
    assert_eq!(Level(4).max(Level(9)), Level(9));
}
