//! The discrete size tier of a ball, with its derived scale and color.

use crate::interp::{lerp, spec_lerp, Fraction};
use vstd::arithmetic::power::pow;
use vstd::prelude::*;

verus! {

/// The highest tier a ball can reach.
pub const MAX_LEVEL: usize = 11;

/// The fixed-point value that stands for a scale of exactly one: scales carry
/// twenty fractional bits, which holds every tier's scale without rounding.
pub const SCALE_ONE: u32 = 1_048_576;

/// The value of a color channel at full intensity. Channels are counted in
/// steps of one part in `100 * MAX_LEVEL`, which holds every tier's color
/// without rounding.
pub const CHANNEL_ONE: u16 = 1100;

/// Saturation of every tier's color, in percent.
pub const SATURATION: u16 = 100;

/// Lightness of every tier's color, in percent.
pub const LIGHTNESS: u16 = 77;

/// A color as red, green and blue channels, each from 0 to [`CHANNEL_ONE`].
#[derive(Debug, Clone, Copy, PartialEq, Eq, Structural)]
pub struct Rgb {
    pub r: u16,
    pub g: u16,
    pub b: u16,
}

impl Rgb {
    pub open spec fn wf(self) -> bool {
        self.r <= CHANNEL_ONE && self.g <= CHANNEL_ONE && self.b <= CHANNEL_ONE
    }

    /// The color `t` of the way from `self` to `to`, each channel on its own.
    pub open spec fn spec_lerp(self, to: Rgb, t: Fraction) -> Rgb {
        Rgb {
            r: spec_lerp(self.r as int, to.r as int, t) as u16,
            g: spec_lerp(self.g as int, to.g as int, t) as u16,
            b: spec_lerp(self.b as int, to.b as int, t) as u16,
        }
    }

    /// Blends two colors channel by channel.
    pub fn lerp(self, to: Rgb, t: Fraction) -> (c: Rgb)
        requires
            t.wf(),
        ensures
            c == self.spec_lerp(to, t),
            self.wf() && to.wf() ==> c.wf(),
    {
        proof {
            crate::interp::lemma_lerp_bounds(self.r as int, to.r as int, t);
            crate::interp::lemma_lerp_bounds(self.g as int, to.g as int, t);
            crate::interp::lemma_lerp_bounds(self.b as int, to.b as int, t);
        }
        Rgb {
            r: lerp(self.r as i64, to.r as i64, t) as u16,
            g: lerp(self.g as i64, to.g as i64, t) as u16,
            b: lerp(self.b as i64, to.b as i64, t) as u16,
        }
    }
}

/// Chroma of the tier colors in percent: `(1 - |2 * lightness - 1|) *
/// saturation`.
pub open spec fn spec_chroma() -> int {
    let spread = if 2 * LIGHTNESS >= 100 {
        2 * LIGHTNESS - 100
    } else {
        100 - 2 * LIGHTNESS
    };
    (100 - spread) * SATURATION / 100
}

/// What is added to every channel so that the color has the lightness
/// asked for, in percent: `lightness - chroma / 2`.
pub open spec fn spec_lightness_match() -> int {
    LIGHTNESS - spec_chroma() / 2
}

/// A ball's size tier, from 1 to [`MAX_LEVEL`].
#[derive(Debug, Clone, Copy, PartialEq, Eq, Hash, PartialOrd, Ord, Structural)]
pub struct Level(pub usize);

impl Level {
    /// A level is valid when it lies in `1..=MAX_LEVEL`.
    pub open spec fn valid(self) -> bool {
        1 <= self.0 <= MAX_LEVEL
    }

    /// The scale of a tier as a fixed-point number over [`SCALE_ONE`]:
    /// `1.25^(level - 1)`, written as `5^(level - 1) / 4^(level - 1)` and
    /// brought over the common denominator `4^(MAX_LEVEL - 1)`.
    pub open spec fn spec_scale(self) -> int {
        pow(5, (self.0 - 1) as nat) * pow(4, (MAX_LEVEL - self.0) as nat)
    }

    /// The tier's hue in sixths of the color wheel, counted in steps of one
    /// part in `MAX_LEVEL`: the hue runs once round the wheel from the lowest
    /// tier to the highest.
    pub open spec fn spec_hue(self) -> int {
        6 * self.0
    }

    /// How far the second-largest channel has risen within the hue's sixth of
    /// the wheel, from 0 to `MAX_LEVEL`: `1 - |hue mod 2 - 1|`.
    pub open spec fn spec_ramp(self) -> int {
        let within = self.spec_hue() % (2 * MAX_LEVEL as int);
        if within >= MAX_LEVEL {
            2 * MAX_LEVEL - within
        } else {
            within
        }
    }

    /// The tier's color: hue `level / MAX_LEVEL` of the wheel at fixed
    /// saturation and lightness, converted to red, green and blue.
    pub open spec fn spec_color(self) -> Rgb {
        let c = spec_chroma() * MAX_LEVEL;
        let x = spec_chroma() * self.spec_ramp();
        let m = spec_lightness_match() * MAX_LEVEL;
        let sector = self.spec_hue() / (MAX_LEVEL as int);
        if sector == 0 {
            Rgb { r: (c + m) as u16, g: (x + m) as u16, b: m as u16 }
        } else if sector == 1 {
            Rgb { r: (x + m) as u16, g: (c + m) as u16, b: m as u16 }
        } else if sector == 2 {
            Rgb { r: m as u16, g: (c + m) as u16, b: (x + m) as u16 }
        } else if sector == 3 {
            Rgb { r: m as u16, g: (x + m) as u16, b: (c + m) as u16 }
        } else if sector == 4 {
            Rgb { r: (x + m) as u16, g: m as u16, b: (c + m) as u16 }
        } else {
            Rgb { r: (c + m) as u16, g: m as u16, b: (x + m) as u16 }
        }
    }

    /// The level that a random draw stands for among the levels up to `max`.
    pub open spec fn spec_from_draw(draw: usize, max: Level) -> Level {
        Level((draw % max.0 + 1) as usize)
    }

    /// Maps a random draw onto the levels `1..=max`, each equally often as
    /// the draw runs through a multiple of `max` values.
    pub fn from_draw(draw: usize, max: Level) -> (level: Level)
        requires
            max.0 >= 1,
        ensures
            level == Level::spec_from_draw(draw, max),
            1 <= level.0 <= max.0,
    {
        Level(draw % max.0 + 1)
    }

    /// A random level in `1..=max`.
    pub fn random(max: Level) -> (level: Level)
        requires
            max.0 >= 1,
        ensures
            1 <= level.0 <= max.0,
            exists|draw: usize| level == Level::spec_from_draw(draw, max),
    {
        let draw = random_draw();
        Level::from_draw(draw, max)
    }

    /// The tier's color, a pastel whose hue depends on the level alone.
    pub fn color(&self) -> (c: Rgb)
        requires
            self.valid(),
        ensures
            c == self.spec_color(),
            c.wf(),
    {
        let hue: u16 = 6 * (self.0 as u16);
        let within: u16 = hue % 22;
        let ramp: u16 = if within >= 11 {
            22 - within
        } else {
            within
        };
        let c: u16 = 46 * 11;
        let x: u16 = 46 * ramp;
        let m: u16 = 54 * 11;
        let sector: u16 = hue / 11;
        if sector == 0 {
            Rgb { r: c + m, g: x + m, b: m }
        } else if sector == 1 {
            Rgb { r: x + m, g: c + m, b: m }
        } else if sector == 2 {
            Rgb { r: m, g: c + m, b: x + m }
        } else if sector == 3 {
            Rgb { r: m, g: x + m, b: c + m }
        } else if sector == 4 {
            Rgb { r: x + m, g: m, b: c + m }
        } else {
            Rgb { r: c + m, g: m, b: x + m }
        }
    }

    /// The tier's scale in fixed point: each tier is a quarter larger than
    /// the one below it.
    pub fn scale(&self) -> (s: u32)
        requires
            self.valid(),
        ensures
            s == self.spec_scale(),
            SCALE_ONE <= s <= 9_765_625,
    {
        proof {
            lemma_scale_values();
        }
        match self.0 {
            1 => 1_048_576,
            2 => 1_310_720,
            3 => 1_638_400,
            4 => 2_048_000,
            5 => 2_560_000,
            6 => 3_200_000,
            7 => 4_000_000,
            8 => 5_000_000,
            9 => 6_250_000,
            10 => 7_812_500,
            _ => 9_765_625,
        }
    }
}

/// Draws a `usize` from the thread-local generator of the `rand` crate
/// (`rand::random::<usize>()`), which the operating system seeds. Nothing is
/// claimed of the value drawn: every `usize` may come back, and two calls may
/// differ.
#[verifier::external_body]
fn random_draw() -> (draw: usize) {
    rand::random::<usize>()
}

/// The value of every tier's scale.
pub proof fn lemma_scale_values()
    ensures
        Level(1).spec_scale() == 1_048_576,
        Level(2).spec_scale() == 1_310_720,
        Level(3).spec_scale() == 1_638_400,
        Level(4).spec_scale() == 2_048_000,
        Level(5).spec_scale() == 2_560_000,
        Level(6).spec_scale() == 3_200_000,
        Level(7).spec_scale() == 4_000_000,
        Level(8).spec_scale() == 5_000_000,
        Level(9).spec_scale() == 6_250_000,
        Level(10).spec_scale() == 7_812_500,
        Level(11).spec_scale() == 9_765_625,
{
    reveal_with_fuel(pow, 11);
    assert(pow(4, 0) == 1 && pow(5, 0) == 1);
    assert(pow(4, 1) == 4 && pow(5, 1) == 5);
    assert(pow(4, 2) == 16 && pow(5, 2) == 25);
    assert(pow(4, 3) == 64 && pow(5, 3) == 125);
    assert(pow(4, 4) == 256 && pow(5, 4) == 625);
    assert(pow(4, 5) == 1_024 && pow(5, 5) == 3_125);
    assert(pow(4, 6) == 4_096 && pow(5, 6) == 15_625);
    assert(pow(4, 7) == 16_384 && pow(5, 7) == 78_125);
    assert(pow(4, 8) == 65_536 && pow(5, 8) == 390_625);
    assert(pow(4, 9) == 262_144 && pow(5, 9) == 1_953_125);
    assert(pow(4, 10) == 1_048_576 && pow(5, 10) == 9_765_625);
}

/// The value of every tier's color.
pub proof fn lemma_color_values()
    ensures
        Level(1).spec_color() == (Rgb { r: 1100, g: 870, b: 594 }),
        Level(2).spec_color() == (Rgb { r: 1054, g: 1100, b: 594 }),
        Level(3).spec_color() == (Rgb { r: 778, g: 1100, b: 594 }),
        Level(4).spec_color() == (Rgb { r: 594, g: 1100, b: 686 }),
        Level(5).spec_color() == (Rgb { r: 594, g: 1100, b: 962 }),
        Level(6).spec_color() == (Rgb { r: 594, g: 962, b: 1100 }),
        Level(7).spec_color() == (Rgb { r: 594, g: 686, b: 1100 }),
        Level(8).spec_color() == (Rgb { r: 778, g: 594, b: 1100 }),
        Level(9).spec_color() == (Rgb { r: 1054, g: 594, b: 1100 }),
        Level(10).spec_color() == (Rgb { r: 1100, g: 594, b: 870 }),
        Level(11).spec_color() == (Rgb { r: 1100, g: 594, b: 594 }),
{
    assert(spec_chroma() == 46);
    assert(spec_lightness_match() == 54);
    assert(6int % 22 == 6);
}

/// A higher tier is strictly larger: for valid levels `lo < hi` the scale of
/// `hi` exceeds the scale of `lo`.
pub proof fn lemma_scale_strictly_increasing(lo: Level, hi: Level)
    requires
        lo.valid(),
        hi.valid(),
        lo.0 < hi.0,
    ensures
        lo.spec_scale() < hi.spec_scale(),
{
    lemma_scale_values();
}

/// Each tier's scale is exactly five quarters of the scale below it.
pub proof fn lemma_scale_step(level: Level)
    requires
        level.valid(),
        level.0 < MAX_LEVEL,
    ensures
        4 * Level((level.0 + 1) as usize).spec_scale() == 5 * level.spec_scale(),
{
    lemma_scale_values();
}

} // verus!
