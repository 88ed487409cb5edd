//! What the game is set up with. The core only reads it.

use vstd::prelude::*;

verus! {

#[derive(Debug, Clone, Copy, PartialEq, Eq, Structural)]
pub struct Config {
    /// Height at which a new ball waits to be dropped, in fixed-point world
    /// units.
    pub drop_height: i64,
    /// Radius of a ball of the lowest level, in fixed-point world units.
    pub small_ball_radius: i64,
    /// How long a merge and the growth that follows it take, in nanoseconds.
    pub grow_time: u64,
    /// The highest level that a new ball may be given.
    pub max_random_level: usize,
}

impl Config {
    /// A new ball needs at least one level to draw from.
    pub open spec fn valid(self) -> bool {
        self.max_random_level >= 1
    }

    pub open spec fn spec_default() -> Config {
        Config {
            drop_height: 600_000,
            small_ball_radius: 25_000,
            grow_time: 250_000_000,
            max_random_level: 4,
        }
    }
}

impl Default for Config {
    fn default() -> (config: Config)
        ensures
            config == Config::spec_default(),
            config.valid(),
    {
        Config {
            drop_height: 600_000,
            small_ball_radius: 25_000,
            grow_time: 250_000_000,
            max_random_level: 4,
        }
    }
}

} // verus!
