//! A ball and the state it is in.

use crate::level::{Level, Rgb};
use crate::motion::{Vector2, Velocity};
use crate::timer::Timer;
use vstd::prelude::*;

verus! {

/// The name of a live entity. A name is never given out twice, so a stale
/// name finds nothing.
#[derive(Debug, Clone, Copy, PartialEq, Eq, Hash, PartialOrd, Ord, Structural)]
pub struct EntityId(pub u64);

/// Carried by a ball that is being absorbed by another.
#[derive(Debug, Clone, Copy, PartialEq, Eq, Structural)]
pub struct MergingInto {
    /// The absorbing ball. It is looked up by name each frame and may be gone.
    pub target: EntityId,
    pub timer: Timer,
    /// Where the absorbed ball was when the merge began.
    pub from_position: Vector2,
}

/// Carried by a ball that has absorbed another and is growing into its new
/// level.
#[derive(Debug, Clone, Copy, PartialEq, Eq, Structural)]
pub struct Growing {
    pub timer: Timer,
    /// The level before the merge raised it.
    pub from_level: Level,
}

/// Where a ball is in its life. The data of a transition travels with the
/// state that needs it, so the two cannot disagree.
#[derive(Debug, Clone, Copy, PartialEq, Eq, Structural)]
pub enum BallState {
    /// Follows the pointer until it is released. It has no physical body.
    Aiming,
    /// Falls and collides under physics.
    Normal,
    /// Moves toward the ball that absorbs it. It has no physical body.
    MergingInto(MergingInto),
    /// Grows toward the size and color of its new level, still under physics.
    Growing(Growing),
}

#[derive(Debug, Clone, Copy, PartialEq, Eq, Structural)]
pub struct Ball {
    pub level: Level,
    pub state: BallState,
}

/// A ball together with what the physics and render collaborators see of it.
#[derive(Debug, Clone, Copy, PartialEq, Eq, Structural)]
pub struct Entity {
    pub ball: Ball,
    pub position: Vector2,
    pub velocity: Velocity,
    /// Uniform scale of the sprite, in fixed point over `SCALE_ONE`.
    pub scale: u32,
    pub color: Rgb,
}

impl Entity {
    /// A ball is well formed when its levels are valid and, while it merges
    /// or grows, its timer is still running: a ball leaves either state on
    /// the frame its timer completes.
    pub open spec fn wf(self) -> bool {
        &&& self.ball.level.valid()
        &&& self.ball.state matches BallState::MergingInto(m) ==> m.timer.wf()
            && !m.timer.finished
        &&& self.ball.state matches BallState::Growing(g) ==> g.timer.wf() && !g.timer.finished
            && g.from_level.valid()
    }

    pub open spec fn spec_is_aiming(self) -> bool {
        self.ball.state is Aiming
    }

    pub open spec fn spec_is_normal(self) -> bool {
        self.ball.state is Normal
    }

    /// Exactly the balls that fall or grow carry a physical body.
    pub open spec fn spec_has_body(self) -> bool {
        self.ball.state is Normal || self.ball.state is Growing
    }

    /// A ball of the given level and state, at rest, drawn as its level asks.
    pub open spec fn spec_at_rest(level: Level, state: BallState, position: Vector2) -> Entity {
        Entity {
            ball: Ball { level, state },
            position,
            velocity: Velocity::spec_zero(),
            scale: level.spec_scale() as u32,
            color: level.spec_color(),
        }
    }

    /// A new ball of the given level and state, at rest.
    pub fn at_rest(level: Level, state: BallState, position: Vector2) -> (e: Entity)
        requires
            level.valid(),
        ensures
            e == Entity::spec_at_rest(level, state, position),
    {
        Entity {
            ball: Ball { level, state },
            position,
            velocity: Velocity::zero(),
            scale: level.scale(),
            color: level.color(),
        }
    }

    pub fn is_aiming(&self) -> (r: bool)
        ensures
            r == self.spec_is_aiming(),
    {
        match self.ball.state {
            BallState::Aiming => true,
            _ => false,
        }
    }

    pub fn is_normal(&self) -> (r: bool)
        ensures
            r == self.spec_is_normal(),
    {
        match self.ball.state {
            BallState::Normal => true,
            _ => false,
        }
    }

    /// Whether the ball carries a physical body.
    pub fn has_body(&self) -> (r: bool)
        ensures
            r == self.spec_has_body(),
    {
        match self.ball.state {
            BallState::Normal => true,
            BallState::Growing(_) => true,
            _ => false,
        }
    }
}

} // verus!
