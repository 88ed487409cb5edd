//! Positions and velocities on the plane, in fixed-point world units.

use crate::interp::{lemma_lerp_bounds, lerp, spec_lerp, Fraction};
use vstd::prelude::*;

verus! {

/// How many fixed-point steps make one world unit.
pub const WORLD_UNIT: i64 = 1_000_000;

/// A point or a displacement on the plane.
#[derive(Debug, Clone, Copy, PartialEq, Eq, Structural)]
pub struct Vector2 {
    pub x: i64,
    pub y: i64,
}

impl Vector2 {
    pub open spec fn spec_zero() -> Vector2 {
        Vector2 { x: 0, y: 0 }
    }

    /// The square of the vector's length.
    pub open spec fn spec_length_squared(self) -> int {
        self.x * self.x + self.y * self.y
    }

    /// The point `t` of the way from `self` to `to`.
    pub open spec fn spec_lerp(self, to: Vector2, t: Fraction) -> Vector2 {
        Vector2 {
            x: spec_lerp(self.x as int, to.x as int, t) as i64,
            y: spec_lerp(self.y as int, to.y as int, t) as i64,
        }
    }

    pub fn new(x: i64, y: i64) -> (v: Vector2)
        ensures
            v == (Vector2 { x, y }),
    {
        Vector2 { x, y }
    }

    pub fn zero() -> (v: Vector2)
        ensures
            v == Vector2::spec_zero(),
    {
        Vector2 { x: 0, y: 0 }
    }

    /// The square of the vector's length. Comparing squares orders vectors
    /// by length without taking a root.
    pub fn length_squared(&self) -> (sq: u128)
        ensures
            sq == self.spec_length_squared(),
    {
        let ax: u128 = magnitude(self.x);
        let ay: u128 = magnitude(self.y);
        proof {
            lemma_square_fits(ax as int);
            lemma_square_fits(ay as int);
            assert(ax * ax == self.x * self.x) by (nonlinear_arith)
                requires
                    ax == self.x || ax == -self.x,
            ;
            assert(ay * ay == self.y * self.y) by (nonlinear_arith)
                requires
                    ay == self.y || ay == -self.y,
            ;
        }
        ax * ax + ay * ay
    }

    /// Interpolates each coordinate from `self` to `to`.
    pub fn lerp(self, to: Vector2, t: Fraction) -> (v: Vector2)
        requires
            t.wf(),
        ensures
            v == self.spec_lerp(to, t),
    {
        Vector2 { x: lerp(self.x, to.x, t), y: lerp(self.y, to.y, t) }
    }
}

/// The absolute value of a coordinate.
fn magnitude(v: i64) -> (m: u128)
    ensures
        m == (if v >= 0 {
            v as int
        } else {
            -v
        }),
        m <= 0x8000_0000_0000_0000,
{
    if v >= 0 {
        v as u128
    } else {
        (-(v as i128)) as u128
    }
}

proof fn lemma_square_fits(m: int)
    requires
        0 <= m <= 0x8000_0000_0000_0000,
    ensures
        0 <= m * m <= 0x4000_0000_0000_0000_0000_0000_0000_0000,
{
    assert(0 <= m * m <= 0x8000_0000_0000_0000 * 0x8000_0000_0000_0000) by (nonlinear_arith)
        requires
            0 <= m <= 0x8000_0000_0000_0000,
    ;
}

/// Interpolating between two points starts at the first and ends at the
/// second.
pub proof fn lemma_vector_lerp_endpoints(from: Vector2, to: Vector2, t: Fraction)
    requires
        t.wf(),
    ensures
        t.num == 0 ==> from.spec_lerp(to, t) == from,
        t.num == t.den ==> from.spec_lerp(to, t) == to,
{
    lemma_lerp_bounds(from.x as int, to.x as int, t);
    lemma_lerp_bounds(from.y as int, to.y as int, t);
}

/// What the physics collaborator knows of a body's motion.
#[derive(Debug, Clone, Copy, PartialEq, Eq, Structural)]
pub struct Velocity {
    /// Displacement per second.
    pub linear: Vector2,
    /// Rotation per second.
    pub angular: i64,
}

impl Velocity {
    pub open spec fn spec_zero() -> Velocity {
        Velocity { linear: Vector2::spec_zero(), angular: 0 }
    }

    /// A body at rest.
    pub fn zero() -> (v: Velocity)
        ensures
            v == Velocity::spec_zero(),
    {
        Velocity { linear: Vector2 { x: 0, y: 0 }, angular: 0 }
    }

    /// The square of the linear speed.
    pub open spec fn spec_speed_squared(self) -> int {
        self.linear.spec_length_squared()
    }

    /// The square of the linear speed.
    pub fn speed_squared(&self) -> (sq: u128)
        ensures
            sq == self.spec_speed_squared(),
    {
        self.linear.length_squared()
    }
}

} // verus!
