//! The simulated bodies: circles that remember where they are and where they
//! were one step ago.

use vstd::prelude::*;
use crate::fixed::saturate;
use crate::fixed::saturate_i128;

verus! {

/// A point or a displacement in the plane, in raw fixed-point steps.
#[derive(Clone, Copy, Debug, PartialEq, Eq, Structural)]
pub struct Vec2 {
    pub x: i64,
    pub y: i64,
}

impl Vec2 {
    /// The vector with both components zero.
    pub open spec fn origin() -> Vec2 {
        Vec2 { x: 0, y: 0 }
    }

    /// The vector with the given components.
    pub fn new(x: i64, y: i64) -> (v: Vec2)
        ensures
            v == (Vec2 { x, y }),
    {
        Vec2 { x, y }
    }

    /// The vector with both components zero, as a value.
    pub fn zero() -> (v: Vec2)
        ensures
            v == Vec2::origin(),
    {
        Vec2 { x: 0, y: 0 }
    }
}

/// A circular body. Its velocity is never stored: it is the step from
/// `previous_position` to `position`.
#[derive(Clone, Copy, Debug, PartialEq, Eq, Structural)]
pub struct Body {
    /// Where the centre is now.
    pub position: Vec2,
    /// Where the centre was before the latest integration.
    pub previous_position: Vec2,
    /// Accelerations gathered since the latest integration.
    pub acceleration: Vec2,
    /// Extent of the circle, for collisions and for the boundary.
    pub radius: u32,
}

impl Body {
    /// Horizontal distance covered in the latest step, as an exact integer.
    pub open spec fn velocity_x(self) -> int {
        self.position.x - self.previous_position.x
    }

    /// Vertical distance covered in the latest step, as an exact integer.
    pub open spec fn velocity_y(self) -> int {
        self.position.y - self.previous_position.y
    }

    /// Whether the body has no implied velocity and no pending acceleration.
    pub open spec fn at_rest(self) -> bool {
        self.previous_position == self.position && self.acceleration == Vec2::origin()
    }

    /// The implied velocity per step, each component held to the 64-bit range.
    pub fn velocity(&self) -> (v: Vec2)
        ensures
            v.x == saturate(self.velocity_x()),
            v.y == saturate(self.velocity_y()),
    {
        Vec2 {
            x: saturate_i128(self.position.x as i128 - self.previous_position.x as i128),
            y: saturate_i128(self.position.y as i128 - self.previous_position.y as i128),
        }
    }
}

/// A new body at rest at `initial_position`.
pub fn create_body(initial_position: Vec2, radius: u32) -> (body: Body)
    ensures
        body.position == initial_position,
        body.previous_position == initial_position,
        body.acceleration == Vec2::origin(),
        body.radius == radius,
        body.at_rest(),
{
    Body {
        position: initial_position,
        previous_position: initial_position,
        acceleration: Vec2 { x: 0, y: 0 },
        radius,
    }
}

} // verus!
