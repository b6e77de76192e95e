//! Containment of a body in an axis-aligned rectangle.

use vstd::prelude::*;
use crate::body::Body;
use crate::body::Vec2;
use crate::fixed::saturate;
use crate::fixed::saturate_i128;

verus! {

/// The rectangle that bodies are kept in, given by the coordinate of each
/// edge. `left` and `right` bound x, `bottom` and `top` bound y.
#[derive(Clone, Copy, Debug, PartialEq, Eq, Structural)]
pub struct BoundaryRect {
    pub left: i64,
    pub right: i64,
    pub top: i64,
    pub bottom: i64,
}

impl BoundaryRect {
    /// Whether a circle of this radius fits: the rectangle spans at least one
    /// diameter in both directions.
    pub open spec fn admits(self, radius: u32) -> bool {
        self.left + radius <= self.right - radius && self.bottom + radius <= self.top - radius
    }

    /// Whether the whole circle of `b` lies within the rectangle.
    pub open spec fn contains(self, b: Body) -> bool {
        self.left + b.radius <= b.position.x <= self.right - b.radius
            && self.bottom + b.radius <= b.position.y <= self.top - b.radius
    }

    /// The rectangle with the given edges.
    pub fn new(left: i64, right: i64, top: i64, bottom: i64) -> (region: BoundaryRect)
        ensures
            region == (BoundaryRect { left, right, top, bottom }),
    {
        BoundaryRect { left, right, top, bottom }
    }
}

/// One coordinate of a centre after both edges of its axis have had their
/// say, the low edge first: a centre closer than `radius` to an edge, or
/// beyond it, is put at `radius` from that edge.
pub open spec fn held(v: i64, low_edge: int, high_edge: int, radius: int) -> i64 {
    let raised = if v < low_edge + radius {
        saturate(low_edge + radius)
    } else {
        v
    };
    if raised > high_edge - radius {
        saturate(high_edge - radius)
    } else {
        raised
    }
}

/// The body after its centre has been held within `region` on both axes.
/// Only the position changes: the previous position, and with it the implied
/// velocity along an axis that was held, is left as it was.
pub open spec fn bounded(b: Body, region: BoundaryRect) -> Body {
    Body {
        position: Vec2 {
            x: held(b.position.x, region.left as int, region.right as int, b.radius as int),
            y: held(b.position.y, region.bottom as int, region.top as int, b.radius as int),
        },
        ..b
    }
}

fn hold(v: i64, low_edge: i64, high_edge: i64, radius: u32) -> (r: i64)
    ensures
        r == held(v, low_edge as int, high_edge as int, radius as int),
{
    let low: i128 = low_edge as i128 + radius as i128;
    let high: i128 = high_edge as i128 - radius as i128;
    let mut r: i64 = v;
    if (r as i128) < low {
        r = saturate_i128(low);
    }
    if (r as i128) > high {
        r = saturate_i128(high);
    }
    r
}

/// Holds the body within `region`, each axis on its own, so that a body in a
/// corner is held on two edges at once. Where the region spans at least the
/// body's diameter both ways, the whole circle lies inside it afterwards.
pub fn apply_bounds(body: &mut Body, region: BoundaryRect)
    ensures
        *final(body) == bounded(*old(body), region),
        region.admits(old(body).radius) ==> region.contains(*final(body)),
        region.contains(*old(body)) ==> *final(body) == *old(body),
{
    let x: i64 = hold(body.position.x, region.left, region.right, body.radius);
    let y: i64 = hold(body.position.y, region.bottom, region.top, body.radius);
    body.position = Vec2 { x, y };
}

/// Holding a body within a region a second time changes nothing, whatever
/// the body and the region.
pub proof fn lemma_bounds_idempotent(b: Body, region: BoundaryRect)
    ensures
        bounded(bounded(b, region), region) == bounded(b, region),
{
}

} // verus!
