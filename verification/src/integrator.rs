//! Position-based Verlet integration of a single body.

use vstd::prelude::*;
use crate::body::Body;
use crate::body::Vec2;
use crate::fixed::displacement;
use crate::fixed::displacement_of;
use crate::fixed::saturate;
use crate::fixed::saturate_i128;

verus! {

/// The body after `a` has been added to its pending acceleration.
pub open spec fn accelerated(b: Body, a: Vec2) -> Body {
    Body {
        acceleration: Vec2 {
            x: saturate(b.acceleration.x + a.x),
            y: saturate(b.acceleration.y + a.y),
        },
        ..b
    }
}

/// Where a coordinate lands after one step of `dt` microseconds: it repeats
/// its latest step and adds the displacement due to the pending acceleration.
pub open spec fn advanced(current: int, previous: int, acc: int, dt: int) -> i64 {
    saturate(current + (current - previous) + displacement(acc, dt))
}

/// The body after one Verlet step of `dt` microseconds.
pub open spec fn integrated(b: Body, dt: u32) -> Body {
    Body {
        position: Vec2 {
            x: advanced(b.position.x as int, b.previous_position.x as int, b.acceleration.x as int, dt as int),
            y: advanced(b.position.y as int, b.previous_position.y as int, b.acceleration.y as int, dt as int),
        },
        previous_position: b.position,
        acceleration: Vec2::origin(),
        radius: b.radius,
    }
}

/// Adds `a` to the acceleration that the next integration will consume.
/// Contributions add up until then.
pub fn accelerate(body: &mut Body, a: Vec2)
    ensures
        *final(body) == accelerated(*old(body), a),
{
    body.acceleration = Vec2 {
        x: saturate_i128(body.acceleration.x as i128 + a.x as i128),
        y: saturate_i128(body.acceleration.y as i128 + a.y as i128),
    };
}

fn advance(current: i64, previous: i64, acc: i64, dt: u32) -> (next: i64)
    ensures
        next == advanced(current as int, previous as int, acc as int, dt as int),
{
    let push: i128 = displacement_of(acc, dt);
    saturate_i128(current as i128 + (current as i128 - previous as i128) + push)
}

/// Advances the body by one step of `dt` microseconds and clears its pending
/// acceleration. The outcome depends on the body and on `dt` alone.
pub fn integrate(body: &mut Body, dt: u32)
    ensures
        *final(body) == integrated(*old(body), dt),
{
    let x: i64 = advance(body.position.x, body.previous_position.x, body.acceleration.x, dt);
    let y: i64 = advance(body.position.y, body.previous_position.y, body.acceleration.y, dt);
    body.previous_position = body.position;
    body.position = Vec2 { x, y };
    body.acceleration = Vec2 { x: 0, y: 0 };
}

/// The body after `steps` steps of `dt` microseconds each with nothing
/// acting on it in between.
pub open spec fn coasted(b: Body, dt: u32, steps: nat) -> Body
    decreases steps,
{
    if steps == 0 {
        b
    } else {
        integrated(coasted(b, dt, (steps - 1) as nat), dt)
    }
}

/// No acceleration, no displacement.
pub proof fn lemma_displacement_of_nothing(dt: int)
    ensures
        displacement(0, dt) == 0,
{
    assert(0 * dt * dt == 0) by (nonlinear_arith);
}

/// A step without acceleration repeats the step before it: the implied
/// velocity is what it was, as long as the new position is within the
/// 64-bit range.
pub proof fn lemma_velocity_preserved(b: Body, dt: u32)
    requires
        b.acceleration == Vec2::origin(),
        i64::MIN <= b.position.x + b.velocity_x() <= i64::MAX,
        i64::MIN <= b.position.y + b.velocity_y() <= i64::MAX,
    ensures
        integrated(b, dt).velocity_x() == b.velocity_x(),
        integrated(b, dt).velocity_y() == b.velocity_y(),
        integrated(b, dt).acceleration == Vec2::origin(),
{
    lemma_displacement_of_nothing(dt as int);
}

/// A body that nothing acts on moves in a straight line at constant
/// velocity: after `steps` steps it has covered `steps` times its first
/// step, and its implied velocity is unchanged, as long as the place it
/// reaches is within the 64-bit range.
pub proof fn lemma_free_motion(b: Body, dt: u32, steps: nat)
    requires
        b.acceleration == Vec2::origin(),
        i64::MIN <= b.position.x + steps * b.velocity_x() <= i64::MAX,
        i64::MIN <= b.position.y + steps * b.velocity_y() <= i64::MAX,
    ensures
        coasted(b, dt, steps).position.x == b.position.x + steps * b.velocity_x(),
        coasted(b, dt, steps).position.y == b.position.y + steps * b.velocity_y(),
        coasted(b, dt, steps).velocity_x() == b.velocity_x(),
        coasted(b, dt, steps).velocity_y() == b.velocity_y(),
        coasted(b, dt, steps).acceleration == Vec2::origin(),
        coasted(b, dt, steps).radius == b.radius,
    decreases steps,
{
    if steps > 0 {
        let fewer = (steps - 1) as nat;
        let vx = b.velocity_x();
        let vy = b.velocity_y();
        assert((vx >= 0 ==> 0 <= fewer * vx <= steps * vx) && (vx <= 0 ==> steps * vx <= fewer * vx
            <= 0) && steps * vx == fewer * vx + vx) by (nonlinear_arith)
            requires
                fewer + 1 == steps,
                fewer >= 0,
        ;
        assert((vy >= 0 ==> 0 <= fewer * vy <= steps * vy) && (vy <= 0 ==> steps * vy <= fewer * vy
            <= 0) && steps * vy == fewer * vy + vy) by (nonlinear_arith)
            requires
                fewer + 1 == steps,
                fewer >= 0,
        ;
        lemma_free_motion(b, dt, fewer);
        lemma_velocity_preserved(coasted(b, dt, fewer), dt);
    } else {
        assert(steps * b.velocity_x() == 0 && steps * b.velocity_y() == 0) by (nonlinear_arith)
            requires
                steps == 0,
        ;
    }
}

/// A body at rest that receives the acceleration `a` and is then advanced
/// by `dt` microseconds has moved by the displacement that `a` gives over
/// `dt`, and remembers where it started.
pub proof fn lemma_fall_from_rest(b: Body, a: Vec2, dt: u32)
    requires
        b.at_rest(),
    ensures
        integrated(accelerated(b, a), dt).position.x == saturate(
            b.position.x + displacement(a.x as int, dt as int),
        ),
        integrated(accelerated(b, a), dt).position.y == saturate(
            b.position.y + displacement(a.y as int, dt as int),
        ),
        integrated(accelerated(b, a), dt).previous_position == b.position,
        integrated(accelerated(b, a), dt).acceleration == Vec2::origin(),
{
}

} // verus!
