//! The per-frame driver: it splits a frame into sub-steps and runs gravity,
//! containment, collision resolution and integration in each, in that order.
//!
//! The order matters. Containment and collisions correct the current
//! position before integration reads it, so a correction becomes part of
//! the velocity implied by the next step.

use vstd::prelude::*;
use crate::body::Body;
use crate::body::Vec2;
use crate::collision::resolve_collisions;
use crate::collision::resolved;
use crate::collision_laws::lemma_resolved_moves_only;
use crate::collision_laws::lemma_single_body_unmoved;
use crate::constraints::apply_bounds;
use crate::constraints::bounded;
use crate::constraints::BoundaryRect;
use crate::integrator::accelerate;
use crate::integrator::accelerated;
use crate::fixed::displacement;
use crate::fixed::lemma_div_toward_zero_bounds;
use crate::fixed::saturate;
use crate::fixed::SCALE;
use crate::integrator::integrate;
use crate::integrator::integrated;
use crate::integrator::lemma_displacement_of_nothing;

verus! {

/// Downward pull in raw steps per second squared: 980 world units.
pub const STANDARD_GRAVITY: i64 = -980_000_000;

/// Sub-steps per frame unless configured otherwise.
pub const STANDARD_SUB_STEPS: u32 = 2;

/// What a simulation is run with, apart from the bodies and the region.
#[derive(Clone, Copy, Debug, PartialEq, Eq, Structural)]
pub struct SimulationConfig {
    /// Acceleration applied to every body in every sub-step.
    pub gravity: Vec2,
    /// How many sub-steps a frame is split into.
    pub sub_steps: u32,
}

impl SimulationConfig {
    /// Gravity straight down at the standard strength, two sub-steps a frame.
    pub open spec fn standard() -> SimulationConfig {
        SimulationConfig { gravity: Vec2 { x: 0, y: STANDARD_GRAVITY }, sub_steps: STANDARD_SUB_STEPS }
    }
}

impl Default for SimulationConfig {
    fn default() -> (config: SimulationConfig)
        ensures
            config == SimulationConfig::standard(),
    {
        SimulationConfig { gravity: Vec2 { x: 0, y: STANDARD_GRAVITY }, sub_steps: STANDARD_SUB_STEPS }
    }
}

/// Every body with `a` added to its pending acceleration.
pub open spec fn all_accelerated(bodies: Seq<Body>, a: Vec2) -> Seq<Body> {
    Seq::new(bodies.len(), |i: int| accelerated(bodies[i], a))
}

/// Every body held within `region`.
pub open spec fn all_bounded(bodies: Seq<Body>, region: BoundaryRect) -> Seq<Body> {
    Seq::new(bodies.len(), |i: int| bounded(bodies[i], region))
}

/// Every body advanced by one step of `dt` microseconds.
pub open spec fn all_integrated(bodies: Seq<Body>, dt: u32) -> Seq<Body> {
    Seq::new(bodies.len(), |i: int| integrated(bodies[i], dt))
}

/// The collection after one sub-step of `dt` microseconds: gravity, then
/// containment, then one collision pass, then integration.
pub open spec fn sub_stepped(bodies: Seq<Body>, gravity: Vec2, region: BoundaryRect, dt: u32) -> Seq<
    Body,
> {
    all_integrated(resolved(all_bounded(all_accelerated(bodies, gravity), region)), dt)
}

/// The collection after `count` sub-steps of `dt` microseconds each.
pub open spec fn sub_stepped_times(
    bodies: Seq<Body>,
    gravity: Vec2,
    region: BoundaryRect,
    dt: u32,
    count: nat,
) -> Seq<Body>
    decreases count,
{
    if count == 0 {
        bodies
    } else {
        sub_stepped(sub_stepped_times(bodies, gravity, region, dt, (count - 1) as nat), gravity, region, dt)
    }
}

/// The collection after one frame of `frame_dt` microseconds. Each sub-step
/// lasts the frame time divided by the number of sub-steps, rounded down to
/// a whole microsecond. With no sub-steps configured nothing moves.
pub open spec fn stepped(
    bodies: Seq<Body>,
    frame_dt: u32,
    region: BoundaryRect,
    config: SimulationConfig,
) -> Seq<Body> {
    if config.sub_steps == 0 {
        bodies
    } else {
        sub_stepped_times(
            bodies,
            config.gravity,
            region,
            (frame_dt / config.sub_steps) as u32,
            config.sub_steps as nat,
        )
    }
}

/// A sub-step keeps the number of bodies and the radius of each, and leaves
/// no acceleration pending.
pub proof fn lemma_sub_stepped_shape(bodies: Seq<Body>, gravity: Vec2, region: BoundaryRect, dt: u32)
    ensures
        sub_stepped(bodies, gravity, region, dt).len() == bodies.len(),
        forall|i: int|
            0 <= i < bodies.len() ==> {
                &&& (#[trigger] sub_stepped(bodies, gravity, region, dt)[i]).radius
                    == bodies[i].radius
                &&& sub_stepped(bodies, gravity, region, dt)[i].acceleration == Vec2::origin()
            },
{
    lemma_resolved_moves_only(all_bounded(all_accelerated(bodies, gravity), region));
}

/// Any number of sub-steps keeps the number of bodies and the radius of
/// each; one or more leave no acceleration pending.
pub proof fn lemma_sub_stepped_times_shape(
    bodies: Seq<Body>,
    gravity: Vec2,
    region: BoundaryRect,
    dt: u32,
    count: nat,
)
    ensures
        sub_stepped_times(bodies, gravity, region, dt, count).len() == bodies.len(),
        forall|i: int|
            0 <= i < bodies.len() ==> {
                &&& (#[trigger] sub_stepped_times(bodies, gravity, region, dt, count)[i]).radius
                    == bodies[i].radius
                &&& count > 0 ==> sub_stepped_times(bodies, gravity, region, dt, count)[i].acceleration
                    == Vec2::origin()
            },
    decreases count,
{
    if count > 0 {
        let before = sub_stepped_times(bodies, gravity, region, dt, (count - 1) as nat);
        lemma_sub_stepped_times_shape(bodies, gravity, region, dt, (count - 1) as nat);
        lemma_sub_stepped_shape(before, gravity, region, dt);
        assert forall|i: int| 0 <= i < bodies.len() implies {
            &&& (#[trigger] sub_stepped_times(bodies, gravity, region, dt, count)[i]).radius
                == bodies[i].radius
            &&& sub_stepped_times(bodies, gravity, region, dt, count)[i].acceleration
                == Vec2::origin()
        } by {
            assert(sub_stepped(before, gravity, region, dt)[i].radius == before[i].radius);
        }
    }
}

/// A sub-step on a body alone is gravity, containment and integration of
/// that body: there is nothing for it to collide with.
pub proof fn lemma_sub_stepped_alone(b: Body, gravity: Vec2, region: BoundaryRect, dt: u32)
    ensures
        sub_stepped(seq![b], gravity, region, dt) == seq![
            integrated(bounded(accelerated(b, gravity), region), dt),
        ],
{
    let held = all_bounded(all_accelerated(seq![b], gravity), region);
    assert(held =~= seq![bounded(accelerated(b, gravity), region)]);
    lemma_single_body_unmoved(bounded(accelerated(b, gravity), region));
    assert(all_integrated(seq![bounded(accelerated(b, gravity), region)], dt) =~= seq![
        integrated(bounded(accelerated(b, gravity), region), dt),
    ]);
}

/// Whether the body lies on the bottom of the region: its latest step ended
/// at or below the height where its circle touches the bottom edge, and
/// began at that height, with nothing sideways and no acceleration pending.
pub open spec fn lying_on_bottom(b: Body, region: BoundaryRect) -> bool {
    &&& b.acceleration == Vec2::origin()
    &&& b.previous_position.y == region.bottom + b.radius
    &&& b.position.y <= region.bottom + b.radius
    &&& b.previous_position.x == b.position.x
    &&& region.left + b.radius <= b.position.x <= region.right - b.radius
}

/// A body alone that lies on the bottom of a region large enough for it,
/// under a gravity that points straight down, lies there after a sub-step
/// too: each sub-step puts it back on the bottom and lets it sink by the
/// displacement that gravity gives in one sub-step, no further.
pub proof fn lemma_lying_body_stays(b: Body, gravity: Vec2, region: BoundaryRect, dt: u32)
    requires
        lying_on_bottom(b, region),
        region.admits(b.radius),
        gravity.x == 0,
        gravity.y <= 0,
    ensures
        ({
            let after = sub_stepped(seq![b], gravity, region, dt)[0];
            &&& lying_on_bottom(after, region)
            &&& after.position.x == b.position.x
            &&& after.position.y == saturate(
                region.bottom + b.radius + displacement(gravity.y as int, dt as int),
            )
            &&& after.radius == b.radius
        }),
{
    lemma_sub_stepped_alone(b, gravity, region, dt);
    lemma_displacement_of_nothing(dt as int);
    assert(gravity.y * dt * dt <= 0) by (nonlinear_arith)
        requires
            gravity.y <= 0,
            dt >= 0,
    ;
    lemma_div_toward_zero_bounds(gravity.y * dt * dt, SCALE as int * SCALE as int);
}

/// A body alone that has come down to the bottom of a region large enough
/// for it, with nothing sideways and under a gravity that points straight
/// down, lies on the bottom after one sub-step: containment puts it at the
/// resting height, and what it keeps of its fall takes it below, where the
/// next containment finds it.
pub proof fn lemma_body_lands(b: Body, gravity: Vec2, region: BoundaryRect, dt: u32)
    requires
        b.acceleration == Vec2::origin(),
        b.position.y <= region.bottom + b.radius <= b.previous_position.y,
        b.previous_position.x == b.position.x,
        region.left + b.radius <= b.position.x <= region.right - b.radius,
        region.admits(b.radius),
        gravity.x == 0,
        gravity.y <= 0,
    ensures
        lying_on_bottom(sub_stepped(seq![b], gravity, region, dt)[0], region),
        sub_stepped(seq![b], gravity, region, dt)[0].position.x == b.position.x,
        sub_stepped(seq![b], gravity, region, dt)[0].radius == b.radius,
{
    lemma_sub_stepped_alone(b, gravity, region, dt);
    lemma_displacement_of_nothing(dt as int);
    assert(gravity.y * dt * dt <= 0) by (nonlinear_arith)
        requires
            gravity.y <= 0,
            dt >= 0,
    ;
    lemma_div_toward_zero_bounds(gravity.y * dt * dt, SCALE as int * SCALE as int);
}

/// Adds `gravity` to the pending acceleration of every body.
pub fn apply_gravity(bodies: &mut Vec<Body>, gravity: Vec2)
    ensures
        final(bodies)@ == all_accelerated(old(bodies)@, gravity),
{
    let n: usize = bodies.len();
    let mut i: usize = 0;
    while i < n
        invariant
            i <= n,
            bodies@.len() == n,
            old(bodies)@.len() == n,
            forall|j: int| 0 <= j < i ==> bodies@[j] == accelerated(old(bodies)@[j], gravity),
            forall|j: int| i <= j < n ==> bodies@[j] == old(bodies)@[j],
        decreases n - i,
    {
        accelerate(&mut bodies[i], gravity);
        i += 1;
    }
    assert(bodies@ =~= all_accelerated(old(bodies)@, gravity));
}

/// Holds every body within `region`.
pub fn apply_constraints(bodies: &mut Vec<Body>, region: BoundaryRect)
    ensures
        final(bodies)@ == all_bounded(old(bodies)@, region),
{
    let n: usize = bodies.len();
    let mut i: usize = 0;
    while i < n
        invariant
            i <= n,
            bodies@.len() == n,
            old(bodies)@.len() == n,
            forall|j: int| 0 <= j < i ==> bodies@[j] == bounded(old(bodies)@[j], region),
            forall|j: int| i <= j < n ==> bodies@[j] == old(bodies)@[j],
        decreases n - i,
    {
        apply_bounds(&mut bodies[i], region);
        i += 1;
    }
    assert(bodies@ =~= all_bounded(old(bodies)@, region));
}

/// Advances every body by one step of `dt` microseconds.
pub fn update_positions(bodies: &mut Vec<Body>, dt: u32)
    ensures
        final(bodies)@ == all_integrated(old(bodies)@, dt),
{
    let n: usize = bodies.len();
    let mut i: usize = 0;
    while i < n
        invariant
            i <= n,
            bodies@.len() == n,
            old(bodies)@.len() == n,
            forall|j: int| 0 <= j < i ==> bodies@[j] == integrated(old(bodies)@[j], dt),
            forall|j: int| i <= j < n ==> bodies@[j] == old(bodies)@[j],
        decreases n - i,
    {
        integrate(&mut bodies[i], dt);
        i += 1;
    }
    assert(bodies@ =~= all_integrated(old(bodies)@, dt));
}

/// Runs one frame of `frame_dt` microseconds on the bodies, in place.
pub fn step(bodies: &mut Vec<Body>, frame_dt: u32, region: BoundaryRect, config: &SimulationConfig)
    ensures
        final(bodies)@ == stepped(old(bodies)@, frame_dt, region, *config),
        final(bodies)@.len() == old(bodies)@.len(),
        forall|i: int|
            0 <= i < old(bodies)@.len() ==> (#[trigger] final(bodies)@[i]).radius == old(
                bodies,
            )@[i].radius,
        config.sub_steps > 0 ==> forall|i: int|
            0 <= i < old(bodies)@.len() ==> (#[trigger] final(bodies)@[i]).acceleration
                == Vec2::origin(),
{
    if config.sub_steps == 0 {
        return ;
    }
    let sub_dt: u32 = frame_dt / config.sub_steps;
    proof {
        lemma_sub_stepped_times_shape(
            bodies@,
            config.gravity,
            region,
            sub_dt,
            config.sub_steps as nat,
        );
    }
    let mut done: u32 = 0;
    while done < config.sub_steps
        invariant
            done <= config.sub_steps,
            bodies@ == sub_stepped_times(old(bodies)@, config.gravity, region, sub_dt, done as nat),
        decreases config.sub_steps - done,
    {
        apply_gravity(bodies, config.gravity);
        apply_constraints(bodies, region);
        resolve_collisions(bodies);
        update_positions(bodies, sub_dt);
        done += 1;
    }
}

} // verus!
