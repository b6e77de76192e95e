use verlet::body::create_body;
use verlet::body::Body;
use verlet::body::Vec2;
use verlet::collision::resolve_collisions;
use verlet::constraints::apply_bounds;
use verlet::constraints::BoundaryRect;
use verlet::stepper::apply_constraints;
use verlet::stepper::apply_gravity;
use verlet::stepper::step;
use verlet::stepper::update_positions;
use verlet::stepper::SimulationConfig;
use verlet::stepper::STANDARD_GRAVITY;
use verlet::stepper::STANDARD_SUB_STEPS;

const UNIT: i64 = 1_000_000;
const FRAME: u32 = 16_667;

fn window() -> BoundaryRect {
    BoundaryRect::new(-640 * UNIT, 640 * UNIT, 360 * UNIT, -360 * UNIT)
}

fn pair() -> Vec<Body> {
    vec![
        create_body(Vec2::new(0, 0), 25_000_000),
        create_body(Vec2::new(30 * UNIT, 10 * UNIT), 25_000_000),
    ]
}

#[test]
fn default_config_is_standard_gravity_and_two_sub_steps() {
    let config = SimulationConfig::default();
    assert_eq!(config.gravity, Vec2 { x: 0, y: -980_000_000 });
    assert_eq!(config.sub_steps, 2);
    assert_eq!(STANDARD_GRAVITY, -980_000_000);
    assert_eq!(STANDARD_SUB_STEPS, 2);
}

#[test]
fn apply_gravity_reaches_every_body() {
    let mut bodies = pair();
    apply_gravity(&mut bodies, Vec2::new(1, -2));
    apply_gravity(&mut bodies, Vec2::new(10, -20));
    assert_eq!(bodies[0].acceleration, Vec2 { x: 11, y: -22 });
    assert_eq!(bodies[1].acceleration, Vec2 { x: 11, y: -22 });
    assert_eq!(bodies[0].position, Vec2 { x: 0, y: 0 });
    assert_eq!(bodies[1].position, Vec2 { x: 30 * UNIT, y: 10 * UNIT });
}

#[test]
fn apply_constraints_reaches_every_body() {
    let mut bodies = vec![
        create_body(Vec2::new(0, -1000 * UNIT), 25_000_000),
        create_body(Vec2::new(1000 * UNIT, 0), 10_000_000),
        create_body(Vec2::new(1, 2), 10_000_000),
    ];
    apply_constraints(&mut bodies, window());
    assert_eq!(bodies[0].position, Vec2 { x: 0, y: -335 * UNIT });
    assert_eq!(bodies[1].position, Vec2 { x: 630 * UNIT, y: 0 });
    assert_eq!(bodies[2].position, Vec2 { x: 1, y: 2 });
}

#[test]
fn update_positions_reaches_every_body() {
    let mut bodies = pair();
    bodies[0].previous_position = Vec2::new(-5, 5);
    bodies[1].acceleration = Vec2::new(0, -980_000_000);
    update_positions(&mut bodies, 10_000);
    assert_eq!(bodies[0].position, Vec2 { x: 5, y: -5 });
    assert_eq!(bodies[0].previous_position, Vec2 { x: 0, y: 0 });
    assert_eq!(bodies[1].position, Vec2 { x: 30 * UNIT, y: 10 * UNIT - 98_000 });
    assert_eq!(bodies[1].acceleration, Vec2 { x: 0, y: 0 });
}

#[test]
fn step_without_sub_steps_moves_nothing() {
    let mut bodies = pair();
    bodies[0].acceleration = Vec2::new(3, 4);
    let before = bodies.clone();
    let config = SimulationConfig { gravity: Vec2::new(0, -980_000_000), sub_steps: 0 };
    step(&mut bodies, FRAME, window(), &config);
    assert_eq!(bodies, before);
}

#[test]
fn step_on_no_bodies() {
    let mut bodies: Vec<Body> = Vec::new();
    step(&mut bodies, FRAME, window(), &SimulationConfig::default());
    assert!(bodies.is_empty());
}

#[test]
fn first_frame_of_a_fall() {
    let mut bodies = vec![create_body(Vec2::new(0, 300 * UNIT), 25_000_000)];
    step(&mut bodies, FRAME, window(), &SimulationConfig::default());
    // Two sub-steps of 8333 microseconds, 0.06805 units of fall gained in each.
    assert_eq!(bodies[0].previous_position, Vec2 { x: 0, y: 300 * UNIT - 68_050 });
    assert_eq!(bodies[0].position, Vec2 { x: 0, y: 300 * UNIT - 3 * 68_050 });
    assert_eq!(bodies[0].acceleration, Vec2 { x: 0, y: 0 });
    assert_eq!(bodies[0].radius, 25_000_000);
}

#[test]
fn step_is_its_four_phases_in_order() {
    let config = SimulationConfig { gravity: Vec2::new(1_000_000, -980_000_000), sub_steps: 3 };
    let mut by_step = pair();
    step(&mut by_step, FRAME, window(), &config);
    let mut by_hand = pair();
    let mut done = 0;
    while done < 3 {
        apply_gravity(&mut by_hand, config.gravity);
        apply_constraints(&mut by_hand, window());
        resolve_collisions(&mut by_hand);
        update_positions(&mut by_hand, FRAME / 3);
        done += 1;
    }
    assert_eq!(by_step, by_hand);
}

#[test]
fn overlapping_pair_over_three_frames() {
    let mut bodies = pair();
    let config = SimulationConfig::default();
    step(&mut bodies, FRAME, window(), &config);
    assert_eq!(bodies[0].position, Vec2 { x: -26_151_246, y: -8_921_232 });
    assert_eq!(bodies[0].previous_position, Vec2 { x: -17_434_164, y: -5_879_438 });
    assert_eq!(bodies[1].position, Vec2 { x: 56_151_246, y: 18_512_932 });
    assert_eq!(bodies[1].previous_position, Vec2 { x: 47_434_164, y: 15_743_338 });
    step(&mut bodies, FRAME, window(), &config);
    step(&mut bodies, FRAME, window(), &config);
    assert_eq!(bodies[0].position, Vec2 { x: -61_019_574, y: -21_768_908 });
    assert_eq!(bodies[1].position, Vec2 { x: 91_019_574, y: 28_910_808 });
    assert_eq!(bodies[0].acceleration, Vec2 { x: 0, y: 0 });
    assert_eq!(bodies[1].acceleration, Vec2 { x: 0, y: 0 });
}

#[test]
fn sub_step_time_is_rounded_down() {
    // Three microseconds over five sub-steps: each sub-step lasts no time,
    // so gravity does nothing. The first collision pass parts the bodies and
    // they keep the velocity that gave them.
    let mut bodies = pair();
    let config = SimulationConfig { gravity: Vec2::new(0, -980_000_000), sub_steps: 5 };
    step(&mut bodies, 3, window(), &config);
    assert_eq!(bodies[0].position, Vec2 { x: -52_302_492, y: -17_434_164 });
    assert_eq!(bodies[1].position, Vec2 { x: 82_302_492, y: 27_434_164 });
}

#[test]
fn step_keeps_count_and_radii_and_clears_accelerations() {
    let mut bodies = pair();
    bodies[1].radius = 7_000_000;
    bodies[0].acceleration = Vec2::new(123, 456);
    step(&mut bodies, FRAME, window(), &SimulationConfig::default());
    assert_eq!(bodies.len(), 2);
    assert_eq!(bodies[0].radius, 25_000_000);
    assert_eq!(bodies[1].radius, 7_000_000);
    assert_eq!(bodies[0].acceleration, Vec2 { x: 0, y: 0 });
    assert_eq!(bodies[1].acceleration, Vec2 { x: 0, y: 0 });
}

#[test]
fn falling_body_comes_to_rest_on_the_bottom() {
    let region = window();
    let config = SimulationConfig { gravity: Vec2::new(0, -980_000_000), sub_steps: 2 };
    let mut bodies = vec![create_body(Vec2::new(0, 300 * UNIT), 25_000_000)];
    let mut history: Vec<i64> = Vec::new();
    let mut frame = 0;
    while frame < 300 {
        step(&mut bodies, FRAME, region, &config);
        history.push(bodies[0].position.y);
        assert_eq!(bodies[0].position.x, 0);
        frame += 1;
    }
    // It falls for a little over a second, and lands in frame 68.
    assert!(history[67] > -335 * UNIT);
    assert!(history[68] < -335 * UNIT);
    // From then on it sits still: every frame ends where the one before did,
    // one sub-step of gravity below the resting height, where the next
    // containment finds it and puts it back.
    let mut later = 70;
    while later < 300 {
        assert_eq!(history[later], -335 * UNIT - 68_050);
        later += 1;
    }
    let resting = history[299] as f64 / UNIT as f64;
    assert!((resting - (-335.0)).abs() < 0.1);
    assert_eq!(bodies[0].previous_position, Vec2 { x: 0, y: -335 * UNIT });
    apply_bounds(&mut bodies[0], region);
    assert_eq!(bodies[0].position, Vec2 { x: 0, y: -335 * UNIT });
    let bottom_edge = (bodies[0].position.y - bodies[0].radius as i64) as f64 / UNIT as f64;
    assert_eq!(bottom_edge, -360.0);
    // Never further below than the length of the step it landed with.
    let lowest = history.iter().min().unwrap();
    assert_eq!(*lowest, -336_114_250);
}
