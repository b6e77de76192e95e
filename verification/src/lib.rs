//! Deterministic fixed-point Verlet particle physics: circular bodies under
//! gravity, kept inside a rectangle and pushed apart where they overlap.
//!
//! All state is integer. Positions, radii and accelerations count millionths
//! of a world unit, times count microseconds (see `fixed`). Nothing here
//! fails or panics: a value that would leave the 64-bit range sticks to its
//! nearest end.
//!
//! A host owns the bodies in a `Vec`, calls `stepper::step` once a frame and
//! reads the positions back.

pub mod fixed;
pub mod body;
pub mod integrator;
pub mod constraints;
pub mod collision;
pub mod collision_laws;
pub mod stepper;
