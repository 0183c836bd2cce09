//! A fixed-step simulation of circular particles ("balls") in a bounded
//! plane: motion, broad-phase and narrow-phase collision handling, and
//! wrap-around at the edges of the plane.
//!
//! All quantities are fixed-point numbers ([`fixed`]), so that a run is the
//! same on every machine and every result is an exact function of its inputs.
//!
//! A tick runs the phases in this order:
//!
//! 1. the integrator moves every particle ([`ball::apply_velocity_system`]);
//! 2. the broad phase names candidate pairs, either every pair or, by
//!    sweep-and-prune, the pairs whose extents along the x-axis overlap
//!    ([`broad_phase`], [`cache`]);
//! 3. the narrow phase tests each candidate exactly and resolves the collision
//!    of an overlapping pair ([`narrow_phase`], [`collision`]);
//! 4. the boundary wrapper moves particles that have left the plane to the
//!    opposite edge ([`ball::ball_warp_system`]).
//!
//! [`context::SimulationContext`] holds the particles, the sorted index cache
//! and the statistics, and runs whole ticks. [`collision_laws`] states what
//! the response to a collision guarantees.

pub mod ball;
pub mod broad_phase;
pub mod cache;
pub mod collision;
pub mod collision_laws;
pub mod context;
pub mod fixed;
pub mod narrow_phase;
pub mod vector;
