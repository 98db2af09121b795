//! A closed ring of Verlet particles ("soft body") held in shape by edge-length
//! and area constraints, reflected off the world box and pushed by a swept
//! circular effector.
//!
//! All arithmetic is exact integer arithmetic on fixed-point values (see
//! `fixed`): every step is stated as a formula over integers, with the rounding
//! written out, and each public function is proved to compute it.
//!
//! - `fixed`: fixed-point vectors and ratios, integer square root, scaled directions.
//! - `point`: one particle: Verlet integration, bounds, forces.
//! - `effector`: the swept disc and its capsule collision.
//! - `soft_body`: the ring, its constraint solver and the per-tick step.
//! - `outline`: Chaikin smoothing of the ring for display.
pub mod effector;
pub mod fixed;
pub mod outline;
pub mod point;
pub mod soft_body;
