//! Collision detection and resolution for a world of moving axis-aligned
//! volumes: geometry primitives, bounds of collider shapes, a spatial hash
//! grid (broad phase) and the per-tick narrow-phase decisions.
//!
//! Coordinates are fixed-point integers ("world units"); times of impact are
//! exact fractions.

pub mod geometry;
pub mod collider;
pub mod broad_phase;
pub mod narrow_phase;
pub mod system;
pub mod motion;
pub mod input;
