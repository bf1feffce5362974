//! Creatures that move.
//!
//! Turning a heading into a displacement is floating-point work and is
//! handed in by the caller as a steering function: from a heading in
//! thousandths of a degree and a speed to the displacement of one step.
//! Everything here holds for whatever the steering function returns.

pub mod follower;
pub mod random_mover;
pub mod updatable;
