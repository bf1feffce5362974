//! Simulation core of a chunk-streamed, procedurally generated 2D world.
//!
//! Every length is a whole number of thousandths of a world unit and every
//! angle a whole number of thousandths of a degree, so that all of the
//! simulation is exact integer arithmetic.

pub mod common;
pub mod entity;
pub mod geometry;
pub mod random;
pub mod shapes;
pub mod special;
pub mod world;
