//! The pieces the world is assembled from.

pub mod camera;
pub mod chunk;
pub mod index;
pub mod noise;
pub mod square;
