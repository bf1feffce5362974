//! What lives in a chunk.

pub mod dynamic;
pub mod statich;
