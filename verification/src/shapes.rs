//! What the simulation asks a renderer to draw.

use vstd::prelude::*;
use crate::geometry::Position;

verus! {

/// A colour, one byte per channel.
#[derive(Clone, Copy, Debug, PartialEq, Eq, Structural)]
pub struct Rgba {
    pub r: u8,
    pub g: u8,
    pub b: u8,
    pub a: u8,
}

impl Rgba {
    /// The grey of stones and creatures.
    pub open spec fn spec_dark_gray() -> Rgba {
        Rgba { r: 79, g: 79, b: 79, a: 255 }
    }

    /// Opaque white.
    pub open spec fn spec_white() -> Rgba {
        Rgba { r: 255, g: 255, b: 255, a: 255 }
    }

    /// The colour of a terrain tile whose noise value is `noise`.
    pub open spec fn spec_terrain(noise: u8) -> Rgba {
        Rgba { r: 0, g: noise, b: (50 + noise / 2) as u8, a: 70 }
    }

    #[verifier::when_used_as_spec(spec_dark_gray)]
    pub fn dark_gray() -> (c: Rgba)
        ensures
            c == Rgba::dark_gray(),
    {
        Rgba { r: 79, g: 79, b: 79, a: 255 }
    }

    #[verifier::when_used_as_spec(spec_white)]
    pub fn white() -> (c: Rgba)
        ensures
            c == Rgba::white(),
    {
        Rgba { r: 255, g: 255, b: 255, a: 255 }
    }

    #[verifier::when_used_as_spec(spec_terrain)]
    pub fn terrain(noise: u8) -> (c: Rgba)
        ensures
            c == Rgba::terrain(noise),
    {
        Rgba { r: 0, g: noise, b: 50 + noise / 2, a: 70 }
    }
}

/// One drawing primitive in world space. Lengths are in thousandths of a
/// world unit, rotations in thousandths of a degree.
#[derive(Clone, Copy, Debug, PartialEq, Eq, Structural)]
pub enum Shape {
    /// A filled axis-aligned rectangle with its top-left corner at `corner`.
    Rectangle { corner: Position, w: u32, h: u32, color: Rgba },
    /// A filled regular polygon around `center`.
    Polygon { center: Position, sides: u8, radius: u32, rotation: i32, color: Rgba },
    /// A line that leaves `start` under the heading `rotation`.
    Line { start: Position, rotation: i32, length: u32, thickness: u32, color: Rgba },
}

} // verus!
