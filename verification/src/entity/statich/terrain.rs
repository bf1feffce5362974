use vstd::prelude::*;
use crate::geometry::{Position, Rect};
use crate::shapes::{Rgba, Shape};

verus! {

/// A square tile of ground, coloured by the noise value under it.
#[derive(Debug, Clone, Copy, PartialEq, Eq, Structural)]
pub struct Terrain {
    pub position: Position,
    pub color: u8,
    pub size: u32,
}

impl Terrain {
    #[must_use]
    pub fn new(position: Position, color: u8, size: u32) -> (t: Self)
        ensures
            t == (Terrain { position, color, size }),
    {
        Self { position, color, size }
    }

    /// A square where the tile's corner lies inside `viewport`, else nothing.
    pub open spec fn drawn(self, viewport: Rect) -> Option<Shape> {
        if viewport.holds(self.position) {
            Some(
                Shape::Rectangle {
                    corner: self.position,
                    w: self.size,
                    h: self.size,
                    color: Rgba::terrain(self.color),
                },
            )
        } else {
            None
        }
    }

    /// The shape to draw, or `None` where the tile's corner lies outside
    /// `viewport`.
    pub fn draw(&self, viewport: Rect) -> (shape: Option<Shape>)
        ensures
            shape == self.drawn(viewport),
    {
        if viewport.contains(self.position) {
            Some(
                Shape::Rectangle {
                    corner: self.position,
                    w: self.size,
                    h: self.size,
                    color: Rgba::terrain(self.color),
                },
            )
        } else {
            None
        }
    }
}

} // verus!
