use vstd::prelude::*;
use crate::geometry::{Position, Rect};
use crate::shapes::{Rgba, Shape};

verus! {

/// A five-sided stone.
#[derive(Debug, Clone, Copy, PartialEq, Eq, Structural)]
pub struct Stone {
    pub position: Position,
    pub rotation: i32,
    pub size: u32,
}

impl Stone {
    #[must_use]
    pub fn new(position: Position, rotation: i32, size: u32) -> (s: Self)
        ensures
            s == (Stone { position, rotation, size }),
    {
        Self { position, rotation, size }
    }

    /// A pentagon where the stone lies inside `viewport`, else nothing.
    pub open spec fn drawn(self, viewport: Rect) -> Option<Shape> {
        if viewport.holds(self.position) {
            Some(
                Shape::Polygon {
                    center: self.position,
                    sides: 5,
                    radius: self.size,
                    rotation: self.rotation,
                    color: Rgba::dark_gray(),
                },
            )
        } else {
            None
        }
    }

    /// The shape to draw, or `None` where the stone lies outside `viewport`.
    pub fn draw(&self, viewport: Rect) -> (shape: Option<Shape>)
        ensures
            shape == self.drawn(viewport),
    {
        if viewport.contains(self.position) {
            Some(
                Shape::Polygon {
                    center: self.position,
                    sides: 5,
                    radius: self.size,
                    rotation: self.rotation,
                    color: Rgba::dark_gray(),
                },
            )
        } else {
            None
        }
    }
}

} // verus!
