use vstd::prelude::*;
use crate::geometry::{Position, Rect};
use crate::shapes::{Rgba, Shape};

verus! {

/// A straight piece of road that leaves `position` under `rotation`.
#[derive(Debug, Clone, Copy, PartialEq, Eq, Structural)]
pub struct Segment {
    pub position: Position,
    pub rotation: i32,
    pub size: u32,
}

impl Segment {
    #[must_use]
    pub fn new(position: Position, rotation: i32, size: u32) -> (s: Self)
        ensures
            s == (Segment { position, rotation, size }),
    {
        Self { position, rotation, size }
    }

    /// A line a fifth as thick as it is long where the segment starts inside
    /// `viewport`, else nothing.
    pub open spec fn drawn(self, viewport: Rect) -> Option<Shape> {
        if viewport.holds(self.position) {
            Some(
                Shape::Line {
                    start: self.position,
                    rotation: self.rotation,
                    length: self.size,
                    thickness: self.size / 5,
                    color: Rgba::dark_gray(),
                },
            )
        } else {
            None
        }
    }

    /// The shape to draw, or `None` where the segment starts outside
    /// `viewport`.
    pub fn draw(&self, viewport: Rect) -> (shape: Option<Shape>)
        ensures
            shape == self.drawn(viewport),
    {
        if viewport.contains(self.position) {
            Some(
                Shape::Line {
                    start: self.position,
                    rotation: self.rotation,
                    length: self.size,
                    thickness: self.size / 5,
                    color: Rgba::dark_gray(),
                },
            )
        } else {
            None
        }
    }
}

} // verus!
