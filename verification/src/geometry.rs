//! Points and axis-aligned rectangles in world space.

use vstd::prelude::*;
use crate::common::{clamp_i64, clamped_add};

verus! {

/// A point of the world, in thousandths of a world unit.
#[derive(Clone, Copy, Debug, PartialEq, Eq, Structural)]
pub struct Position {
    pub x: i64,
    pub y: i64,
}

impl Position {
    #[must_use]
    pub fn new(x: i64, y: i64) -> (p: Self)
        ensures
            p == (Position { x, y }),
    {
        Position { x, y }
    }

    /// The point reached from `self` by `(dx, dy)`; each coordinate stops at
    /// the ends of the `i64` range.
    pub open spec fn moved(self, dx: int, dy: int) -> Position {
        Position { x: clamp_i64(self.x + dx), y: clamp_i64(self.y + dy) }
    }

    /// Moves the point by `(dx, dy)`.
    #[must_use]
    pub fn offset(self, dx: i64, dy: i64) -> (p: Self)
        ensures
            p == self.moved(dx as int, dy as int),
    {
        Position { x: clamped_add(self.x, dx), y: clamped_add(self.y, dy) }
    }
}

/// An axis-aligned rectangle given by its top-left corner, width and height.
#[derive(Clone, Copy, Debug, PartialEq, Eq, Structural)]
pub struct Rect {
    pub x: i64,
    pub y: i64,
    pub w: i64,
    pub h: i64,
}

impl Rect {
    #[must_use]
    pub fn new(x: i64, y: i64, w: i64, h: i64) -> (r: Self)
        ensures
            r == (Rect { x, y, w, h }),
    {
        Rect { x, y, w, h }
    }

    /// Whether `point` lies inside: the left and top edges belong to the
    /// rectangle, the right and bottom edges do not.
    pub open spec fn holds(self, point: Position) -> bool {
        &&& self.x <= point.x < self.x + self.w
        &&& self.y <= point.y < self.y + self.h
    }

    /// Checks whether the rectangle contains `point`.
    pub fn contains(&self, point: Position) -> (b: bool)
        ensures
            b == self.holds(point),
    {
        let right: i128 = self.x as i128 + self.w as i128;
        let bottom: i128 = self.y as i128 + self.h as i128;
        point.x >= self.x && (point.x as i128) < right && (point.y as i128) < bottom && point.y
            >= self.y
    }

    /// The rectangle grown by `margin` on every side.
    pub open spec fn grown(self, margin: int) -> Rect {
        Rect {
            x: clamp_i64(self.x - margin),
            y: clamp_i64(self.y - margin),
            w: clamp_i64(self.w + 2 * margin),
            h: clamp_i64(self.h + 2 * margin),
        }
    }

    /// Grows the rectangle by `margin` on every side.
    #[must_use]
    pub fn inflate(&self, margin: u32) -> (r: Rect)
        ensures
            r == self.grown(margin as int),
    {
        let m: i64 = margin as i64;
        Rect {
            x: clamped_add(self.x, -m),
            y: clamped_add(self.y, -m),
            w: clamped_add(self.w, 2 * m),
            h: clamped_add(self.h, 2 * m),
        }
    }
}

} // verus!
