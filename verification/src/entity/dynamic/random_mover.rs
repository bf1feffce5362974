use vstd::prelude::*;
use crate::common::clamp_i32;
use crate::geometry::{Position, Rect};
use crate::random::draw_between;
use crate::shapes::{Rgba, Shape};

verus! {

/// The heading changes by less than this much per update, either way.
pub const MAX_TURN: i32 = 10_000;

/// A creature that wanders: it turns a little at random and walks on.
#[derive(Debug, Clone, Copy, PartialEq, Eq, Structural)]
pub struct RandomMover {
    pub position: Position,
    pub rotation: i32,
    pub size: u32,
    pub speed: i32,
}

/// The heading `rotation` advanced by `turn`, held to the `i32` range.
pub open spec fn turned(rotation: int, turn: int) -> int {
    clamp_i32(rotation + turn) as int
}

/// Advances the heading `rotation` by `turn`.
pub fn turn_by(rotation: i32, turn: i32) -> (r: i32)
    ensures
        r == turned(rotation as int, turn as int),
        i32::MIN < rotation + turn < i32::MAX ==> r == rotation + turn,
{
    let sum: i64 = rotation as i64 + turn as i64;
    if sum > i32::MAX as i64 {
        i32::MAX
    } else if sum < i32::MIN as i64 {
        i32::MIN
    } else {
        sum as i32
    }
}

impl RandomMover {
    #[must_use]
    pub fn new(position: Position, rotation: i32, size: u32, speed: i32) -> (m: Self)
        ensures
            m == (RandomMover { position, rotation, size, speed }),
    {
        Self { position, rotation, size, speed }
    }

    pub fn get_pos(&self) -> (p: Position)
        ensures
            p == self.position,
    {
        self.position
    }

    /// Whether `after` is `self` one step on: its heading advanced by `turn`,
    /// then moved by what `steer` gives for the new heading and the speed.
    pub open spec fn steps_to<F: Fn(i32, i32) -> (i64, i64)>(
        self,
        after: RandomMover,
        turn: int,
        steer: &F,
    ) -> bool {
        &&& after.rotation == turned(self.rotation as int, turn)
        &&& after.size == self.size
        &&& after.speed == self.speed
        &&& exists|d: (i64, i64)|
            call_ensures(steer, (after.rotation, self.speed), d) && after.position
                == #[trigger] self.position.moved(d.0 as int, d.1 as int)
    }

    /// Turns by `turn` and walks one step under the new heading.
    pub fn advance<F: Fn(i32, i32) -> (i64, i64)>(&mut self, turn: i32, steer: &F)
        requires
            forall|r: i32, s: i32| call_requires(steer, (r, s)),
        ensures
            old(self).steps_to(*final(self), turn as int, steer),
    {
        self.rotation = turn_by(self.rotation, turn);
        let delta = steer(self.rotation, self.speed);
        self.position = self.position.offset(delta.0, delta.1);
        assert(self.position == old(self).position.moved(delta.0 as int, delta.1 as int));
    }

    /// Turns by a random amount below `MAX_TURN` either way and walks one
    /// step under the new heading.
    pub fn update<F: Fn(i32, i32) -> (i64, i64)>(&mut self, steer: &F)
        requires
            forall|r: i32, s: i32| call_requires(steer, (r, s)),
        ensures
            exists|turn: int|
                -MAX_TURN <= turn < MAX_TURN && #[trigger] old(self).steps_to(
                    *final(self),
                    turn,
                    steer,
                ),
    {
        let turn: i32 = draw_between(-MAX_TURN, MAX_TURN);
        self.advance(turn, steer);
        assert(old(self).steps_to(*self, turn as int, steer));
    }

    /// A pentagon where the creature is inside `viewport`, else nothing.
    pub open spec fn drawn(self, viewport: Rect) -> Option<Shape> {
        if viewport.holds(self.position) {
            Some(
                Shape::Polygon {
                    center: self.position,
                    sides: 5,
                    radius: self.size,
                    rotation: self.rotation,
                    color: Rgba::dark_gray(),
                },
            )
        } else {
            None
        }
    }

    /// The shape to draw, or `None` where the creature is outside `viewport`.
    pub fn draw(&self, viewport: Rect) -> (shape: Option<Shape>)
        ensures
            shape == self.drawn(viewport),
    {
        if viewport.contains(self.position) {
            Some(
                Shape::Polygon {
                    center: self.position,
                    sides: 5,
                    radius: self.size,
                    rotation: self.rotation,
                    color: Rgba::dark_gray(),
                },
            )
        } else {
            None
        }
    }
}

} // verus!
