//! The square that stands for the player.

use vstd::prelude::*;
use crate::entity::dynamic::random_mover::{turn_by, turned};
use crate::geometry::Position;

verus! {

/// The side of a new square.
pub const SQUARE_SIZE: u32 = 25_000;

/// A square around `center`, turned by `rotation`.
#[derive(Clone, Copy, Debug, PartialEq, Eq, Structural)]
pub struct Square {
    pub center: Position,
    pub rotation: i32,
    pub size: u32,
}

impl Square {
    /// An upright square of side `SQUARE_SIZE` around `center`.
    #[must_use]
    pub fn new(center: Position) -> (s: Self)
        ensures
            s == (Square { center, rotation: 0, size: SQUARE_SIZE }),
    {
        Self { center, rotation: 0, size: SQUARE_SIZE }
    }

    /// Whether `after` is `self` after its heading advanced by `turn` and it
    /// walked at `speed` under the new heading: moved by what `steer` gives for the
    /// heading and the speed, and not moved at all at speed 0.
    pub open spec fn walks_to<F: Fn(i32, i32) -> (i64, i64)>(
        self,
        after: Square,
        turn: int,
        speed: i32,
        steer: &F,
    ) -> bool {
        &&& after.rotation == turned(self.rotation as int, turn)
        &&& after.size == self.size
        &&& if speed == 0 {
            after.center == self.center
        } else {
            exists|d: (i64, i64)|
                call_ensures(steer, (after.rotation, speed), d) && after.center
                    == #[trigger] self.center.moved(d.0 as int, d.1 as int)
        }
    }

    /// Turns by `turn` and walks at `speed` under the new heading.
    pub fn walk<F: Fn(i32, i32) -> (i64, i64)>(&mut self, turn: i32, speed: i32, steer: &F)
        requires
            forall|r: i32, s: i32| call_requires(steer, (r, s)),
        ensures
            old(self).walks_to(*final(self), turn as int, speed, steer),
    {
        self.rotation = turn_by(self.rotation, turn);
        if speed != 0 {
            let delta = steer(self.rotation, speed);
            self.center = self.center.offset(delta.0, delta.1);
            assert(self.center == old(self).center.moved(delta.0 as int, delta.1 as int));
        }
    }

    /// The corners of an upright square of side `size` around the origin:
    /// top left, top right, bottom right, bottom left.
    pub open spec fn corner_points(size: u32) -> Seq<Position> {
        let half = (size / 2) as i64;
        seq![
            Position { x: (-half) as i64, y: (-half) as i64 },
            Position { x: half, y: (-half) as i64 },
            Position { x: half, y: half },
            Position { x: (-half) as i64, y: half },
        ]
    }

    /// The corners of an upright square of side `size` around the origin.
    #[must_use]
    pub fn corners(size: u32) -> (points: [Position; 4])
        ensures
            points@ == Self::corner_points(size),
    {
        let half_size: i64 = (size / 2) as i64;
        let points = [
            Position::new(-half_size, -half_size),
            Position::new(half_size, -half_size),
            Position::new(half_size, half_size),
            Position::new(-half_size, half_size),
        ];
        assert(points@ =~= Self::corner_points(size));
        points
    }
}

} // verus!
