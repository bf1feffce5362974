use vstd::prelude::*;
use crate::entity::dynamic::follower::Follower;
use crate::entity::dynamic::random_mover::{RandomMover, MAX_TURN};
use crate::geometry::{Position, Rect};
use crate::shapes::Shape;
use crate::special::chunk::Chunk;

verus! {

/// A creature of one of the known kinds.
#[derive(Debug, Clone, Copy, PartialEq, Eq, Structural)]
pub enum Dynamic {
    RandomMover(RandomMover),
    Follower(Follower),
}

impl Dynamic {
    /// Where the creature is.
    pub open spec fn position(self) -> Position {
        match self {
            Dynamic::RandomMover(mover) => mover.position,
            Dynamic::Follower(follower) => follower.position,
        }
    }

    pub fn get_pos(&self) -> (p: Position)
        ensures
            p == self.position(),
    {
        match self {
            Dynamic::RandomMover(mover) => mover.get_pos(),
            Dynamic::Follower(follower) => follower.get_pos(),
        }
    }

    /// Whether `after` is `self` one update on, among the creatures in
    /// `slots`.
    pub open spec fn updates_to<F: Fn(i32, i32) -> (i64, i64)>(
        self,
        after: Dynamic,
        slots: Seq<Option<Dynamic>>,
        steer: &F,
    ) -> bool {
        match self {
            Dynamic::RandomMover(mover) => {
                &&& after is RandomMover
                &&& exists|turn: int|
                    -MAX_TURN <= turn < MAX_TURN && #[trigger] mover.steps_to(
                        after->RandomMover_0,
                        turn,
                        steer,
                    )
            },
            Dynamic::Follower(follower) => after == Dynamic::Follower(follower.followed(slots)),
        }
    }

    /// Lets the creature act once. It sees the other creatures of its chunk
    /// of `chunk`, where its own slot is empty.
    pub fn update<F: Fn(i32, i32) -> (i64, i64)>(
        &mut self,
        chunk: &Chunk,
        steer: &F,
    )
        requires
            forall|r: i32, s: i32| call_requires(steer, (r, s)),
        ensures
            old(self).updates_to(*final(self), chunk.dynamics@, steer),
    {
        match *self {
            Dynamic::RandomMover(mut mover) => {
                let ghost before = mover;
                mover.update(steer);
                *self = Dynamic::RandomMover(mover);
                proof {
                    let turn = choose|turn: int|
                        -MAX_TURN <= turn < MAX_TURN && #[trigger] before.steps_to(
                            mover,
                            turn,
                            steer,
                        );
                    assert(before.steps_to(self->RandomMover_0, turn, steer));
                }
            },
            Dynamic::Follower(mut follower) => {
                follower.update(chunk);
                *self = Dynamic::Follower(follower);
            },
        }
    }

    /// What drawing the creature inside `viewport` puts on the screen.
    pub open spec fn drawn(self, viewport: Rect) -> Option<Shape> {
        match self {
            Dynamic::RandomMover(mover) => mover.drawn(viewport),
            Dynamic::Follower(follower) => follower.drawn(viewport),
        }
    }

    /// The shape to draw, or `None` where the creature is outside `viewport`.
    pub fn draw(&self, viewport: Rect) -> (shape: Option<Shape>)
        ensures
            shape == self.drawn(viewport),
    {
        match self {
            Dynamic::RandomMover(mover) => mover.draw(viewport),
            Dynamic::Follower(follower) => follower.draw(viewport),
        }
    }
}

} // verus!
