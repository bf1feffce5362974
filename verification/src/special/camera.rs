//! What the camera looks at.

use vstd::prelude::*;
use crate::geometry::Position;

verus! {

/// The camera's target and heading, and what it follows. A camera that
/// follows a position or a heading takes it over on every update.
#[derive(Clone, Copy, Debug, PartialEq, Eq, Structural)]
pub struct Camera {
    pub target: Position,
    pub rotation: i32,
    pub followed_pos: Option<Position>,
    pub followed_rot: Option<i32>,
}

impl Camera {
    /// A camera that looks at the origin and follows nothing.
    #[must_use]
    pub fn new() -> (c: Self)
        ensures
            c == (Camera {
                target: Position { x: 0, y: 0 },
                rotation: 0,
                followed_pos: None,
                followed_rot: None,
            }),
    {
        Self {
            target: Position::new(0, 0),
            rotation: 0,
            followed_pos: None,
            followed_rot: None,
        }
    }

    /// The camera after an update: on what it follows, where it follows
    /// anything.
    pub open spec fn updated(self) -> Camera {
        Camera {
            target: match self.followed_pos {
                Some(target) => target,
                None => self.target,
            },
            rotation: match self.followed_rot {
                Some(rot) => rot,
                None => self.rotation,
            },
            followed_pos: self.followed_pos,
            followed_rot: self.followed_rot,
        }
    }

    /// Moves the camera onto what it follows.
    pub fn update(&mut self)
        ensures
            *final(self) == old(self).updated(),
    {
        if let Some(target) = self.followed_pos {
            self.target = target;
        }
        if let Some(rot) = self.followed_rot {
            self.rotation = rot;
        }
    }

    /// Stops following.
    pub fn unfollow(&mut self)
        ensures
            *final(self) == (Camera { followed_pos: None, followed_rot: None, ..*old(self) }),
    {
        self.followed_pos = None;
        self.followed_rot = None;
    }

    /// Sets what the camera follows.
    pub fn set_follow(&mut self, position: Option<Position>, rotation: Option<i32>)
        ensures
            *final(self) == (Camera {
                followed_pos: position,
                followed_rot: rotation,
                ..*old(self)
            }),
    {
        self.followed_pos = position;
        self.followed_rot = rotation;
    }
}

impl Default for Camera {
    fn default() -> (c: Self)
        ensures
            c == (Camera {
                target: Position { x: 0, y: 0 },
                rotation: 0,
                followed_pos: None,
                followed_rot: None,
            }),
    {
        Self::new()
    }
}

} // verus!
