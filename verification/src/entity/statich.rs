//! Immutable features of the terrain and the layers they are drawn in.

pub mod layers;
pub mod road;
pub mod stone;
pub mod terrain;

use std::cmp::Ordering;
use vstd::prelude::*;
use vstd::std_specs::cmp::{PartialEqSpecImpl, PartialOrdSpecImpl};
use crate::geometry::Rect;
use crate::shapes::Shape;

verus! {

/// A static feature of a chunk. Two statics compare by their variant alone:
/// the comparison places a static in its drawing layer and does not tell one
/// stone from another.
#[derive(Debug, Clone, Copy)]
pub enum Static {
    Stone(stone::Stone),
    Road(road::Segment),
    Terrain(terrain::Terrain),
}

/// How two layers stand to each other.
pub open spec fn layer_order(a: int, b: int) -> Ordering {
    if a < b {
        Ordering::Less
    } else if a == b {
        Ordering::Equal
    } else {
        Ordering::Greater
    }
}

impl Static {
    /// The drawing layer: terrain lies under roads, roads under stones.
    pub open spec fn layer(self) -> int {
        match self {
            Static::Terrain(_) => 0,
            Static::Road(_) => 1,
            Static::Stone(_) => 2,
        }
    }

    /// The drawing layer: terrain lies under roads, roads under stones.
    pub fn rank(&self) -> (r: u8)
        ensures
            r == self.layer(),
    {
        match self {
            Static::Terrain(_) => 0,
            Static::Road(_) => 1,
            Static::Stone(_) => 2,
        }
    }

    /// Compares the layers of two statics.
    pub fn cmp(&self, other: &Self) -> (o: Ordering)
        ensures
            o == layer_order(self.layer(), other.layer()),
    {
        match self {
            Static::Stone(_) => match other {
                Static::Stone(_) => Ordering::Equal,
                _ => Ordering::Greater,
            },
            Static::Road(_) => match other {
                Static::Road(_) => Ordering::Equal,
                Static::Stone(_) => Ordering::Less,
                _ => Ordering::Greater,
            },
            Static::Terrain(_) => match other {
                Static::Terrain(_) => Ordering::Equal,
                _ => Ordering::Less,
            },
        }
    }

    /// What drawing the static inside `viewport` puts on the screen.
    pub open spec fn drawn(self, viewport: Rect) -> Option<Shape> {
        match self {
            Static::Stone(stone) => stone.drawn(viewport),
            Static::Road(segment) => segment.drawn(viewport),
            Static::Terrain(terrain) => terrain.drawn(viewport),
        }
    }

    /// The shape to draw, or `None` where the static lies outside `viewport`.
    pub fn draw(&self, viewport: Rect) -> (shape: Option<Shape>)
        ensures
            shape == self.drawn(viewport),
    {
        match self {
            Static::Stone(stone) => stone.draw(viewport),
            Static::Road(segment) => segment.draw(viewport),
            Static::Terrain(terrain) => terrain.draw(viewport),
        }
    }
}

impl PartialEq for Static {
    fn eq(&self, other: &Self) -> (b: bool) {
        match self {
            Static::Stone(_) => match other {
                Static::Stone(_) => true,
                _ => false,
            },
            Static::Road(_) => match other {
                Static::Road(_) => true,
                _ => false,
            },
            Static::Terrain(_) => match other {
                Static::Terrain(_) => true,
                _ => false,
            },
        }
    }
}

impl PartialEqSpecImpl for Static {
    open spec fn obeys_eq_spec() -> bool {
        true
    }

    open spec fn eq_spec(&self, other: &Self) -> bool {
        self.layer() == other.layer()
    }
}

impl Eq for Static {

}

impl PartialOrd for Static {
    fn partial_cmp(&self, other: &Self) -> (o: Option<Ordering>) {
        Some(self.cmp(other))
    }
}

impl PartialOrdSpecImpl for Static {
    open spec fn obeys_partial_cmp_spec() -> bool {
        true
    }

    open spec fn partial_cmp_spec(&self, other: &Self) -> Option<Ordering> {
        Some(layer_order(self.layer(), other.layer()))
    }
}

} // verus!
