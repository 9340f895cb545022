//! Directions and vectors on a grid.

use vstd::prelude::*;

verus! {

/// A direction along an axis.
#[derive(Clone, Copy, Debug, PartialEq, Eq, Structural)]
pub enum CardinalDir {
    /// Towards negative `y`.
    North,
    /// Towards positive `y`.
    South,
    /// Towards positive `x`.
    East,
    /// Towards negative `x`.
    West,
}

/// A vector between two positions of a grid.
#[derive(Clone, Copy, Debug, PartialEq, Eq, Structural)]
pub struct Vec2 {
    /// The x component.
    pub x: i64,
    /// The y component.
    pub y: i64,
}

impl Vec2 {
    /// Creates a vector from its components.
    pub fn new(x: i64, y: i64) -> (v: Self)
        ensures
            v.x == x,
            v.y == y,
    {
        Self { x, y }
    }

    /// The unit vector pointing in the direction.
    pub fn pointing(dir: CardinalDir) -> (v: Self)
        ensures
            v == (match dir {
                CardinalDir::North => Vec2 { x: 0, y: -1i64 },
                CardinalDir::South => Vec2 { x: 0, y: 1 },
                CardinalDir::West => Vec2 { x: -1i64, y: 0 },
                CardinalDir::East => Vec2 { x: 1, y: 0 },
            }),
    {
        match dir {
            CardinalDir::North => Self::new(0, -1),
            CardinalDir::South => Self::new(0, 1),
            CardinalDir::West => Self::new(-1, 0),
            CardinalDir::East => Self::new(1, 0),
        }
    }
}

} // verus!
