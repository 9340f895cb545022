//! Positions on a square grid and the offsets between them.

use vstd::prelude::*;

pub use crate::node::Quadrant;

verus! {

/// A delta from one `Position` to another.
#[derive(Clone, Copy, Debug, PartialEq, Eq, Structural)]
pub enum Offset {
    /// `dx` cells west.
    West(i64),
    /// `dx` cells east.
    East(i64),
    /// `dy` cells north.
    North(i64),
    /// `dy` cells south.
    South(i64),
    /// `delta` cells north and west.
    Northwest(i64),
    /// `delta` cells north and east.
    Northeast(i64),
    /// `delta` cells south and west.
    Southwest(i64),
    /// `delta` cells south and east.
    Southeast(i64),
    /// `dx` cells east and `dy` cells south.
    Arbitrary { dx: i64, dy: i64 },
}

/// The `(dx, dy)` of an offset, east and south positive.
pub open spec fn delta(offset: Offset) -> (int, int) {
    match offset {
        Offset::West(dx) => (-dx, 0),
        Offset::East(dx) => (dx as int, 0),
        Offset::North(dy) => (0, -dy),
        Offset::South(dy) => (0, dy as int),
        Offset::Northwest(d) => (-d, -d),
        Offset::Northeast(d) => (d as int, -d),
        Offset::Southwest(d) => (-d, d as int),
        Offset::Southeast(d) => (d as int, d as int),
        Offset::Arbitrary { dx, dy } => (dx as int, dy as int),
    }
}

/// A location on a grid: `x` grows east, `y` grows south.
#[derive(Clone, Copy, Debug, PartialEq, Eq, Structural)]
pub struct Position {
    /// The x coordinate.
    pub x: i64,
    /// The y coordinate.
    pub y: i64,
}

impl Position {
    /// Creates a position from its coordinates.
    pub fn new(x: i64, y: i64) -> (p: Self)
        ensures
            p.x == x,
            p.y == y,
    {
        Self { x, y }
    }

    /// The quadrant of a grid centered at the origin that holds the
    /// position: north for negative `y`, west for negative `x`.
    pub fn quadrant(&self) -> (q: Quadrant)
        ensures
            q == crate::quadrant_of(self.x as int, self.y as int),
    {
        match (self.x < 0, self.y < 0) {
            (true, true) => Quadrant::Northwest,
            (false, true) => Quadrant::Northeast,
            (true, false) => Quadrant::Southwest,
            (false, false) => Quadrant::Southeast,
        }
    }

    /// The position moved by the offset.
    pub fn offset(&self, offset: Offset) -> (p: Position)
        requires
            i64::MIN <= self.x + delta(offset).0 <= i64::MAX,
            i64::MIN <= self.y + delta(offset).1 <= i64::MAX,
            i64::MIN < match offset {
                Offset::West(d) => d,
                Offset::North(d) => d,
                Offset::Northwest(d) => d,
                Offset::Northeast(d) => d,
                Offset::Southwest(d) => d,
                _ => 0,
            },
        ensures
            p.x == self.x + delta(offset).0,
            p.y == self.y + delta(offset).1,
    {
        let (dx, dy) = match offset {
            Offset::West(dx) => (-dx, 0),
            Offset::East(dx) => (dx, 0),
            Offset::North(dy) => (0, -dy),
            Offset::South(dy) => (0, dy),
            Offset::Northwest(delta) => (-delta, -delta),
            Offset::Northeast(delta) => (delta, -delta),
            Offset::Southwest(delta) => (-delta, delta),
            Offset::Southeast(delta) => (delta, delta),
            Offset::Arbitrary { dx, dy } => (dx, dy),
        };
        Self::new(self.x + dx, self.y + dy)
    }

    /// The position relative to `other`: this one moved by minus `other`.
    pub fn relative_to(&self, other: Position) -> (p: Position)
        requires
            i64::MIN < other.x,
            i64::MIN < other.y,
            i64::MIN <= self.x - other.x <= i64::MAX,
            i64::MIN <= self.y - other.y <= i64::MAX,
        ensures
            p.x == self.x - other.x,
            p.y == self.y - other.y,
    {
        self.offset(Offset::Arbitrary { dx: -other.x, dy: -other.y })
    }
}

} // verus!
