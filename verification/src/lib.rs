//! A library to simulate Conway's Game of Life with hashed quadtrees.

pub mod bare_rle;
pub mod bitgrid;
pub mod bitlife;
pub mod bool8x8;
pub mod coords;
pub mod counter;
pub mod grid;
pub mod ids;
pub mod key;
pub mod leaf;
pub mod life;
pub mod macrocell;
pub mod memory;
pub mod node;
pub mod packed;
pub mod pattern;
pub mod quad;
pub mod render;
pub mod rle;
pub mod rule;
pub mod store;
pub mod tree;
pub mod util;
pub mod view;
pub mod window;

use vstd::prelude::*;

use crate::node::Quadrant;

verus! {

/// A cell in a Life grid.
#[derive(Clone, Copy, Debug, PartialEq, Eq, Structural)]
pub enum Cell {
    /// An alive cell.
    Alive,
    /// A dead cell.
    Dead,
}

impl Cell {
    /// Creates a new `Cell`: alive if `alive` is true, dead otherwise.
    pub fn new(alive: bool) -> (cell: Self)
        ensures
            cell == (if alive {
                Cell::Alive
            } else {
                Cell::Dead
            }),
    {
        if alive {
            Cell::Alive
        } else {
            Cell::Dead
        }
    }

    /// Returns true for `Cell::Alive` and false for `Cell::Dead`.
    pub fn is_alive(self) -> (alive: bool)
        ensures
            alive == (self == Cell::Alive),
    {
        match self {
            Cell::Alive => true,
            Cell::Dead => false,
        }
    }
}

/// The position of a cell in a Life grid.
#[derive(Clone, Copy, Debug, PartialEq, Eq, Structural)]
pub struct Position {
    /// The x coordinate.
    pub x: i64,
    /// The y coordinate.
    pub y: i64,
}

impl Position {
    /// Creates a new position with the given coordinates.
    pub fn new(x: i64, y: i64) -> (position: Self)
        ensures
            position.x == x,
            position.y == y,
    {
        Self { x, y }
    }

    /// Offsets the position by the given amounts in the x and y directions.
    pub fn offset(&self, x_offset: i64, y_offset: i64) -> (position: Self)
        requires
            i64::MIN <= self.x + x_offset <= i64::MAX,
            i64::MIN <= self.y + y_offset <= i64::MAX,
        ensures
            position.x == self.x + x_offset,
            position.y == self.y + y_offset,
    {
        Self { x: self.x + x_offset, y: self.y + y_offset }
    }

    /// Returns which quadrant of a node this position is in: north for
    /// negative `y`, west for negative `x`.
    pub fn quadrant(&self) -> (quadrant: Quadrant)
        ensures
            quadrant == quadrant_of(self.x as int, self.y as int),
    {
        match (self.x < 0, self.y < 0) {
            (true, true) => Quadrant::Northwest,
            (false, true) => Quadrant::Northeast,
            (true, false) => Quadrant::Southwest,
            (false, false) => Quadrant::Southeast,
        }
    }

    /// The position relative to `other`: this one moved by minus `other`.
    pub fn relative_to(&self, other: Position) -> (position: Self)
        requires
            i64::MIN < other.x,
            i64::MIN < other.y,
            i64::MIN <= self.x - other.x <= i64::MAX,
            i64::MIN <= self.y - other.y <= i64::MAX,
        ensures
            position.x == self.x - other.x,
            position.y == self.y - other.y,
    {
        self.offset(-other.x, -other.y)
    }
}

/// What went wrong reading a Life grid.
#[derive(Clone, Copy, Debug, PartialEq, Eq, Structural)]
pub enum ErrorKind {
    /// The input could not be read.
    Io,
    /// The input is not an RLE pattern.
    Rle(crate::rle::RleError),
}

/// An error reading a Life grid.
#[derive(Clone, Copy, Debug, PartialEq, Eq, Structural)]
pub struct Error {
    /// What went wrong.
    pub kind: ErrorKind,
}

impl From<crate::rle::RleError> for Error {
    fn from(rle: crate::rle::RleError) -> (error: Error) {
        Error { kind: ErrorKind::Rle(rle) }
    }
}

impl vstd::std_specs::convert::FromSpecImpl<crate::rle::RleError> for Error {
    open spec fn obeys_from_spec() -> bool {
        true
    }

    open spec fn from_spec(rle: crate::rle::RleError) -> Error {
        Error { kind: ErrorKind::Rle(rle) }
    }
}

/// The quadrant of a node that holds `(x, y)`.
pub open spec fn quadrant_of(x: int, y: int) -> Quadrant {
    if x < 0 && y < 0 {
        Quadrant::Northwest
    } else if y < 0 {
        Quadrant::Northeast
    } else if x < 0 {
        Quadrant::Southwest
    } else {
        Quadrant::Southeast
    }
}

/// A rectangle of positions, its corners included.
#[derive(Clone, Copy, Debug, PartialEq, Eq, Structural)]
pub struct BoundingBox {
    upper_left: Position,
    lower_right: Position,
}

impl BoundingBox {
    /// The upper left corner.
    pub closed spec fn spec_upper_left(&self) -> Position {
        self.upper_left
    }

    /// The lower right corner.
    pub closed spec fn spec_lower_right(&self) -> Position {
        self.lower_right
    }

    /// Whether the box is well formed: its upper left corner is above and to
    /// the left of its lower right corner.
    pub open spec fn wf(&self) -> bool {
        &&& self.spec_upper_left().x <= self.spec_lower_right().x
        &&& self.spec_upper_left().y <= self.spec_lower_right().y
    }

    /// Creates the box with the given corners.
    pub fn new(upper_left: Position, lower_right: Position) -> (bbox: Self)
        requires
            upper_left.x <= lower_right.x,
            upper_left.y <= lower_right.y,
        ensures
            bbox.spec_upper_left() == upper_left,
            bbox.spec_lower_right() == lower_right,
            bbox.wf(),
    {
        Self { upper_left, lower_right }
    }

    /// The upper left corner.
    pub fn upper_left(&self) -> (corner: Position)
        ensures
            corner == self.spec_upper_left(),
    {
        self.upper_left
    }

    /// The lower right corner.
    pub fn lower_right(&self) -> (corner: Position)
        ensures
            corner == self.spec_lower_right(),
    {
        self.lower_right
    }

    /// The smallest box containing both boxes.
    pub fn combine(&self, other: BoundingBox) -> (bbox: Self)
        requires
            self.wf(),
            other.wf(),
        ensures
            bbox.wf(),
            bbox.spec_upper_left().x == min(self.spec_upper_left().x, other.spec_upper_left().x),
            bbox.spec_upper_left().y == min(self.spec_upper_left().y, other.spec_upper_left().y),
            bbox.spec_lower_right().x == max(
                self.spec_lower_right().x,
                other.spec_lower_right().x,
            ),
            bbox.spec_lower_right().y == max(
                self.spec_lower_right().y,
                other.spec_lower_right().y,
            ),
    {
        let min_x = if self.upper_left.x <= other.upper_left.x {
            self.upper_left.x
        } else {
            other.upper_left.x
        };
        let min_y = if self.upper_left.y <= other.upper_left.y {
            self.upper_left.y
        } else {
            other.upper_left.y
        };
        let max_x = if self.lower_right.x >= other.lower_right.x {
            self.lower_right.x
        } else {
            other.lower_right.x
        };
        let max_y = if self.lower_right.y >= other.lower_right.y {
            self.lower_right.y
        } else {
            other.lower_right.y
        };
        Self::new(Position::new(min_x, min_y), Position::new(max_x, max_y))
    }

    /// The box moved by the given amounts.
    pub fn offset(&self, x_offset: i64, y_offset: i64) -> (bbox: Self)
        requires
            self.wf(),
            i64::MIN <= self.spec_upper_left().x + x_offset,
            i64::MIN <= self.spec_upper_left().y + y_offset,
            self.spec_lower_right().x + x_offset <= i64::MAX,
            self.spec_lower_right().y + y_offset <= i64::MAX,
        ensures
            bbox.wf(),
            bbox.spec_upper_left().x == self.spec_upper_left().x + x_offset,
            bbox.spec_upper_left().y == self.spec_upper_left().y + y_offset,
            bbox.spec_lower_right().x == self.spec_lower_right().x + x_offset,
            bbox.spec_lower_right().y == self.spec_lower_right().y + y_offset,
    {
        Self::new(
            self.upper_left.offset(x_offset, y_offset),
            self.lower_right.offset(x_offset, y_offset),
        )
    }

    /// The box grown by `amount` on every side.
    pub fn pad(&self, amount: i64) -> (bbox: Self)
        requires
            self.wf(),
            amount > 0,
            i64::MIN <= self.spec_upper_left().x - amount,
            i64::MIN <= self.spec_upper_left().y - amount,
            self.spec_lower_right().x + amount <= i64::MAX,
            self.spec_lower_right().y + amount <= i64::MAX,
        ensures
            bbox.wf(),
            bbox.spec_upper_left().x == self.spec_upper_left().x - amount,
            bbox.spec_upper_left().y == self.spec_upper_left().y - amount,
            bbox.spec_lower_right().x == self.spec_lower_right().x + amount,
            bbox.spec_lower_right().y == self.spec_lower_right().y + amount,
    {
        Self {
            upper_left: self.upper_left.offset(-amount, -amount),
            lower_right: self.lower_right.offset(amount, amount),
        }
    }
}

/// The smaller of two integers.
pub open spec fn min(a: i64, b: i64) -> i64 {
    if a <= b {
        a
    } else {
        b
    }
}

/// The larger of two integers.
pub open spec fn max(a: i64, b: i64) -> i64 {
    if a >= b {
        a
    } else {
        b
    }
}

} // verus!
