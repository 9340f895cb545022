//! RLE patterns read without their closing `!`.
//!
//! The units are read as in [`crate::rle`]; reading stops at the first byte
//! that starts no unit, whatever that byte is. A pattern whose last unit
//! runs into the end of the input, or that ends in whitespace or digits, is
//! refused, since more input could still extend it.

use vstd::prelude::*;

use crate::rle::{
    cells_from, fits_from, is_digit, is_space, read_units, run_end, skip_digits, skip_spaces, units_from,
    PatternUnit, RleError,
};

verus! {

/// Whether the units of `s` stop before its end: after them come
/// whitespace and digits, then some byte that is no tag, or digits too
/// large for a count.
pub open spec fn stops_inside(s: Seq<u8>) -> bool {
    let end = units_from(s, 0).1;
    run_end(s, run_end(s, end, |b: u8| is_space(b)), |b: u8| is_digit(b)) < s.len()
}

/// An RLE pattern whose closing `!` is optional.
pub struct Rle {
    pattern: crate::rle::Rle,
}

impl Rle {
    /// The units of the pattern.
    pub closed spec fn units(&self) -> Seq<PatternUnit> {
        self.pattern.units()
    }

    /// Reads the units at the start of the given bytes, up to the first byte
    /// that starts no unit; the bytes from there on are ignored.
    pub fn from_pattern(pattern: &[u8]) -> (r: Result<Rle, RleError>)
        ensures
            r is Ok <==> stops_inside(pattern@),
            r matches Ok(rle) ==> rle.units() == units_from(pattern@, 0).0,
            r matches Err(e) ==> e == RleError::Parse,
    {
        let (units, end) = read_units(pattern, 0);
        let j = skip_spaces(pattern, end);
        let k = skip_digits(pattern, j);
        if k < pattern.len() {
            Ok(Rle { pattern: crate::rle::Rle::from_units(units) })
        } else {
            Err(RleError::Parse)
        }
    }

    /// Returns the coordinates of the alive cells of the pattern, the origin
    /// at its northwest corner, in the order the pattern lists them.
    pub fn alive_cells(&self) -> (cells: Vec<(u32, u32)>)
        requires
            fits_from(self.units(), 0, 0),
        ensures
            cells@.len() == cells_from(self.units(), 0, 0).len(),
            forall|i: int|
                0 <= i < cells@.len() ==> #[trigger] cells@[i].0 == cells_from(self.units(), 0, 0)[i].0
                    && cells@[i].1 == cells_from(self.units(), 0, 0)[i].1,
    {
        self.pattern.alive_cells()
    }

    /// Whether reading the pattern keeps every coordinate within a `u32`,
    /// as `alive_cells` needs.
    pub fn fits(&self) -> (ok: bool)
        ensures
            ok == fits_from(self.units(), 0, 0),
    {
        self.pattern.fits()
    }
}

} // verus!
