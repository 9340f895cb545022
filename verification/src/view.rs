//! What the viewer draws: each character of the terminal shows a block of
//! 2 by 4 dots in braille, each dot lit when its square of cells holds an
//! alive cell.

use vstd::prelude::*;

use crate::life::Life;
use crate::{BoundingBox, Position};

verus! {

/// `braille::BRAILLE`, indexed by the eight dots of a braille cell read row
/// by row (left dot, then right): the table holds, for dots 1 to 8 of the
/// Unicode braille patterns, the character `U+2800` plus 1, 8, 2, 16, 4, 32,
/// 64 and 128 for each of them that is set.
#[verifier::external_body]
fn braille_glyph(a: usize, b: usize, c: usize, d: usize, e: usize, f: usize, g: usize, h: usize) -> (glyph: char)
    requires
        a < 2,
        b < 2,
        c < 2,
        d < 2,
        e < 2,
        f < 2,
        g < 2,
        h < 2,
    ensures
        glyph as u32 == braille_code(a as int, b as int, c as int, d as int, e as int, f as int, g as int, h as int),
{
    braille::BRAILLE[a][b][c][d][e][f][g][h]
}

/// The code point of the braille character with the given dots, read row
/// by row, left dot first.
pub open spec fn braille_code(a: int, b: int, c: int, d: int, e: int, f: int, g: int, h: int) -> int {
    0x2800 + a + 8 * b + 2 * c + 16 * d + 4 * e + 32 * f + 64 * g + 128 * h
}

/// 1 if the square of side `zoom` at `(x0, y0)` holds an alive cell of
/// `life`, else 0.
pub open spec fn dot_of(life: Life, x0: int, y0: int, zoom: int) -> int {
    if exists|x: int, y: int| x0 <= x <= x0 + zoom - 1 && y0 <= y <= y0 + zoom - 1 && #[trigger] life.alive(x, y) {
        1
    } else {
        0
    }
}

/// The first cell column of the character in terminal column `x`.
pub open spec fn column_origin(x: int, width: int, center_x: int, zoom: int) -> int {
    2 * (x - width / 2) * zoom + center_x
}

/// The first cell row of the character in terminal row `y`.
pub open spec fn row_origin(y: int, height: int, center_y: int, zoom: int) -> int {
    4 * (y - height / 2) * zoom + center_y
}

/// Whether the cells a character spans, and the sums that find them, fit
/// in an `i64`.
pub open spec fn glyph_fits(x: int, y: int, width: int, height: int, center: (i64, i64), zoom: int) -> bool {
    &&& 3 * zoom <= i64::MAX
    &&& i64::MIN <= 2 * (x - width / 2) * zoom <= i64::MAX
    &&& i64::MIN <= 4 * (y - height / 2) * zoom <= i64::MAX
    &&& i64::MIN <= column_origin(x, width, center.0 as int, zoom)
    &&& column_origin(x, width, center.0 as int, zoom) + 2 * zoom - 1 <= i64::MAX
    &&& i64::MIN <= row_origin(y, height, center.1 as int, zoom)
    &&& row_origin(y, height, center.1 as int, zoom) + 4 * zoom - 1 <= i64::MAX
}

/// A number whose product with a positive factor fits in an `i64` fits
/// too.
proof fn lemma_unscaled_fits(a: int, z: int)
    requires
        z >= 1,
        i64::MIN <= a * z <= i64::MAX,
    ensures
        i64::MIN <= a <= i64::MAX,
{
    if a >= 0 {
        assert(a <= a * z) by (nonlinear_arith)
            requires
                a >= 0,
                z >= 1,
        ;
    } else {
        assert(a * z <= a) by (nonlinear_arith)
            requires
                a < 0,
                z >= 1,
        ;
    }
}

/// 1 if the square of side `zoom` at `(x0, y0)` holds an alive cell.
fn dot(life: &Life, x0: i64, y0: i64, zoom: i64) -> (lit: usize)
    requires
        life.wf(),
        zoom >= 1,
        x0 + zoom - 1 <= i64::MAX,
        y0 + zoom - 1 <= i64::MAX,
    ensures
        lit == dot_of(*life, x0 as int, y0 as int, zoom as int),
{
    let square = BoundingBox::new(Position::new(x0, y0), Position::new(x0 + (zoom - 1), y0 + (zoom - 1)));
    if life.contains_alive_cells(square) {
        1
    } else {
        0
    }
}

/// The braille character for terminal cell `(x, y)` of a view of `width` by
/// `height` characters centered on `center`, each dot a square of `zoom`
/// cells: dots a, b on top, then c, d, e, f, and g, h at the bottom, each
/// lit when its square holds an alive cell.
pub fn braille_at(life: &Life, x: i64, y: i64, width: i64, height: i64, center: (i64, i64), zoom: i64) -> (glyph: char)
    requires
        life.wf(),
        0 <= x < width,
        0 <= y < height,
        zoom >= 1,
        glyph_fits(x as int, y as int, width as int, height as int, center, zoom as int),
    ensures
        ({
            let x0 = column_origin(x as int, width as int, center.0 as int, zoom as int);
            let y0 = row_origin(y as int, height as int, center.1 as int, zoom as int);
            let z = zoom as int;
            glyph as u32 == braille_code(
                dot_of(*life, x0, y0, z),
                dot_of(*life, x0 + z, y0, z),
                dot_of(*life, x0, y0 + z, z),
                dot_of(*life, x0 + z, y0 + z, z),
                dot_of(*life, x0, y0 + 2 * z, z),
                dot_of(*life, x0 + z, y0 + 2 * z, z),
                dot_of(*life, x0, y0 + 3 * z, z),
                dot_of(*life, x0 + z, y0 + 3 * z, z),
            )
        }),
{
    proof {
        lemma_unscaled_fits(2 * (x - width / 2), zoom as int);
        lemma_unscaled_fits(4 * (y - height / 2), zoom as int);
    }
    let x0 = 2 * (x - width / 2) * zoom + center.0;
    let y0 = 4 * (y - height / 2) * zoom + center.1;
    let a = dot(life, x0, y0, zoom);
    let b = dot(life, x0 + zoom, y0, zoom);
    let c = dot(life, x0, y0 + zoom, zoom);
    let d = dot(life, x0 + zoom, y0 + zoom, zoom);
    let e = dot(life, x0, y0 + 2 * zoom, zoom);
    let f = dot(life, x0 + zoom, y0 + 2 * zoom, zoom);
    let g = dot(life, x0, y0 + 3 * zoom, zoom);
    let h = dot(life, x0 + zoom, y0 + 3 * zoom, zoom);
    braille_glyph(a, b, c, d, e, f, g, h)
}

} // verus!
