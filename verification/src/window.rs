//! What 8 by 8 grids of bits show of a larger grid, and how joining and
//! stepping them changes what they show.

use vstd::prelude::*;

use crate::bool8x8::{bit64, lemma_bit_ops};
use crate::node::{alive_count, neighbours};
use crate::rule::{
    cell8, cell_bit, lemma_interior_count, lemma_shl_bit, lemma_shr_bit, neighbours8, one_if,
    rule_generation, stepped, Rule,
};

verus! {

/// `v` shows the grid `g` seen from `(ox, oy)` on its cells at least `a`
/// in from the border: cell `(c, r)` of `v` is `g(ox + c, oy + r)`.
pub open spec fn shows8(v: u64, g: spec_fn(int, int) -> bool, ox: int, oy: int, a: int) -> bool {
    forall|c: int, r: int|
        a <= c < 8 - a && a <= r < 8 - a ==> #[trigger] cell8(v, c, r) == g(ox + c, oy + r)
}

/// The cell `(c, r)` of the window at the center of four grids: the inner
/// quadrant of each.
pub open spec fn corners_cell(nw: u64, ne: u64, sw: u64, se: u64, c: int, r: int) -> bool {
    if r < 4 {
        if c < 4 {
            cell8(nw, c + 4, r + 4)
        } else {
            cell8(ne, c - 4, r + 4)
        }
    } else {
        if c < 4 {
            cell8(sw, c + 4, r - 4)
        } else {
            cell8(se, c - 4, r - 4)
        }
    }
}

/// The cell `(c, r)` of the grid made of the centers of four grids.
pub open spec fn centers_cell(nw: u64, ne: u64, sw: u64, se: u64, c: int, r: int) -> bool {
    if r < 4 {
        if c < 4 {
            cell8(nw, c + 2, r + 2)
        } else {
            cell8(ne, c - 2, r + 2)
        }
    } else {
        if c < 4 {
            cell8(sw, c + 2, r - 2)
        } else {
            cell8(se, c - 2, r - 2)
        }
    }
}

/// The cell `(c, r)` of the window across the seam of a western and an
/// eastern grid.
pub open spec fn horiz_cell(west: u64, east: u64, c: int, r: int) -> bool {
    if c < 4 {
        cell8(west, c + 4, r)
    } else {
        cell8(east, c - 4, r)
    }
}

/// The cell `(c, r)` of the window across the seam of a northern and a
/// southern grid.
pub open spec fn vert_cell(north: u64, south: u64, c: int, r: int) -> bool {
    if r < 4 {
        cell8(north, c, r + 4)
    } else {
        cell8(south, c, r - 4)
    }
}

/// The row and column of a cell can be read off its bit.
pub proof fn lemma_cell_bit(c: int, r: int)
    requires
        0 <= c < 8,
        0 <= r < 8,
    ensures
        0 <= cell_bit(c, r) < 64,
        (cell_bit(c, r) as u64) % 8 == 7 - c,
        (cell_bit(c, r) as u64) >= 32 <==> r < 4,
{
    assert(cell_bit(c, r) == 8 * (7 - r) + (7 - c));
    assert((8 * (7 - r) + (7 - c)) % 8 == 7 - c) by (nonlinear_arith)
        requires
            0 <= 7 - c < 8,
            0 <= 7 - r,
    ;
}

/// The bits of the half and quarter masks.
pub proof fn lemma_masks(i: u64)
    by (bit_vector)
    requires
        i < 64,
    ensures
        bit64(0xF0F0_F0F0_F0F0_F0F0u64, i) == (i % 8 >= 4),
        bit64(0x0F0F_0F0F_0F0F_0F0Fu64, i) == (i % 8 < 4),
        bit64(0xFFFF_FFFF_0000_0000u64, i) == (i >= 32),
        bit64(0x0000_0000_FFFF_FFFFu64, i) == (i < 32),
        bit64(0xF0F0_F0F0_0000_0000u64, i) == (i >= 32 && i % 8 >= 4),
        bit64(0x0F0F_0F0F_0000_0000u64, i) == (i >= 32 && i % 8 < 4),
        bit64(0x0000_0000_F0F0_F0F0u64, i) == (i < 32 && i % 8 >= 4),
        bit64(0x0000_0000_0F0F_0F0Fu64, i) == (i < 32 && i % 8 < 4),
        !bit64(0u64, i),
{
}

/// The bit of each cell of four quarters put together, each quarter taken
/// from its own word by a mask.
pub proof fn lemma_quarters(a: u64, b: u64, c: u64, d: u64, col: int, row: int)
    requires
        0 <= col < 8,
        0 <= row < 8,
    ensures
        cell8(
            0u64 | (a & 0xF0F0_F0F0_0000_0000u64) | (b & 0x0F0F_0F0F_0000_0000u64) | (c & 0x0000_0000_F0F0_F0F0u64) | (
            d & 0x0000_0000_0F0F_0F0Fu64),
            col,
            row,
        ) == if row < 4 {
            if col < 4 {
                cell8(a, col, row)
            } else {
                cell8(b, col, row)
            }
        } else {
            if col < 4 {
                cell8(c, col, row)
            } else {
                cell8(d, col, row)
            }
        },
{
    let i = cell_bit(col, row) as u64;
    lemma_cell_bit(col, row);
    lemma_masks(i);
    let ma = a & 0xF0F0_F0F0_0000_0000u64;
    let mb = b & 0x0F0F_0F0F_0000_0000u64;
    let mc = c & 0x0000_0000_F0F0_F0F0u64;
    let md = d & 0x0000_0000_0F0F_0F0Fu64;
    lemma_bit_ops(a, 0xF0F0_F0F0_0000_0000u64, i);
    lemma_bit_ops(b, 0x0F0F_0F0F_0000_0000u64, i);
    lemma_bit_ops(c, 0x0000_0000_F0F0_F0F0u64, i);
    lemma_bit_ops(d, 0x0000_0000_0F0F_0F0Fu64, i);
    lemma_bit_ops(0u64, ma, i);
    lemma_bit_ops(0u64 | ma, mb, i);
    lemma_bit_ops(0u64 | ma | mb, mc, i);
    lemma_bit_ops(0u64 | ma | mb | mc, md, i);
}

/// The bit of each cell of two halves put together, side by side.
pub proof fn lemma_halves_horiz(a: u64, b: u64, col: int, row: int)
    requires
        0 <= col < 8,
        0 <= row < 8,
    ensures
        cell8(0u64 | (a & 0xF0F0_F0F0_F0F0_F0F0u64) | (b & 0x0F0F_0F0F_0F0F_0F0Fu64), col, row) == if col < 4 {
            cell8(a, col, row)
        } else {
            cell8(b, col, row)
        },
{
    let i = cell_bit(col, row) as u64;
    lemma_cell_bit(col, row);
    lemma_masks(i);
    let ma = a & 0xF0F0_F0F0_F0F0_F0F0u64;
    let mb = b & 0x0F0F_0F0F_0F0F_0F0Fu64;
    lemma_bit_ops(a, 0xF0F0_F0F0_F0F0_F0F0u64, i);
    lemma_bit_ops(b, 0x0F0F_0F0F_0F0F_0F0Fu64, i);
    lemma_bit_ops(0u64, ma, i);
    lemma_bit_ops(0u64 | ma, mb, i);
}

/// The bit of each cell of two halves put together, one above the other.
pub proof fn lemma_halves_vert(a: u64, b: u64, col: int, row: int)
    requires
        0 <= col < 8,
        0 <= row < 8,
    ensures
        cell8(0u64 | (a & 0xFFFF_FFFF_0000_0000u64) | (b & 0x0000_0000_FFFF_FFFFu64), col, row) == if row < 4 {
            cell8(a, col, row)
        } else {
            cell8(b, col, row)
        },
{
    let i = cell_bit(col, row) as u64;
    lemma_cell_bit(col, row);
    lemma_masks(i);
    let ma = a & 0xFFFF_FFFF_0000_0000u64;
    let mb = b & 0x0000_0000_FFFF_FFFFu64;
    lemma_bit_ops(a, 0xFFFF_FFFF_0000_0000u64, i);
    lemma_bit_ops(b, 0x0000_0000_FFFF_FFFFu64, i);
    lemma_bit_ops(0u64, ma, i);
    lemma_bit_ops(0u64 | ma, mb, i);
}

/// A cell of a grid moved towards the least significant bit by `8 * dr +
/// dc`: the cell `dc` columns west and `dr` rows north.
pub proof fn lemma_moved_down(v: u64, dc: int, dr: int, c: int, r: int)
    requires
        0 <= c < 8,
        0 <= r < 8,
        0 <= c - dc < 8,
        0 <= r - dr < 8,
        0 <= 8 * dr + dc < 64,
    ensures
        cell8(v >> ((8 * dr + dc) as u64), c, r) == cell8(v, c - dc, r - dr),
{
    lemma_cell_bit(c, r);
    lemma_shr_bit(v, (8 * dr + dc) as u64, cell_bit(c, r) as u64);
}

/// A cell of a grid moved towards the most significant bit by `8 * dr +
/// dc`: the cell `dc` columns east and `dr` rows south.
pub proof fn lemma_moved_up(v: u64, dc: int, dr: int, c: int, r: int)
    requires
        0 <= c < 8,
        0 <= r < 8,
        0 <= c + dc < 8,
        0 <= r + dr < 8,
        0 <= 8 * dr + dc < 64,
    ensures
        cell8(v << ((8 * dr + dc) as u64), c, r) == cell8(v, c + dc, r + dr),
{
    lemma_cell_bit(c, r);
    lemma_cell_bit(c + dc, r + dr);
    lemma_shl_bit(v, (8 * dr + dc) as u64, cell_bit(c, r) as u64);
}

/// A generation of a rule on a grid that shows `g` shows the next
/// generation of `g`, one cell further in from the border.
pub proof fn lemma_step_shows(rule: Rule, v: u64, w: u64, g: spec_fn(int, int) -> bool, ox: int, oy: int, a: int)
    requires
        stepped(rule, v, w),
        shows8(v, g, ox, oy, a),
        0 <= a <= 2,
    ensures
        shows8(w, rule_generation(rule, g), ox, oy, a + 1),
{
    assert forall|c: int, r: int| a + 1 <= c < 8 - (a + 1) && a + 1 <= r < 8 - (a + 1) implies #[trigger] cell8(w, c, r)
        == rule_generation(rule, g)(ox + c, oy + r) by {
        let i = cell_bit(c, r) as u64;
        lemma_cell_bit(c, r);
        lemma_interior_count(v, c, r);
        let x = ox + c;
        let y = oy + r;
        assert(cell8(v, c - 1, r - 1) == g(x - 1, y - 1));
        assert(cell8(v, c, r - 1) == g(x, y - 1));
        assert(cell8(v, c + 1, r - 1) == g(x + 1, y - 1));
        assert(cell8(v, c - 1, r) == g(x - 1, y));
        assert(cell8(v, c, r) == g(x, y));
        assert(cell8(v, c + 1, r) == g(x + 1, y));
        assert(cell8(v, c - 1, r + 1) == g(x - 1, y + 1));
        assert(cell8(v, c, r + 1) == g(x, y + 1));
        assert(cell8(v, c + 1, r + 1) == g(x + 1, y + 1));
        assert(neighbours8(v, c, r) == neighbours(g, x, y));
        assert(bit64(w, i) == rule.next(bit64(v, i), neighbours8(v, c, r) as int));
    }
}

} // verus!
