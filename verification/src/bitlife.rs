//! Conway's rule computed on all the cells of a 16 by 16 grid at once, with
//! bitwise operations on its rows.

use vstd::prelude::*;

use crate::node::{bit16, life_rule};

verus! {

/// The cell at column `c` and row `r` of 16 rows of 16 cells, column 0 in
/// the most significant bit; everything outside the grid is dead.
pub open spec fn cell16(rows: Seq<u16>, c: int, r: int) -> bool {
    0 <= c < 16 && 0 <= r < 16 && r < rows.len() && bit16(rows[r], (15 - c) as u16)
}

/// 1 for an alive cell, else 0.
pub open spec fn count_if(alive: bool) -> int {
    if alive {
        1
    } else {
        0
    }
}

/// The number of alive neighbours of a cell of 16 rows.
pub open spec fn neighbours16(rows: Seq<u16>, c: int, r: int) -> int {
    count_if(cell16(rows, c - 1, r - 1)) + count_if(cell16(rows, c, r - 1)) + count_if(cell16(rows, c + 1, r - 1))
        + count_if(cell16(rows, c - 1, r)) + count_if(cell16(rows, c + 1, r)) + count_if(cell16(rows, c - 1, r + 1))
        + count_if(cell16(rows, c, r + 1)) + count_if(cell16(rows, c + 1, r + 1))
}

/// Each cell of `row` is cell `r` of the next generation of `rows` under
/// Conway's rule.
pub open spec fn next_row_is(rows: Seq<u16>, r: int, row: u16) -> bool {
    forall|k: u16| k < 16 ==> #[trigger] bit16(row, k) == life_rule(cell16(rows, 15 - k, r), neighbours16(rows, 15 - k, r))
}

/// The next generation of 16 rows under Conway's rule, nothing alive
/// outside them.
pub open spec fn life_generation16(rows: Seq<u16>) -> Seq<u16> {
    Seq::new(16, |r: int| choose|row: u16| #[trigger] next_row_is(rows, r, row))
}

/// A rule that advances 16 rows of cells by one generation.
pub trait LifeRule {
    /// The rows one generation later.
    spec fn next_rows(&self, rows: Seq<u16>) -> Seq<u16>;

    /// Advances the rows by one generation.
    fn tick(&self, cells: [u16; 16]) -> (next: [u16; 16])
        ensures
            next@ == self.next_rows(cells@),
    ;
}

/// Conway's rule: born with three neighbours, surviving with two or three.
#[derive(Clone, Copy, Debug, PartialEq, Eq, Structural)]
pub struct B3S23;

/// Two and three cells of a row added in parallel: the bits `(sum, carry)`
/// of a cell's west and east neighbours, and of those two and the cell.
pub open spec fn row_sums(a: u16) -> (u16, u16, u16, u16) {
    let aw = a << 1u16;
    let ae = a >> 1u16;
    let s0 = aw ^ ae;
    let s1 = aw & ae;
    let hs0 = s0 ^ a;
    let hs1 = (s0 & a) | s1;
    (s0, s1, hs0, hs1)
}

/// The bit-parallel formula for one row from the row above, the row and
/// the row below.
pub open spec fn tick_row(up: u16, mid: u16, down: u16) -> u16 {
    let (s0, s1, _h0, _h1) = row_sums(mid);
    let (_u0, _u1, hs0w8, hs1w8) = row_sums(down);
    let (_d0, _d1, hs0e8, hs1e8) = row_sums(up);
    let ts0 = hs0w8 ^ hs0e8;
    let ts1 = (hs0w8 & hs0e8) | (ts0 & s0);
    (hs1w8 ^ hs1e8 ^ ts1 ^ s1) & ((hs1w8 | hs1e8) ^ (ts1 | s1)) & ((ts0 ^ s0) | mid)
}

/// 1 for a set bit, else 0, as a `u16`.
pub open spec fn one16(v: u16, k: u16) -> u16 {
    if bit16(v, k) {
        1
    } else {
        0
    }
}

/// The formula is Conway's rule on each bit, the neighbours of bit `k`
/// being the bits `k - 1`, `k` and `k + 1` of the row above and below and
/// `k - 1`, `k + 1` of the row itself, bits beyond the row read as dead.
proof fn lemma_tick_row(up: u16, mid: u16, down: u16, k: u16)
    by (bit_vector)
    requires
        k < 16,
    ensures
        ({
            let n = one16(up << 1u16, k) + one16(up, k) + one16(up >> 1u16, k) + one16(mid << 1u16, k) + one16(
                mid >> 1u16,
                k,
            ) + one16(down << 1u16, k) + one16(down, k) + one16(down >> 1u16, k);
            bit16(tick_row(up, mid, down), k) == (n == 3 || (n == 2 && bit16(mid, k)))
        }),
{
}

/// The bits of a row moved one place either way.
proof fn lemma_row_shift(v: u16, k: u16)
    by (bit_vector)
    requires
        k < 16,
    ensures
        bit16(v << 1u16, k) == (k > 0 && bit16(v, (k - 1) as u16)),
        bit16(v >> 1u16, k) == (k < 15 && bit16(v, (k + 1) as u16)),
{
}

/// No bit of zero is set.
proof fn lemma_zero16(k: u16)
    by (bit_vector)
    requires
        k < 16,
    ensures
        !bit16(0u16, k),
{
}

/// The formula on a row is Conway's rule on the cells of that row.
proof fn lemma_tick_cells(rows: Seq<u16>, r: int, up: u16, down: u16, k: u16)
    requires
        rows.len() == 16,
        0 <= r < 16,
        k < 16,
        up == (if r > 0 { rows[r - 1] } else { 0u16 }),
        down == (if r < 15 { rows[r + 1] } else { 0u16 }),
    ensures
        bit16(tick_row(up, rows[r], down), k) == life_rule(
            cell16(rows, 15 - k, r),
            neighbours16(rows, 15 - k, r),
        ),
{
    let mid = rows[r];
    let c = 15 - k;
    lemma_tick_row(up, mid, down, k);
    lemma_row_shift(up, k);
    lemma_row_shift(mid, k);
    lemma_row_shift(down, k);
    lemma_zero16(k);
    if k > 0 {
        lemma_zero16((k - 1) as u16);
    }
    if k < 15 {
        lemma_zero16((k + 1) as u16);
    }
    assert(one16(up << 1u16, k) == count_if(cell16(rows, c + 1, r - 1)));
    assert(one16(up, k) == count_if(cell16(rows, c, r - 1)));
    assert(one16(up >> 1u16, k) == count_if(cell16(rows, c - 1, r - 1)));
    assert(one16(mid << 1u16, k) == count_if(cell16(rows, c + 1, r)));
    assert(one16(mid >> 1u16, k) == count_if(cell16(rows, c - 1, r)));
    assert(one16(down << 1u16, k) == count_if(cell16(rows, c + 1, r + 1)));
    assert(one16(down, k) == count_if(cell16(rows, c, r + 1)));
    assert(one16(down >> 1u16, k) == count_if(cell16(rows, c - 1, r + 1)));
}

/// Two rows are equal when their bits are.
proof fn lemma_row_bits_eq(a: u16, b: u16)
    requires
        forall|k: u16| k < 16 ==> #[trigger] bit16(a, k) == bit16(b, k),
    ensures
        a == b,
{
    assert(bit16(a, 0) == bit16(b, 0));
    assert(bit16(a, 1) == bit16(b, 1));
    assert(bit16(a, 2) == bit16(b, 2));
    assert(bit16(a, 3) == bit16(b, 3));
    assert(bit16(a, 4) == bit16(b, 4));
    assert(bit16(a, 5) == bit16(b, 5));
    assert(bit16(a, 6) == bit16(b, 6));
    assert(bit16(a, 7) == bit16(b, 7));
    assert(bit16(a, 8) == bit16(b, 8));
    assert(bit16(a, 9) == bit16(b, 9));
    assert(bit16(a, 10) == bit16(b, 10));
    assert(bit16(a, 11) == bit16(b, 11));
    assert(bit16(a, 12) == bit16(b, 12));
    assert(bit16(a, 13) == bit16(b, 13));
    assert(bit16(a, 14) == bit16(b, 14));
    assert(bit16(a, 15) == bit16(b, 15));
    assert(a == b) by (bit_vector)
        requires
            bit16(a, 0) == bit16(b, 0),
            bit16(a, 1) == bit16(b, 1),
            bit16(a, 2) == bit16(b, 2),
            bit16(a, 3) == bit16(b, 3),
            bit16(a, 4) == bit16(b, 4),
            bit16(a, 5) == bit16(b, 5),
            bit16(a, 6) == bit16(b, 6),
            bit16(a, 7) == bit16(b, 7),
            bit16(a, 8) == bit16(b, 8),
            bit16(a, 9) == bit16(b, 9),
            bit16(a, 10) == bit16(b, 10),
            bit16(a, 11) == bit16(b, 11),
            bit16(a, 12) == bit16(b, 12),
            bit16(a, 13) == bit16(b, 13),
            bit16(a, 14) == bit16(b, 14),
            bit16(a, 15) == bit16(b, 15),
    ;
}

/// The row of the next generation is the one whose bits follow the rule.
proof fn lemma_next_row(rows: Seq<u16>, r: int, row: u16)
    requires
        rows.len() == 16,
        0 <= r < 16,
        next_row_is(rows, r, row),
    ensures
        life_generation16(rows)[r] == row,
{
    let chosen = life_generation16(rows)[r];
    assert(next_row_is(rows, r, chosen));
    assert forall|k: u16| k < 16 implies #[trigger] bit16(chosen, k) == bit16(row, k) by {
    }
    lemma_row_bits_eq(chosen, row);
}

/// The west, east and both sums of a row.
fn sums_of(a: u16) -> (r: (u16, u16, u16, u16))
    ensures
        r == row_sums(a),
{
    let aw = a << 1u16;
    let ae = a >> 1u16;
    let s0 = aw ^ ae;
    let s1 = aw & ae;
    let hs0 = s0 ^ a;
    let hs1 = (s0 & a) | s1;
    (s0, s1, hs0, hs1)
}

impl LifeRule for B3S23 {
    open spec fn next_rows(&self, rows: Seq<u16>) -> Seq<u16> {
        life_generation16(rows)
    }

    /// One generation of Conway's rule, computed with the rows' bitwise
    /// operations: the sums of each cell's row neighbours, then of the rows
    /// above and below.
    fn tick(&self, cells: [u16; 16]) -> (next: [u16; 16]) {
        let mut next: [u16; 16] = [0; 16];
        let mut r: usize = 0;
        while r < 16
            invariant
                r <= 16,
                next@.len() == 16,
                forall|q: int| 0 <= q < r ==> #[trigger] next@[q] == life_generation16(cells@)[q],
            decreases 16 - r,
        {
            let up = if r > 0 {
                cells[r - 1]
            } else {
                0
            };
            let down = if r < 15 {
                cells[r + 1]
            } else {
                0
            };
            let a = cells[r];
            let (s0, s1, _h0, _h1) = sums_of(a);
            let (_u0, _u1, hs0w8, hs1w8) = sums_of(down);
            let (_d0, _d1, hs0e8, hs1e8) = sums_of(up);
            let ts0 = hs0w8 ^ hs0e8;
            let ts1 = (hs0w8 & hs0e8) | (ts0 & s0);
            let row = (hs1w8 ^ hs1e8 ^ ts1 ^ s1) & ((hs1w8 | hs1e8) ^ (ts1 | s1)) & ((ts0 ^ s0) | a);
            proof {
                assert(row == tick_row(up, a, down));
                assert forall|k: u16| k < 16 implies #[trigger] bit16(row, k) == life_rule(
                    cell16(cells@, 15 - k, r as int),
                    neighbours16(cells@, 15 - k, r as int),
                ) by {
                    lemma_tick_cells(cells@, r as int, up, down, k);
                }
                assert(next_row_is(cells@, r as int, row));
                lemma_next_row(cells@, r as int, row);
            }
            next.set(r, row);
            r = r + 1;
        }
        assert(next@ =~= life_generation16(cells@));
        next
    }
}

/// One generation of Conway's rule on 16 rows.
pub fn do_it(cells: [u16; 16]) -> (next: [u16; 16])
    ensures
        next@ == life_generation16(cells@),
{
    B3S23.tick(cells)
}

} // verus!
