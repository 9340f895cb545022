//! 16 by 16 leaves held as sixteen rows of bits, and their 8 by 8 parts.

use vstd::prelude::*;

use crate::bitlife::{cell16, LifeRule};
use crate::node::store::count_ones_u16;
use crate::node::{bit16, bit8, count16};
use crate::quad::Quad;

verus! {

/// An 8 by 8 part of a leaf: eight rows of bits, column 0 in the most
/// significant bit.
#[derive(Clone, Copy, Debug, PartialEq, Eq)]
pub struct LeafPart {
    cells: [u8; 8],
}

impl LeafPart {
    /// The rows of the part.
    pub closed spec fn rows(&self) -> Seq<u8> {
        self.cells@
    }

    /// The part with the given rows.
    pub fn new(cells: [u8; 8]) -> (part: Self)
        ensures
            part.rows() == cells@,
    {
        Self { cells }
    }
}

/// A 16 by 16 leaf: sixteen rows of bits, column 0 in the most significant
/// bit.
#[derive(Clone, Copy, Debug, PartialEq, Eq)]
pub struct Leaf {
    /// The rows of cells.
    pub cells: [u16; 16],
}

/// The rows of a leaf put together from its four parts: each row the
/// western part's row as the high byte and the eastern part's as the low
/// byte.
pub open spec fn joined_rows(nw: Seq<u8>, ne: Seq<u8>, sw: Seq<u8>, se: Seq<u8>) -> Seq<u16> {
    Seq::new(
        16,
        |r: int|
            if r < 8 {
                (nw[r] * 256 + ne[r]) as u16
            } else {
                (sw[r - 8] * 256 + se[r - 8]) as u16
            },
    )
}

/// The rows `from..from + 8` of a leaf, their high bytes when `high`, else
/// their low bytes.
pub open spec fn part_rows(rows: Seq<u16>, from: int, high: bool) -> Seq<u8> {
    Seq::new(8, |i: int| if high { (rows[from + i] / 256) as u8 } else { (rows[from + i] % 256) as u8 })
}

/// The cells of `rows` after `n` ticks of a rule.
pub open spec fn ticked<R: LifeRule>(rule: R, rows: Seq<u16>, n: nat) -> Seq<u16>
    decreases n,
{
    if n == 0 {
        rows
    } else {
        rule.next_rows(ticked(rule, rows, (n - 1) as nat))
    }
}

/// Ticking `a` times and then `b` times is ticking `a + b` times.
pub proof fn lemma_ticked_add<R: LifeRule>(rule: R, rows: Seq<u16>, a: nat, b: nat)
    ensures
        ticked(rule, ticked(rule, rows, a), b) == ticked(rule, rows, a + b),
    decreases b,
{
    if b > 0 {
        lemma_ticked_add(rule, rows, a, (b - 1) as nat);
    }
}

/// The number of alive cells among the first `n` rows.
pub open spec fn rows_population(rows: Seq<u16>, n: nat) -> nat
    decreases n,
{
    if n == 0 {
        0
    } else {
        rows_population(rows, (n - 1) as nat) + count16(rows[n - 1], 16)
    }
}

/// The bits of the middle byte of a row.
proof fn lemma_middle_byte(x: u16, j: u8)
    by (bit_vector)
    requires
        j < 8,
    ensures
        bit8(((x >> 4u16) & 0xFFu16) as u8, j) == bit16(x, (j + 4) as u16),
{
}

/// Splitting the leaf made of four parts gives the parts back.
pub proof fn lemma_split_joined(nw: Seq<u8>, ne: Seq<u8>, sw: Seq<u8>, se: Seq<u8>)
    requires
        nw.len() == 8,
        ne.len() == 8,
        sw.len() == 8,
        se.len() == 8,
    ensures
        part_rows(joined_rows(nw, ne, sw, se), 0, true) == nw,
        part_rows(joined_rows(nw, ne, sw, se), 0, false) == ne,
        part_rows(joined_rows(nw, ne, sw, se), 8, true) == sw,
        part_rows(joined_rows(nw, ne, sw, se), 8, false) == se,
{
    let rows = joined_rows(nw, ne, sw, se);
    assert forall|i: int| 0 <= i < 8 implies #[trigger] part_rows(rows, 0, true)[i] == nw[i] && part_rows(rows, 0, false)[i]
        == ne[i] && part_rows(rows, 8, true)[i] == sw[i] && part_rows(rows, 8, false)[i] == se[i] by {
        assert(rows[i] == nw[i] * 256 + ne[i]);
        assert(rows[i + 8] == sw[i] * 256 + se[i]);
    }
    assert(part_rows(rows, 0, true) =~= nw);
    assert(part_rows(rows, 0, false) =~= ne);
    assert(part_rows(rows, 8, true) =~= sw);
    assert(part_rows(rows, 8, false) =~= se);
}

/// Joining the four parts of a leaf gives the leaf back.
pub proof fn lemma_joined_split(rows: Seq<u16>)
    requires
        rows.len() == 16,
    ensures
        joined_rows(part_rows(rows, 0, true), part_rows(rows, 0, false), part_rows(rows, 8, true), part_rows(rows, 8, false))
            == rows,
{
    let back = joined_rows(part_rows(rows, 0, true), part_rows(rows, 0, false), part_rows(rows, 8, true), part_rows(rows, 8, false));
    assert forall|r: int| 0 <= r < 16 implies #[trigger] back[r] == rows[r] by {
        let x = rows[r];
        assert((x / 256) * 256 + x % 256 == x);
    }
    assert(back =~= rows);
}

impl Leaf {
    /// The side length of a leaf.
    pub const SIDE: u8 = 16;

    /// The log of the side length of a leaf.
    pub const SIDE_LOG2: u8 = 4;

    /// The leaf with the given rows.
    pub fn new(cells: [u16; 16]) -> (leaf: Self)
        ensures
            leaf.cells == cells,
    {
        Self { cells }
    }

    /// The leaf with no alive cell.
    pub fn empty() -> (leaf: Self)
        ensures
            forall|r: int| 0 <= r < 16 ==> #[trigger] leaf.cells@[r] == 0,
    {
        Self::new([0; 16])
    }

    /// The leaf made of four parts.
    pub fn from_parts(parts: Quad<LeafPart>) -> (leaf: Self)
        ensures
            leaf.cells@ == joined_rows(parts.nw.rows(), parts.ne.rows(), parts.sw.rows(), parts.se.rows()),
    {
        let mut whole: [u16; 16] = [0; 16];
        let mut r: usize = 0;
        while r < 16
            invariant
                r <= 16,
                whole@.len() == 16,
                forall|q: int|
                    0 <= q < r ==> #[trigger] whole@[q] == joined_rows(
                        parts.nw.rows(),
                        parts.ne.rows(),
                        parts.sw.rows(),
                        parts.se.rows(),
                    )[q],
            decreases 16 - r,
        {
            let (w, e) = if r < 8 {
                (parts.nw.cells[r], parts.ne.cells[r])
            } else {
                (parts.sw.cells[r - 8], parts.se.cells[r - 8])
            };
            let row = (w as u16) * 256 + (e as u16);
            whole.set(r, row);
            r = r + 1;
        }
        assert(whole@ =~= joined_rows(parts.nw.rows(), parts.ne.rows(), parts.sw.rows(), parts.se.rows()));
        Self::new(whole)
    }

    /// The four parts of the leaf.
    pub fn to_parts(self) -> (parts: Quad<LeafPart>)
        ensures
            parts.nw.rows() == part_rows(self.cells@, 0, true),
            parts.ne.rows() == part_rows(self.cells@, 0, false),
            parts.sw.rows() == part_rows(self.cells@, 8, true),
            parts.se.rows() == part_rows(self.cells@, 8, false),
    {
        let mut nw: [u8; 8] = [0; 8];
        let mut ne: [u8; 8] = [0; 8];
        let mut sw: [u8; 8] = [0; 8];
        let mut se: [u8; 8] = [0; 8];
        let mut i: usize = 0;
        while i < 8
            invariant
                i <= 8,
                nw@.len() == 8,
                ne@.len() == 8,
                sw@.len() == 8,
                se@.len() == 8,
                forall|q: int| 0 <= q < i ==> #[trigger] nw@[q] == part_rows(self.cells@, 0, true)[q],
                forall|q: int| 0 <= q < i ==> #[trigger] ne@[q] == part_rows(self.cells@, 0, false)[q],
                forall|q: int| 0 <= q < i ==> #[trigger] sw@[q] == part_rows(self.cells@, 8, true)[q],
                forall|q: int| 0 <= q < i ==> #[trigger] se@[q] == part_rows(self.cells@, 8, false)[q],
            decreases 8 - i,
        {
            let top = self.cells[i];
            let bottom = self.cells[i + 8];
            nw.set(i, (top / 256) as u8);
            ne.set(i, (top % 256) as u8);
            sw.set(i, (bottom / 256) as u8);
            se.set(i, (bottom % 256) as u8);
            i = i + 1;
        }
        assert(nw@ =~= part_rows(self.cells@, 0, true));
        assert(ne@ =~= part_rows(self.cells@, 0, false));
        assert(sw@ =~= part_rows(self.cells@, 8, true));
        assert(se@ =~= part_rows(self.cells@, 8, false));
        Quad { nw: LeafPart::new(nw), ne: LeafPart::new(ne), sw: LeafPart::new(sw), se: LeafPart::new(se) }
    }

    /// The leaf after `ticks` ticks of the rule.
    pub fn step<R: LifeRule>(&self, rule: &R, ticks: u8) -> (leaf: Self)
        ensures
            leaf.cells@ == ticked(*rule, self.cells@, ticks as nat),
    {
        let mut cells = self.cells;
        let mut t: u8 = 0;
        while t < ticks
            invariant
                t <= ticks,
                cells@ == ticked(*rule, self.cells@, t as nat),
            decreases ticks - t,
        {
            cells = rule.tick(cells);
            t = t + 1;
        }
        Self::new(cells)
    }

    /// The number of alive cells.
    pub fn population(&self) -> (population: u128)
        ensures
            population == rows_population(self.cells@, 16),
    {
        let mut count: u128 = 0;
        let mut r: usize = 0;
        while r < 16
            invariant
                r <= 16,
                count == rows_population(self.cells@, r as nat),
                count <= 16 * r,
            decreases 16 - r,
        {
            count = count + count_ones_u16(self.cells[r]) as u128;
            r = r + 1;
        }
        count
    }

    /// Whether no cell is alive.
    pub fn is_empty(&self) -> (empty: bool)
        ensures
            empty == forall|r: int| 0 <= r < 16 ==> #[trigger] self.cells@[r] == 0,
    {
        let mut r: usize = 0;
        while r < 16
            invariant
                r <= 16,
                forall|q: int| 0 <= q < r ==> #[trigger] self.cells@[q] == 0,
            decreases 16 - r,
        {
            if self.cells[r] != 0 {
                return false;
            }
            r = r + 1;
        }
        true
    }

    /// The 8 by 8 part at the center of the leaf.
    pub fn center(&self) -> (part: LeafPart)
        ensures
            forall|c: int, r: int|
                0 <= c < 8 && 0 <= r < 8 ==> #[trigger] bit8(part.rows()[r], (7 - c) as u8) == cell16(
                    self.cells@,
                    c + 4,
                    r + 4,
                ),
    {
        let mut rows: [u8; 8] = [0; 8];
        let mut i: usize = 0;
        while i < 8
            invariant
                i <= 8,
                rows@.len() == 8,
                forall|q: int| 0 <= q < i ==> #[trigger] rows@[q] == ((self.cells@[q + 4] >> 4u16) & 0xFFu16) as u8,
            decreases 8 - i,
        {
            let row = self.cells[i + 4];
            rows.set(i, ((row >> 4u16) & 0xFFu16) as u8);
            i = i + 1;
        }
        let part = LeafPart::new(rows);
        proof {
            assert forall|c: int, r: int| 0 <= c < 8 && 0 <= r < 8 implies #[trigger] bit8(part.rows()[r], (7 - c) as u8)
                == cell16(self.cells@, c + 4, r + 4) by {
                lemma_middle_byte(self.cells@[r + 4], (7 - c) as u8);
            }
        }
        part
    }
}

} // verus!
