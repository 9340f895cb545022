//! Life-like rules and one generation of them on an 8 by 8 grid of bits.

use vstd::prelude::*;

use crate::bool8x8::{bit64, lane_count, lemma_bit_ops, shift_amount, Bool8x8};
use crate::coords::Offset;
use crate::node::{bit16, neighbours};
use crate::node::cells::{lemma_bit16_mask, lemma_bit16_update};

verus! {

/// A Life-like rule: the neighbour counts at which a dead cell comes alive
/// and those at which an alive cell stays alive, as masks over `0..=8`.
#[derive(Clone, Copy, Debug, PartialEq, Eq, Structural)]
pub struct Rule {
    birth: u16,
    survival: u16,
}

/// Whether `mask` holds the count `n`.
pub open spec fn allows(mask: u16, n: int) -> bool {
    0 <= n <= 8 && bit16(mask, n as u16)
}

/// The bit of the cell at column `c` and row `r` of an 8 by 8 grid, the
/// northwest cell at bit 63.
pub open spec fn cell_bit(c: int, r: int) -> int {
    63 - 8 * r - c
}

/// The cell at column `c` and row `r` of an 8 by 8 grid.
pub open spec fn cell8(v: u64, c: int, r: int) -> bool {
    bit64(v, cell_bit(c, r) as u64)
}

/// The grid moved so that each cell holds one of its eight neighbours,
/// northwest, north, northeast, west, east, southwest, south, southeast.
pub open spec fn neighbour_grids(v: u64) -> Seq<Bool8x8> {
    seq![
        Bool8x8(v >> 9u64),
        Bool8x8(v >> 8u64),
        Bool8x8(v >> 7u64),
        Bool8x8(v >> 1u64),
        Bool8x8(v << 1u64),
        Bool8x8(v << 7u64),
        Bool8x8(v << 8u64),
        Bool8x8(v << 9u64),
    ]
}

/// 1 for an alive cell, else 0.
pub open spec fn one_if(alive: bool) -> nat {
    if alive {
        1
    } else {
        0
    }
}

/// The number of alive neighbours of the cell at column `c` and row `r`.
pub open spec fn neighbours8(v: u64, c: int, r: int) -> nat {
    one_if(cell8(v, c - 1, r - 1)) + one_if(cell8(v, c, r - 1)) + one_if(cell8(v, c + 1, r - 1)) + one_if(
        cell8(v, c - 1, r),
    ) + one_if(cell8(v, c + 1, r)) + one_if(cell8(v, c - 1, r + 1)) + one_if(cell8(v, c, r + 1)) + one_if(
        cell8(v, c + 1, r + 1),
    )
}

/// The number of the first `n` grids of `s` that hold bit `i`.
pub open spec fn plain_count(s: Seq<Bool8x8>, i: u64) -> nat
    decreases s.len(),
{
    if s.len() == 0 {
        0
    } else {
        plain_count(s.drop_last(), i) + one_if(bit64(s.last().0, i))
    }
}

/// `w` is one generation of the rule on the grid `v`: each cell follows
/// the rule with its count in the neighbour grids.
pub open spec fn stepped(rule: Rule, v: u64, w: u64) -> bool {
    forall|i: u64|
        i < 64 ==> #[trigger] bit64(w, i) == rule.next(bit64(v, i), lane_count(neighbour_grids(v), i) as int)
}

/// One generation of a rule on a whole grid.
pub open spec fn rule_generation(rule: Rule, g: spec_fn(int, int) -> bool) -> spec_fn(int, int) -> bool {
    |x: int, y: int| rule.next(g(x, y), neighbours(g, x, y))
}

/// A grid `t` generations of a rule later.
pub open spec fn rule_evolve(rule: Rule, g: spec_fn(int, int) -> bool, t: nat) -> spec_fn(int, int) -> bool
    decreases t,
{
    if t == 0 {
        g
    } else {
        rule_generation(rule, rule_evolve(rule, g, (t - 1) as nat))
    }
}

impl Rule {
    /// The birth mask.
    pub closed spec fn birth(&self) -> u16 {
        self.birth
    }

    /// The survival mask.
    pub closed spec fn survival(&self) -> u16 {
        self.survival
    }

    /// Whether a cell, alive or not, with `n` alive neighbours is alive in
    /// the next generation.
    pub open spec fn next(&self, alive: bool, n: int) -> bool {
        if alive {
            allows(self.survival(), n)
        } else {
            allows(self.birth(), n)
        }
    }

    /// The rule in which a dead cell with a count in `birth` comes alive and
    /// an alive cell with a count in `survival` stays alive; counts above 8
    /// never occur.
    pub fn new(birth: &[u8], survival: &[u8]) -> (rule: Self)
        ensures
            forall|n: int| 0 <= n <= 8 ==> (#[trigger] allows(rule.birth(), n) <==> birth@.contains(n as u8)),
            forall|n: int| 0 <= n <= 8 ==> (#[trigger] allows(rule.survival(), n) <==> survival@.contains(n as u8)),
    {
        Self { birth: count_mask(birth), survival: count_mask(survival) }
    }

    /// One generation of the rule on an 8 by 8 grid: each cell follows the
    /// rule with the count of its neighbours in the grids `neighbour_grids`,
    /// which moves bits across the rows, so only the cells off the border
    /// see their true neighbours.
    pub fn step(&self, cells: Bool8x8) -> (next: Bool8x8)
        ensures
            stepped(*self, cells.0, next.0),
    {
        let shifted = [
            cells.shift(Offset::Southeast(1)),
            cells.shift(Offset::South(1)),
            cells.shift(Offset::Southwest(1)),
            cells.shift(Offset::East(1)),
            cells.shift(Offset::West(1)),
            cells.shift(Offset::Northeast(1)),
            cells.shift(Offset::North(1)),
            cells.shift(Offset::Northwest(1)),
        ];
        proof {
            lemma_neighbour_shifts();
        }
        assert(shifted@[0].0 == cells.0 >> 9u64);
        assert(shifted@[1].0 == cells.0 >> 8u64);
        assert(shifted@[2].0 == cells.0 >> 7u64);
        assert(shifted@[3].0 == cells.0 >> 1u64);
        assert(shifted@[4].0 == cells.0 << 1u64);
        assert(shifted@[5].0 == cells.0 << 7u64);
        assert(shifted@[6].0 == cells.0 << 8u64);
        assert(shifted@[7].0 == cells.0 << 9u64);
        assert(shifted@ =~= neighbour_grids(cells.0));
        let buckets = Bool8x8::sum(&shifted);
        proof {
            assert forall|i: u64| i < 64 implies #[trigger] lane_count(neighbour_grids(cells.0), i) <= 8 by {
                lemma_lane_count_exact(neighbour_grids(cells.0), i);
            }
        }
        let v = cells.0;
        let mut result: u64 = 0;
        let mut k: u16 = 0;
        proof {
            assert forall|i: u64| i < 64 implies !#[trigger] bit64(result, i) by {
                assert(!bit64(0u64, i)) by (bit_vector)
                    requires
                        i < 64,
                ;
            }
        }
        while k < 9
            invariant
                k <= 9,
                v == cells.0,
                forall|q: int, i: u64|
                    0 <= q < 9 && i < 64 ==> #[trigger] bit64(buckets@[q].0, i) == (lane_count(neighbour_grids(v), i) == q),
                forall|i: u64| i < 64 ==> #[trigger] lane_count(neighbour_grids(v), i) <= 8,
                forall|i: u64|
                    i < 64 ==> #[trigger] bit64(result, i) == (lane_count(neighbour_grids(v), i) < k && self.next(
                        bit64(v, i),
                        lane_count(neighbour_grids(v), i) as int,
                    )),
            decreases 9 - k,
        {
            let bucket = buckets[k as usize].0;
            let born = self.birth & (1u16 << k) > 0;
            let survives = self.survival & (1u16 << k) > 0;
            proof {
                lemma_bit16_mask(self.birth, k);
                lemma_bit16_mask(self.survival, k);
            }
            let add = if born && survives {
                bucket
            } else if born {
                bucket & !v
            } else if survives {
                bucket & v
            } else {
                0
            };
            proof {
                assert forall|i: u64| i < 64 implies #[trigger] bit64(result | add, i) == (lane_count(neighbour_grids(v), i) < k + 1
                    && self.next(bit64(v, i), lane_count(neighbour_grids(v), i) as int)) by {
                    lemma_bit_ops(result, add, i);
                    lemma_bit_ops(bucket, !v, i);
                    lemma_bit_ops(bucket, v, i);
                    lemma_bit_ops(v, v, i);
                    assert(!bit64(0u64, i)) by (bit_vector)
                        requires
                            i < 64,
                    ;
                    assert(bit64(bucket, i) == (lane_count(neighbour_grids(v), i) == k));
                }
            }
            result = result | add;
            k = k + 1;
        }
        Bool8x8(result)
    }
}

/// How far `shift` moves the bits for each of the eight neighbours.
proof fn lemma_neighbour_shifts()
    ensures
        shift_amount(Offset::Southeast(1)) == 9,
        shift_amount(Offset::South(1)) == 8,
        shift_amount(Offset::Southwest(1)) == 7,
        shift_amount(Offset::East(1)) == 1,
        shift_amount(Offset::West(1)) == -1,
        shift_amount(Offset::Northeast(1)) == -7,
        shift_amount(Offset::North(1)) == -8,
        shift_amount(Offset::Northwest(1)) == -9,
{
}

/// The mask of the counts in `counts` that are at most 8.
fn count_mask(counts: &[u8]) -> (mask: u16)
    ensures
        forall|n: int| 0 <= n <= 8 ==> (#[trigger] allows(mask, n) <==> counts@.contains(n as u8)),
{
    let mut mask: u16 = 0;
    let mut j: usize = 0;
    proof {
        assert forall|n: u16| n < 16 implies !#[trigger] bit16(0u16, n) by {
            assert(!bit16(0u16, n)) by (bit_vector)
                requires
                    n < 16,
            ;
        }
    }
    while j < counts.len()
        invariant
            j <= counts@.len(),
            forall|n: int| 0 <= n <= 8 ==> (#[trigger] allows(mask, n) <==> counts@.take(j as int).contains(n as u8)),
        decreases counts@.len() - j,
    {
        let c = counts[j];
        let old_mask = mask;
        if c <= 8 {
            mask = mask | (1u16 << c as u16);
        }
        proof {
            let prev = counts@.take(j as int);
            let next = counts@.take(j + 1);
            assert(next == prev.push(c));
            assert forall|n: int| 0 <= n <= 8 implies (#[trigger] allows(mask, n) <==> next.contains(n as u8)) by {
                if c <= 8 {
                    lemma_bit16_update(old_mask, c as u16, n as u16);
                    assert(allows(mask, n) == (n == c as int || allows(old_mask, n)));
                } else {
                    assert(allows(mask, n) == allows(old_mask, n));
                }
                assert(allows(old_mask, n) <==> prev.contains(n as u8));
                if prev.contains(n as u8) {
                    let w = choose|w: int| 0 <= w < prev.len() && #[trigger] prev[w] == n as u8;
                    assert(next[w] == n as u8);
                }
                if n == c as int {
                    assert(next[j as int] == c);
                }
                if next.contains(n as u8) {
                    let w = choose|w: int| 0 <= w < next.len() && #[trigger] next[w] == n as u8;
                    if w < j {
                        assert(prev[w] == n as u8);
                    } else {
                        assert(next[w] == c);
                    }
                }
            }
        }
        j = j + 1;
    }
    assert(counts@.take(counts@.len() as int) == counts@);
    mask
}

/// Bit `i` of a word moved towards the least significant bit.
pub proof fn lemma_shr_bit(v: u64, k: u64, i: u64)
    requires
        i + k < 64,
    ensures
        bit64(v >> k, i) == bit64(v, (i + k) as u64),
{
    assert(bit64(v >> k, i) == bit64(v, (i + k) as u64)) by (bit_vector)
        requires
            i + k < 64,
    ;
}

/// Bit `i` of a word moved towards the most significant bit.
pub proof fn lemma_shl_bit(v: u64, k: u64, i: u64)
    requires
        k <= i < 64,
    ensures
        bit64(v << k, i) == bit64(v, (i - k) as u64),
{
    assert(bit64(v << k, i) == bit64(v, (i - k) as u64)) by (bit_vector)
        requires
            k <= i < 64,
    ;
}

/// Off the border, a cell's count in the neighbour grids is the number of
/// its alive neighbours.
pub proof fn lemma_interior_count(v: u64, c: int, r: int)
    requires
        1 <= c <= 6,
        1 <= r <= 6,
    ensures
        lane_count(neighbour_grids(v), cell_bit(c, r) as u64) == neighbours8(v, c, r),
{
    let i = cell_bit(c, r) as u64;
    let s = neighbour_grids(v);
    lemma_lane_count_exact(s, i);
    lemma_shr_bit(v, 9, i);
    lemma_shr_bit(v, 8, i);
    lemma_shr_bit(v, 7, i);
    lemma_shr_bit(v, 1, i);
    lemma_shl_bit(v, 1, i);
    lemma_shl_bit(v, 7, i);
    lemma_shl_bit(v, 8, i);
    lemma_shl_bit(v, 9, i);
    assert(cell_bit(c - 1, r - 1) == i + 9);
    assert(cell_bit(c + 1, r + 1) == i - 9);
    let s7 = s.drop_last();
    let s6 = s7.drop_last();
    let s5 = s6.drop_last();
    let s4 = s5.drop_last();
    let s3 = s4.drop_last();
    let s2 = s3.drop_last();
    let s1 = s2.drop_last();
    let s0 = s1.drop_last();
    assert(s0.len() == 0);
    assert(plain_count(s, i) == plain_count(s7, i) + one_if(bit64(v << 9u64, i)));
    assert(plain_count(s7, i) == plain_count(s6, i) + one_if(bit64(v << 8u64, i)));
    assert(plain_count(s6, i) == plain_count(s5, i) + one_if(bit64(v << 7u64, i)));
    assert(plain_count(s5, i) == plain_count(s4, i) + one_if(bit64(v << 1u64, i)));
    assert(plain_count(s4, i) == plain_count(s3, i) + one_if(bit64(v >> 1u64, i)));
    assert(plain_count(s3, i) == plain_count(s2, i) + one_if(bit64(v >> 7u64, i)));
    assert(plain_count(s2, i) == plain_count(s1, i) + one_if(bit64(v >> 8u64, i)));
    assert(plain_count(s1, i) == plain_count(s0, i) + one_if(bit64(v >> 9u64, i)));
}

/// With at most eight grids, the sticky count is the plain count.
pub proof fn lemma_lane_count_exact(s: Seq<Bool8x8>, i: u64)
    requires
        s.len() <= 8,
    ensures
        lane_count(s, i) == plain_count(s, i),
        plain_count(s, i) <= s.len(),
    decreases s.len(),
{
    if s.len() > 0 {
        lemma_lane_count_exact(s.drop_last(), i);
    }
}

} // verus!
