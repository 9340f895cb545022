//! An 8 by 8 grid of booleans packed in a `u64`, and bit-parallel counting.
//!
//! The most significant bit, `1 << 63`, is the upper-left corner and the
//! least significant bit, `1 << 0`, the lower-right one; each row is one
//! byte.

use vstd::prelude::*;

use crate::coords::Offset;

verus! {

/// Bit `i` of a `u64`.
pub open spec fn bit64(v: u64, i: u64) -> bool {
    (v >> i) & 1u64 == 1u64
}

/// What the bitwise operators do to each bit.
pub proof fn lemma_bit_ops(a: u64, b: u64, i: u64)
    by (bit_vector)
    requires
        i < 64,
    ensures
        bit64(a & b, i) == (bit64(a, i) && bit64(b, i)),
        bit64(a | b, i) == (bit64(a, i) || bit64(b, i)),
        bit64(a ^ b, i) == (bit64(a, i) != bit64(b, i)),
        bit64(!a, i) == !bit64(a, i),
{
}

/// A counter of at most 15 that, once past 7, counts 8, 9, ... as 8 again
/// after 15: the value of a four-bit counter whose top bit sticks.
pub open spec fn bump(v: nat, one: bool) -> nat {
    if !one {
        v
    } else if v % 8 == 7 {
        8
    } else {
        v + 1
    }
}

/// The sticky four-bit count, at bit `i`, of the words of `s`.
pub open spec fn lane_count(s: Seq<Bool8x8>, i: u64) -> nat
    decreases s.len(),
{
    if s.len() == 0 {
        0
    } else {
        bump(lane_count(s.drop_last(), i), bit64(s.last().0, i))
    }
}

/// The value, at bit `i`, of a four-bit counter held in four words, `q0` the
/// least significant.
pub open spec fn lane(q0: u64, q1: u64, q2: u64, q3: u64, i: u64) -> nat {
    (if bit64(q0, i) { 1nat } else { 0nat }) + (if bit64(q1, i) { 2nat } else { 0nat }) + (if bit64(q2, i) {
        4nat
    } else {
        0nat
    }) + (if bit64(q3, i) { 8nat } else { 0nat })
}

/// Adding one word to a bit-parallel counter with a sticky top bit.
pub proof fn lemma_lane_add(q0: u64, q1: u64, q2: u64, q3: u64, x: u64, i: u64)
    requires
        i < 64,
    ensures
        ({
            let b0 = q0 ^ x;
            let c0 = q0 & x;
            let b1 = q1 ^ c0;
            let c1 = q1 & c0;
            let b2 = q2 ^ c1;
            let c2 = q2 & c1;
            let b3 = q3 | c2;
            lane(b0, b1, b2, b3, i) == bump(lane(q0, q1, q2, q3, i), bit64(x, i))
        }),
{
    let c0 = q0 & x;
    let c1 = q1 & c0;
    let c2 = q2 & c1;
    lemma_bit_ops(q0, x, i);
    lemma_bit_ops(q1, c0, i);
    lemma_bit_ops(q2, c1, i);
    lemma_bit_ops(q3, c2, i);
}

/// The nine buckets of a bit-parallel count: bucket `k` holds the bits whose
/// count is `k`.
pub open spec fn buckets_of(q0: u64, q1: u64, q2: u64, q3: u64, r: Seq<u64>) -> bool {
    &&& r.len() == 9
    &&& forall|k: int, i: u64| 0 <= k < 9 && i < 64 ==> #[trigger] bit64(r[k], i) == (lane(q0, q1, q2, q3, i) == k)
}

/// Bucket `k` of a four-bit counter: the bits whose value is `k`, for `k` at
/// most 8.
pub proof fn lemma_buckets(q0: u64, q1: u64, q2: u64, q3: u64, i: u64)
    requires
        i < 64,
    ensures
        bit64(!q3 & !q2 & !q1 & !q0, i) == (lane(q0, q1, q2, q3, i) == 0),
        bit64(!q3 & !q2 & !q1 & q0, i) == (lane(q0, q1, q2, q3, i) == 1),
        bit64(!q3 & !q2 & q1 & !q0, i) == (lane(q0, q1, q2, q3, i) == 2),
        bit64(!q3 & !q2 & q1 & q0, i) == (lane(q0, q1, q2, q3, i) == 3),
        bit64(!q3 & q2 & !q1 & !q0, i) == (lane(q0, q1, q2, q3, i) == 4),
        bit64(!q3 & q2 & !q1 & q0, i) == (lane(q0, q1, q2, q3, i) == 5),
        bit64(!q3 & q2 & q1 & !q0, i) == (lane(q0, q1, q2, q3, i) == 6),
        bit64(!q3 & q2 & q1 & q0, i) == (lane(q0, q1, q2, q3, i) == 7),
        bit64(q3 & !q2 & !q1 & !q0, i) == (lane(q0, q1, q2, q3, i) == 8),
{
    lemma_bit_ops(q0, q0, i);
    lemma_bit_ops(q1, q1, i);
    lemma_bit_ops(q2, q2, i);
    lemma_bit_ops(q3, q3, i);
    lemma_bit_ops(!q3, !q2, i);
    lemma_bit_ops(!q3, q2, i);
    lemma_bit_ops(q3, !q2, i);
    lemma_bit_ops(!q3 & !q2, !q1, i);
    lemma_bit_ops(!q3 & !q2, q1, i);
    lemma_bit_ops(!q3 & q2, !q1, i);
    lemma_bit_ops(!q3 & q2, q1, i);
    lemma_bit_ops(q3 & !q2, !q1, i);
    lemma_bit_ops(!q3 & !q2 & !q1, !q0, i);
    lemma_bit_ops(!q3 & !q2 & !q1, q0, i);
    lemma_bit_ops(!q3 & !q2 & q1, !q0, i);
    lemma_bit_ops(!q3 & !q2 & q1, q0, i);
    lemma_bit_ops(!q3 & q2 & !q1, !q0, i);
    lemma_bit_ops(!q3 & q2 & !q1, q0, i);
    lemma_bit_ops(!q3 & q2 & q1, !q0, i);
    lemma_bit_ops(!q3 & q2 & q1, q0, i);
    lemma_bit_ops(q3 & !q2 & !q1, !q0, i);
}

/// A `u64` read as an 8 by 8 grid of booleans.
#[derive(Clone, Copy, Debug, PartialEq, Eq, Structural)]
pub struct Bool8x8(pub u64);

impl Bool8x8 {
    /// The bits of no cell.
    pub const FALSE: u64 = 0;

    /// The bits of every cell.
    pub const TRUE: u64 = 0xFFFF_FFFF_FFFF_FFFF;

    /// The bits of the west half.
    pub const WEST: u64 = 0xF0F0_F0F0_F0F0_F0F0;

    /// The bits of the east half.
    pub const EAST: u64 = 0x0F0F_0F0F_0F0F_0F0F;

    /// The bits of the north half.
    pub const NORTH: u64 = 0xFFFF_FFFF_0000_0000;

    /// The bits of the south half.
    pub const SOUTH: u64 = 0x0000_0000_FFFF_FFFF;

    /// The bits of the northwest quarter.
    pub const NORTHWEST: u64 = 0xF0F0_F0F0_0000_0000;

    /// The bits of the northeast quarter.
    pub const NORTHEAST: u64 = 0x0F0F_0F0F_0000_0000;

    /// The bits of the southwest quarter.
    pub const SOUTHWEST: u64 = 0x0000_0000_F0F0_F0F0;

    /// The bits of the southeast quarter.
    pub const SOUTHEAST: u64 = 0x0000_0000_0F0F_0F0F;

    /// The bits of the central 4 by 4 square.
    pub const CENTER: u64 = 0x0000_3C3C_3C3C_0000;

    /// Bitwise AND.
    pub fn and(&self, other: Self) -> (r: Self)
        ensures
            r.0 == self.0 & other.0,
    {
        Self(self.0 & other.0)
    }

    /// Bitwise OR.
    pub fn or(&self, other: Self) -> (r: Self)
        ensures
            r.0 == self.0 | other.0,
    {
        Self(self.0 | other.0)
    }

    /// Bitwise XOR.
    pub fn xor(&self, other: Self) -> (r: Self)
        ensures
            r.0 == self.0 ^ other.0,
    {
        Self(self.0 ^ other.0)
    }

    /// Bitwise NOT.
    pub fn not(&self) -> (r: Self)
        ensures
            r.0 == !self.0,
    {
        Self(!self.0)
    }

    /// Whether bit `index` is set.
    pub fn get_bit(&self, index: usize) -> (set: bool)
        requires
            index < 64,
        ensures
            set == bit64(self.0, index as u64),
    {
        let i = index as u64;
        let v = self.0;
        assert((v & (1u64 << i) > 0) == bit64(v, i)) by (bit_vector)
            requires
                i < 64,
        ;
        v & (1u64 << i) > 0
    }

    /// The grid with bit `index` set.
    pub fn set_bit(&self, index: usize) -> (r: Self)
        requires
            index < 64,
        ensures
            r.0 == self.0 | (1u64 << index as u64),
            forall|i: u64| i < 64 ==> #[trigger] bit64(r.0, i) == (i == index || bit64(self.0, i)),
    {
        let i = index as u64;
        proof {
            assert forall|j: u64| j < 64 implies #[trigger] bit64(self.0 | (1u64 << i), j) == (j == i || bit64(self.0, j)) by {
                let v = self.0;
                assert(bit64(v | (1u64 << i), j) == (j == i || bit64(v, j))) by (bit_vector)
                    requires
                        i < 64,
                        j < 64,
                ;
            }
        }
        Self(self.0 | (1u64 << i))
    }

    /// The grid with bit `index` cleared.
    pub fn unset_bit(&self, index: usize) -> (r: Self)
        requires
            index < 64,
        ensures
            r.0 == self.0 & !(1u64 << index as u64),
            forall|i: u64| i < 64 ==> #[trigger] bit64(r.0, i) == (i != index && bit64(self.0, i)),
    {
        let i = index as u64;
        proof {
            assert forall|j: u64| j < 64 implies #[trigger] bit64(self.0 & !(1u64 << i), j) == (j != i && bit64(self.0, j)) by {
                let v = self.0;
                assert(bit64(v & !(1u64 << i), j) == (j != i && bit64(v, j))) by (bit_vector)
                    requires
                        i < 64,
                        j < 64,
                ;
            }
        }
        Self(self.0 & !(1u64 << i))
    }
}


/// The AND of `acc` and the words of `s`.
pub open spec fn and_all(acc: u64, s: Seq<Bool8x8>) -> u64
    decreases s.len(),
{
    if s.len() == 0 {
        acc
    } else {
        and_all(acc, s.drop_last()) & s.last().0
    }
}

/// The OR of `acc` and the words of `s`.
pub open spec fn or_all(acc: u64, s: Seq<Bool8x8>) -> u64
    decreases s.len(),
{
    if s.len() == 0 {
        acc
    } else {
        or_all(acc, s.drop_last()) | s.last().0
    }
}

/// The XOR of `acc` and the words of `s`.
pub open spec fn xor_all(acc: u64, s: Seq<Bool8x8>) -> u64
    decreases s.len(),
{
    if s.len() == 0 {
        acc
    } else {
        xor_all(acc, s.drop_last()) ^ s.last().0
    }
}

/// The OR of `acc` and of the ANDs of the words of `xs` and `ys` at the same
/// places, over the first `n` places.
pub open spec fn or_pairs(acc: u64, xs: Seq<Bool8x8>, ys: Seq<Bool8x8>, n: nat) -> u64
    decreases n,
{
    if n == 0 {
        acc
    } else {
        or_pairs(acc, xs, ys, (n - 1) as nat) | (xs[n - 1].0 & ys[n - 1].0)
    }
}

/// How far `shift` moves the bits: towards the least significant bit for a
/// positive amount.
pub open spec fn shift_amount(offset: Offset) -> int {
    match offset {
        Offset::West(dx) => -dx,
        Offset::East(dx) => dx as int,
        Offset::North(dy) => -8 * dy,
        Offset::South(dy) => 8 * dy,
        Offset::Northwest(d) => -9 * d,
        Offset::Northeast(d) => -7 * d,
        Offset::Southwest(d) => 7 * d,
        Offset::Southeast(d) => 9 * d,
        Offset::Arbitrary { dx, dy } => 8 * dy + dx,
    }
}

/// The components of an offset are small.
pub open spec fn small_offset(offset: Offset) -> bool {
    match offset {
        Offset::Arbitrary { dx, dy } => -0x1000_0000 <= dx <= 0x1000_0000 && -0x1000_0000 <= dy <= 0x1000_0000,
        Offset::West(d) => -0x1000_0000 <= d <= 0x1000_0000,
        Offset::East(d) => -0x1000_0000 <= d <= 0x1000_0000,
        Offset::North(d) => -0x1000_0000 <= d <= 0x1000_0000,
        Offset::South(d) => -0x1000_0000 <= d <= 0x1000_0000,
        Offset::Northwest(d) => -0x1000_0000 <= d <= 0x1000_0000,
        Offset::Northeast(d) => -0x1000_0000 <= d <= 0x1000_0000,
        Offset::Southwest(d) => -0x1000_0000 <= d <= 0x1000_0000,
        Offset::Southeast(d) => -0x1000_0000 <= d <= 0x1000_0000,
    }
}

impl Bool8x8 {
    /// The AND of `result` and every grid of `list`.
    pub fn fold_and(result: Self, list: &[Self]) -> (r: Self)
        ensures
            r.0 == and_all(result.0, list@),
    {
        let mut acc = result;
        let mut i: usize = 0;
        while i < list.len()
            invariant
                i <= list@.len(),
                acc.0 == and_all(result.0, list@.take(i as int)),
            decreases list@.len() - i,
        {
            proof {
                assert(list@.take(i + 1).drop_last() == list@.take(i as int));
            }
            acc = acc.and(list[i]);
            i = i + 1;
        }
        proof {
            assert(list@.take(list@.len() as int) == list@);
        }
        acc
    }

    /// The OR of `result` and every grid of `list`.
    pub fn fold_or(result: Self, list: &[Self]) -> (r: Self)
        ensures
            r.0 == or_all(result.0, list@),
    {
        let mut acc = result;
        let mut i: usize = 0;
        while i < list.len()
            invariant
                i <= list@.len(),
                acc.0 == or_all(result.0, list@.take(i as int)),
            decreases list@.len() - i,
        {
            proof {
                assert(list@.take(i + 1).drop_last() == list@.take(i as int));
            }
            acc = acc.or(list[i]);
            i = i + 1;
        }
        proof {
            assert(list@.take(list@.len() as int) == list@);
        }
        acc
    }

    /// The XOR of `result` and every grid of `list`.
    pub fn fold_xor(result: Self, list: &[Self]) -> (r: Self)
        ensures
            r.0 == xor_all(result.0, list@),
    {
        let mut acc = result;
        let mut i: usize = 0;
        while i < list.len()
            invariant
                i <= list@.len(),
                acc.0 == xor_all(result.0, list@.take(i as int)),
            decreases list@.len() - i,
        {
            proof {
                assert(list@.take(i + 1).drop_last() == list@.take(i as int));
            }
            acc = acc.xor(list[i]);
            i = i + 1;
        }
        proof {
            assert(list@.take(list@.len() as int) == list@);
        }
        acc
    }

    /// The AND of every grid of `list`.
    pub fn all(list: &[Self]) -> (r: Self)
        ensures
            r.0 == and_all(Self::TRUE, list@),
    {
        Self::fold_and(Self(Self::TRUE), list)
    }

    /// The OR of every grid of `list`.
    pub fn any(list: &[Self]) -> (r: Self)
        ensures
            r.0 == or_all(Self::FALSE, list@),
    {
        Self::fold_or(Self(Self::FALSE), list)
    }

    /// The OR of the ANDs of the grids of `xs` and `ys` at the same places;
    /// no cell when the lists differ in length.
    pub fn any_both(xs: &[Self], ys: &[Self]) -> (r: Self)
        ensures
            r.0 == (if xs@.len() == ys@.len() {
                or_pairs(0, xs@, ys@, xs@.len())
            } else {
                0
            }),
    {
        if xs.len() != ys.len() {
            return Self(Self::FALSE);
        }
        let mut acc = Self(Self::FALSE);
        let mut i: usize = 0;
        while i < xs.len()
            invariant
                i <= xs@.len(),
                xs@.len() == ys@.len(),
                acc.0 == or_pairs(0, xs@, ys@, i as nat),
            decreases xs@.len() - i,
        {
            acc = acc.or(xs[i].and(ys[i]));
            i = i + 1;
        }
        acc
    }

    /// The grid moved `dx` cells east and `dy` cells north; what moves off
    /// the word is lost.
    pub fn offset(&self, dx: i8, dy: i8) -> (r: Self)
        requires
            -63 <= dx <= 63,
            -7 <= dy <= 7,
        ensures
            r.0 == ({
                let s = if dx >= 0 {
                    self.0 >> (dx as u64)
                } else {
                    self.0 << ((-dx) as u64)
                };
                if dy >= 0 {
                    s << ((8 * dy) as u64)
                } else {
                    s >> ((-8 * dy) as u64)
                }
            }),
    {
        let mut result = self.0;
        if dx >= 0 {
            result = result >> (dx as u64);
        } else {
            result = result << ((-dx) as u64);
        }
        if dy >= 0 {
            result = result << ((8 * dy) as u64);
        } else {
            result = result >> ((-8 * dy) as u64);
        }
        Self(result)
    }

    /// The grid moved by the offset; what moves off the word is lost.
    pub fn shift(&self, offset: Offset) -> (r: Self)
        requires
            small_offset(offset),
            -64 < shift_amount(offset) < 64,
        ensures
            r.0 == (if shift_amount(offset) >= 0 {
                self.0 >> (shift_amount(offset) as u64)
            } else {
                self.0 << ((-shift_amount(offset)) as u64)
            }),
    {
        let shift: i64 = match offset {
            Offset::West(dx) => -dx,
            Offset::East(dx) => dx,
            Offset::North(dy) => -8 * dy,
            Offset::South(dy) => 8 * dy,
            Offset::Northwest(delta) => -9 * delta,
            Offset::Northeast(delta) => -7 * delta,
            Offset::Southwest(delta) => 7 * delta,
            Offset::Southeast(delta) => 9 * delta,
            Offset::Arbitrary { dx, dy } => 8 * dy + dx,
        };
        if shift >= 0 {
            Self(self.0 >> (shift as u64))
        } else {
            Self(self.0 << ((-shift) as u64))
        }
    }

    /// Counts, for each cell, how many of the grids have it: bucket `k` of
    /// the result holds the cells counted `k` times. The count is held in
    /// four bits whose top bit sticks, so it is exact up to 8.
    pub fn sum(addends: &[Self]) -> (buckets: [Self; 9])
        ensures
            forall|k: int, i: u64|
                0 <= k < 9 && i < 64 ==> #[trigger] bit64(buckets@[k].0, i) == (lane_count(addends@, i) == k),
    {
        let mut d0: u64 = 0;
        let mut d1: u64 = 0;
        let mut d2: u64 = 0;
        let mut d3: u64 = 0;
        let mut j: usize = 0;
        proof {
            assert forall|i: u64| i < 64 implies #[trigger] lane(d3, d2, d1, d0, i) == lane_count(addends@.take(0), i) by {
                assert(0u64 >> i & 1u64 == 0u64) by (bit_vector);
            }
        }
        while j < addends.len()
            invariant
                j <= addends@.len(),
                forall|i: u64| i < 64 ==> #[trigger] lane(d3, d2, d1, d0, i) == lane_count(addends@.take(j as int), i),
            decreases addends@.len() - j,
        {
            let addend = addends[j].0;
            let carry0 = d3 & addend;
            let n3 = d3 ^ addend;
            let carry1 = d2 & carry0;
            let n2 = d2 ^ carry0;
            let carry2 = d1 & carry1;
            let n1 = d1 ^ carry1;
            let n0 = d0 | carry2;
            proof {
                assert(addends@.take(j + 1).drop_last() == addends@.take(j as int));
                assert(addends@.take(j + 1).last() == addends@[j as int]);
                assert forall|i: u64| i < 64 implies #[trigger] lane(n3, n2, n1, n0, i) == lane_count(addends@.take(j + 1), i) by {
                    lemma_lane_add(d3, d2, d1, d0, addend, i);
                }
            }
            d0 = n0;
            d1 = n1;
            d2 = n2;
            d3 = n3;
            j = j + 1;
        }
        let (a1, b1, c1, e1) = (d0, d1, d2, d3);
        let (a0, b0, c0, e0) = (!d0, !d1, !d2, !d3);
        let buckets = [
            Self(a0 & b0 & c0 & e0),
            Self(a0 & b0 & c0 & e1),
            Self(a0 & b0 & c1 & e0),
            Self(a0 & b0 & c1 & e1),
            Self(a0 & b1 & c0 & e0),
            Self(a0 & b1 & c0 & e1),
            Self(a0 & b1 & c1 & e0),
            Self(a0 & b1 & c1 & e1),
            Self(a1 & b0 & c0 & e0),
        ];
        proof {
            assert(addends@.take(addends@.len() as int) == addends@);
            assert forall|k: int, i: u64| 0 <= k < 9 && i < 64 implies #[trigger] bit64(buckets@[k].0, i) == (lane_count(addends@, i) == k) by {
                lemma_buckets(d3, d2, d1, d0, i);
            }
        }
        buckets
    }
}

} // verus!
