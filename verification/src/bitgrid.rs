//! Rows of bits read and written one bit at a time.

use vstd::prelude::*;

use crate::node::bit16;
use crate::node::cells::{lemma_bit16_mask, lemma_bit16_update};

verus! {

/// Reading and writing single bits of rows of bits.
pub trait SimdExt: Sized {
    /// Bit `col` of row `row`, if both are in range.
    fn get(&self, row: usize, col: usize) -> Option<bool>;

    /// The rows with bit `col` of row `row` set to `value`, if both are in
    /// range.
    fn set(&self, row: usize, col: usize, value: bool) -> Option<Self>;
}

impl SimdExt for [u16; 16] {
    fn get(&self, row: usize, col: usize) -> (bit: Option<bool>)
        ensures
            bit is Some <==> row < 16 && col < 16,
            bit matches Some(b) ==> b == bit16(self@[row as int], col as u16),
    {
        if row < 16 && col < 16 {
            proof {
                lemma_bit16_mask(self@[row as int], col as u16);
            }
            Some(self[row] & (1u16 << col as u16) > 0)
        } else {
            None
        }
    }

    fn set(&self, row: usize, col: usize, value: bool) -> (rows: Option<Self>)
        ensures
            rows is Some <==> row < 16 && col < 16,
            rows matches Some(r) ==> forall|i: int, k: u16|
                0 <= i < 16 && k < 16 ==> #[trigger] bit16(r@[i], k) == if i == row && k == col {
                    value
                } else {
                    bit16(self@[i], k)
                },
    {
        if row < 16 && col < 16 {
            let mut result = *self;
            let old_row = result[row];
            let new_row = if value {
                old_row | (1u16 << col as u16)
            } else {
                old_row & !(1u16 << col as u16)
            };
            result[row] = new_row;
            proof {
                assert forall|i: int, k: u16| 0 <= i < 16 && k < 16 implies #[trigger] bit16(result@[i], k) == if i == row
                    && k == col {
                    value
                } else {
                    bit16(self@[i], k)
                } by {
                    if i == row {
                        lemma_bit16_update(old_row, col as u16, k);
                    }
                }
            }
            Some(result)
        } else {
            None
        }
    }
}

} // verus!
