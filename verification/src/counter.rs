//! Bit-parallel counting of 64 lanes at once.

use vstd::prelude::*;

use crate::bool8x8::{bit64, bump, lane, lemma_buckets, lemma_lane_add};

verus! {

/// The count that lane `i` holds after adding the words of `words` in
/// order to counters that start at 0.
pub open spec fn counted(words: Seq<u64>, i: u64) -> nat
    decreases words.len(),
{
    if words.len() == 0 {
        0
    } else {
        bump(counted(words.drop_last(), i), bit64(words.last(), i))
    }
}

/// How many words of `words` have bit `i` set.
pub open spec fn set_in(words: Seq<u64>, i: u64) -> nat
    decreases words.len(),
{
    if words.len() == 0 {
        0
    } else {
        set_in(words.drop_last(), i) + if bit64(words.last(), i) { 1nat } else { 0nat }
    }
}

/// Adding a word bumps the count of each lane whose bit it has set.
pub proof fn lemma_counted_push(words: Seq<u64>, x: u64, i: u64)
    ensures
        counted(words.push(x), i) == bump(counted(words, i), bit64(x, i)),
        set_in(words.push(x), i) == set_in(words, i) + if bit64(x, i) { 1nat } else { 0nat },
{
    assert(words.push(x).drop_last() == words);
}

/// The order of two additions does not matter, and adding 0 changes no
/// lane.
pub proof fn lemma_add_order(words: Seq<u64>, x: u64, y: u64, i: u64)
    requires
        i < 64,
    ensures
        counted(words.push(x).push(y), i) == counted(words.push(y).push(x), i),
        counted(words.push(0), i) == counted(words, i),
{
    assert(bit64(0, i) == false) by (bit_vector)
        requires
            i < 64,
    ;
    lemma_counted_push(words, x, i);
    lemma_counted_push(words, y, i);
    lemma_counted_push(words.push(x), y, i);
    lemma_counted_push(words.push(y), x, i);
    lemma_counted_push(words, 0, i);
}

/// After at most eight words, each lane counts exactly the words that have
/// its bit set.
pub proof fn lemma_counts_exact(words: Seq<u64>, i: u64)
    requires
        words.len() <= 8,
    ensures
        counted(words, i) == set_in(words, i),
        set_in(words, i) <= words.len(),
    decreases words.len(),
{
    if words.len() > 0 {
        lemma_counts_exact(words.drop_last(), i);
    }
}

/// Sixty-four counters, one per bit of a `u64`, each counting to 8 with a
/// sticky top bit.
pub struct Counter {
    bits: [u64; 4],
}

impl Counter {
    /// The count of lane `i`.
    pub closed spec fn count(&self, i: u64) -> nat {
        lane(self.bits@[0], self.bits@[1], self.bits@[2], self.bits@[3], i)
    }

    /// Returns a counter whose lanes are all 0.
    pub fn new() -> (c: Self)
        ensures
            forall|i: u64| i < 64 ==> #[trigger] c.count(i) == 0,
    {
        let c = Self { bits: [0; 4] };
        proof {
            assert forall|i: u64| i < 64 implies #[trigger] c.count(i) == 0 by {
                assert(0u64 >> i & 1u64 == 0u64) by (bit_vector);
            }
        }
        c
    }

    /// Adds the bits of `i` to the lanes.
    pub fn add(self, i: u64) -> (c: Self)
        ensures
            forall|k: u64| k < 64 ==> #[trigger] c.count(k) == bump(self.count(k), bit64(i, k)),
    {
        let a = self.bits[0];
        let b = self.bits[1];
        let c = self.bits[2];
        let d = self.bits[3];

        let b0 = a ^ i; // sum
        let q = a & i; // carry

        let b1 = b ^ q; // sum
        let q = b & q; // carry

        let b2 = c ^ q; // sum
        let q = c & q; // carry

        let b3 = d | q; // saturating sum

        let r = Self { bits: [b0, b1, b2, b3] };
        proof {
            assert forall|k: u64| k < 64 implies #[trigger] r.count(k) == bump(self.count(k), bit64(i, k)) by {
                lemma_lane_add(a, b, c, d, i, k);
            }
        }
        r
    }

    /// The nine buckets of the counts: bucket `k` holds the lanes whose count
    /// is `k`.
    pub fn finish(self) -> (buckets: [u64; 9])
        ensures
            forall|k: int, i: u64| 0 <= k < 9 && i < 64 ==> #[trigger] bit64(buckets@[k], i) == (self.count(i) == k),
    {
        let q0 = self.bits[0];
        let q1 = self.bits[1];
        let q2 = self.bits[2];
        let q3 = self.bits[3];
        let buckets = [
            !q3 & !q2 & !q1 & !q0,
            !q3 & !q2 & !q1 & q0,
            !q3 & !q2 & q1 & !q0,
            !q3 & !q2 & q1 & q0,
            !q3 & q2 & !q1 & !q0,
            !q3 & q2 & !q1 & q0,
            !q3 & q2 & q1 & !q0,
            !q3 & q2 & q1 & q0,
            q3 & !q2 & !q1 & !q0,
        ];
        proof {
            assert forall|k: int, i: u64| 0 <= k < 9 && i < 64 implies #[trigger] bit64(buckets@[k], i) == (self.count(i) == k) by {
                lemma_buckets(q0, q1, q2, q3, i);
            }
        }
        buckets
    }
}

} // verus!
