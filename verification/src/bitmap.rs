//! Bucket bitmaps: which of the slots of a bucket are occupied, and where the
//! item of an occupied slot sits among the bucket's stored items.
//!
//! A bucket covers `GROUP_SIZE` consecutive logical indices and its bitmap is
//! one byte. Slot `k` of a bucket is recorded in bit `GROUP_SIZE - 1 - k` of
//! its bitmap, so the slots before `k` are exactly the bits above that
//! position, and their number is the population count of
//! `bitmap >> (GROUP_SIZE - k)`.
use vstd::prelude::*;

verus! {

/// Number of logical slots held by one bucket: 8, the byte width of a 64-bit
/// `usize`, on every target.
pub const GROUP_SIZE: usize = 8;

/// Whether bit `p` of `x` is set.
pub open spec fn bit_at(x: u8, p: u8) -> bool {
    (x >> p) & 1 == 1
}

/// The bit position that records slot `k` of a bucket.
pub open spec fn slot_pos(k: int) -> u8 {
    (GROUP_SIZE - 1 - k) as u8
}

/// Whether slot `k` of the bucket with bitmap `bm` is occupied.
pub open spec fn occupied(bm: u8, k: int) -> bool {
    bit_at(bm, slot_pos(k))
}

/// Number of occupied slots of the bucket before slot `k`: the position of
/// slot `k`'s item among the bucket's stored items.
pub open spec fn rank(bm: u8, k: int) -> nat
    decreases k,
{
    if k <= 0 {
        0
    } else {
        rank(bm, k - 1) + if occupied(bm, k - 1) {
            1nat
        } else {
            0nat
        }
    }
}

/// Number of occupied slots of the bucket with bitmap `bm`.
pub open spec fn bucket_len(bm: u8) -> nat {
    rank(bm, GROUP_SIZE as int)
}

/// Number of set bits of `x`.
pub open spec fn popcount(x: u8) -> nat
    decreases x,
{
    if x == 0 {
        0
    } else {
        (x % 2) as nat + popcount(x / 2)
    }
}

proof fn lemma_shift_split(x: u8, s: u8, t: u8)
    by (bit_vector)
    requires
        s < 7,
        t == s + 1,
    ensures
        x >> s == (x >> t) * 2 + ((x >> s) & 1),
        (x >> s) & 1 == 0 || (x >> s) & 1 == 1,
{
}

proof fn lemma_top_bit(bm: u8)
    by (bit_vector)
    ensures
        bm >> 7u8 == (bm >> 7u8) & 1,
        (bm >> 7u8) & 1 == 0 || (bm >> 7u8) & 1 == 1,
        bm >> 0u8 == bm,
{
}

proof fn lemma_popcount_step(x: u8, y: u8, b: u8)
    requires
        x == y * 2 + b,
        b == 0 || b == 1,
    ensures
        popcount(x) == popcount(y) + b,
{
    if x != 0 {
        assert(x % 2 == b);
        assert(x / 2 == y);
    }
}

/// For a slot `k` past the first, the number of set bits of
/// `bm >> (GROUP_SIZE - k)` is the rank of slot `k`.
pub proof fn lemma_rank_popcount(bm: u8, k: int)
    requires
        1 <= k <= GROUP_SIZE,
    ensures
        popcount(bm >> ((GROUP_SIZE - k) as u8)) == rank(bm, k),
    decreases k,
{
    if k == 1 {
        lemma_top_bit(bm);
        lemma_popcount_step(bm >> 7u8, 0, bm >> 7u8);
        assert(popcount(0u8) == 0);
        assert(slot_pos(0) == 7);
        assert(rank(bm, 0) == 0);
    } else {
        let s = (GROUP_SIZE - k) as u8;
        let t = (GROUP_SIZE - k + 1) as u8;
        lemma_rank_popcount(bm, k - 1);
        lemma_shift_split(bm, s, t);
        lemma_popcount_step(bm >> s, bm >> t, (bm >> s) & 1);
        assert(slot_pos(k - 1) == s);
    }
}

/// The number of set bits of a bucket bitmap is its number of occupied slots.
pub proof fn lemma_bucket_len_popcount(bm: u8)
    ensures
        popcount(bm) == bucket_len(bm),
{
    lemma_rank_popcount(bm, GROUP_SIZE as int);
    lemma_top_bit(bm);
}

pub proof fn lemma_popcount_le(x: u8)
    ensures
        popcount(x) <= x,
    decreases x,
{
    if x != 0 {
        lemma_popcount_le(x / 2);
    }
}

/// Ranks grow with the slot and never by more than the slot does.
pub proof fn lemma_rank_mono(bm: u8, a: int, b: int)
    requires
        0 <= a <= b,
    ensures
        rank(bm, a) <= rank(bm, b),
        rank(bm, b) <= rank(bm, a) + (b - a),
    decreases b - a,
{
    if a < b {
        lemma_rank_mono(bm, a, b - 1);
    }
}

/// An occupied slot has a rank below that of every later slot.
pub proof fn lemma_rank_occupied_lt(bm: u8, k: int, j: int)
    requires
        0 <= k < j,
        occupied(bm, k),
    ensures
        rank(bm, k) < rank(bm, j),
{
    lemma_rank_mono(bm, k + 1, j);
}

/// The item of an occupied slot lies within the bucket's items.
pub proof fn lemma_rank_in_bucket(bm: u8, k: int)
    requires
        0 <= k < GROUP_SIZE,
        occupied(bm, k),
    ensures
        rank(bm, k) < bucket_len(bm),
{
    lemma_rank_occupied_lt(bm, k, GROUP_SIZE as int);
}

/// Two distinct occupied slots of one bucket have distinct ranks.
pub proof fn lemma_rank_injective(bm: u8, k: int, j: int)
    requires
        0 <= k < GROUP_SIZE,
        0 <= j < GROUP_SIZE,
        k != j,
        occupied(bm, k),
        occupied(bm, j),
    ensures
        rank(bm, k) != rank(bm, j),
{
    if k < j {
        lemma_rank_occupied_lt(bm, k, j);
    } else {
        lemma_rank_occupied_lt(bm, j, k);
    }
}

/// The occupied slots of a bucket map one-to-one and in slot order onto the
/// positions `0..popcount(bm)` of its items: ranks never decrease, never
/// exceed the population count, and step past every occupied slot.
pub proof fn lemma_rank_order(bm: u8, k1: int, k2: int)
    requires
        0 <= k1 < k2 < GROUP_SIZE,
    ensures
        rank(bm, k1) <= rank(bm, k2) <= popcount(bm),
        occupied(bm, k1) ==> rank(bm, k1) < rank(bm, k2),
        occupied(bm, k2) ==> rank(bm, k2) < popcount(bm),
{
    lemma_rank_mono(bm, k1, k2);
    lemma_rank_mono(bm, k2, GROUP_SIZE as int);
    lemma_bucket_len_popcount(bm);
    if occupied(bm, k1) {
        lemma_rank_occupied_lt(bm, k1, k2);
    }
    if occupied(bm, k2) {
        lemma_rank_in_bucket(bm, k2);
    }
}

pub proof fn lemma_bucket_len_bound(bm: u8)
    ensures
        bucket_len(bm) <= GROUP_SIZE,
{
    lemma_rank_mono(bm, 0, GROUP_SIZE as int);
}

proof fn lemma_or_bit(bm: u8, p: u8, q: u8)
    by (bit_vector)
    requires
        p < 8,
        q < 8,
    ensures
        ((bm | (1u8 << q)) >> p) & 1 == 1 <==> ((bm >> p) & 1 == 1 || p == q),
{
}

proof fn lemma_zero_bits(p: u8)
    by (bit_vector)
    requires
        p < 8,
    ensures
        (0u8 >> p) & 1 == 0,
{
}

/// The empty bitmap has no occupied slot.
pub proof fn lemma_empty_bitmap()
    ensures
        forall|k: int| 0 <= k < GROUP_SIZE ==> !#[trigger] occupied(0u8, k),
        bucket_len(0u8) == 0,
{
    assert forall|k: int| 0 <= k < GROUP_SIZE implies !#[trigger] occupied(0u8, k) by {
        lemma_zero_bits(slot_pos(k));
    }
    assert(rank(0u8, 8) == 0) by {
        reveal_with_fuel(rank, 9);
        lemma_zero_bits(0);
        lemma_zero_bits(1);
        lemma_zero_bits(2);
        lemma_zero_bits(3);
        lemma_zero_bits(4);
        lemma_zero_bits(5);
        lemma_zero_bits(6);
        lemma_zero_bits(7);
    }
}

/// A nonempty bitmap has an occupied slot.
pub proof fn lemma_nonzero_bitmap(bm: u8)
    requires
        bm != 0,
    ensures
        bucket_len(bm) > 0,
{
    lemma_bucket_len_popcount(bm);
    lemma_popcount_pos(bm);
}

proof fn lemma_popcount_pos(x: u8)
    requires
        x != 0,
    ensures
        popcount(x) > 0,
    decreases x,
{
    if x % 2 == 0 {
        lemma_popcount_pos(x / 2);
    }
}

/// Setting the bit of a free slot `k` occupies exactly that slot and shifts the
/// ranks of the later slots by one.
pub proof fn lemma_set_slot(bm: u8, k: int)
    requires
        0 <= k < GROUP_SIZE,
        !occupied(bm, k),
    ensures
        forall|j: int|
            0 <= j < GROUP_SIZE ==> #[trigger] occupied(bm | (1u8 << slot_pos(k)), j) == (
            occupied(bm, j) || j == k),
        forall|j: int|
            0 <= j <= GROUP_SIZE ==> #[trigger] rank(bm | (1u8 << slot_pos(k)), j) == rank(bm, j)
                + if j > k {
                1nat
            } else {
                0nat
            },
{
    let bm2 = bm | (1u8 << slot_pos(k));
    assert forall|j: int| 0 <= j < GROUP_SIZE implies #[trigger] occupied(bm2, j) == (occupied(
        bm,
        j,
    ) || j == k) by {
        lemma_or_bit(bm, slot_pos(j), slot_pos(k));
    }
    assert forall|j: int| 0 <= j <= GROUP_SIZE implies #[trigger] rank(bm2, j) == rank(bm, j)
        + if j > k {
        1nat
    } else {
        0nat
    } by {
        lemma_set_slot_rank(bm, k, j);
    }
}

proof fn lemma_set_slot_rank(bm: u8, k: int, j: int)
    requires
        0 <= k < GROUP_SIZE,
        0 <= j <= GROUP_SIZE,
        !occupied(bm, k),
    ensures
        rank(bm | (1u8 << slot_pos(k)), j) == rank(bm, j) + if j > k {
            1nat
        } else {
            0nat
        },
    decreases j,
{
    if j > 0 {
        lemma_set_slot_rank(bm, k, j - 1);
        lemma_or_bit(bm, slot_pos(j - 1), slot_pos(k));
    }
}

/// Testing against the single-bit mask of position `p` reads bit `p`.
pub proof fn lemma_mask_bit(bm: u8, p: u8)
    by (bit_vector)
    requires
        p < 8,
    ensures
        ((1u8 << p) & bm > 0) == ((bm >> p) & 1 == 1),
{
}

/// A bitmap with an occupied slot is not empty.
pub proof fn lemma_nonzero_from_occupied(bm: u8, k: int)
    requires
        0 <= k < GROUP_SIZE,
        occupied(bm, k),
    ensures
        bm != 0,
{
    if bm == 0 {
        lemma_empty_bitmap();
    }
}

/// Exact number of set bits of `x`.
pub fn count_ones(x: u8) -> (r: usize)
    ensures
        r == popcount(x),
{
    let mut y: u8 = x;
    let mut c: usize = 0;
    proof {
        lemma_popcount_le(x);
    }
    while y != 0
        invariant
            c + popcount(y) == popcount(x),
            popcount(x) <= x,
        decreases y,
    {
        proof {
            lemma_low_bit(y);
        }
        c = c + (y & 1) as usize;
        y = y >> 1u8;
    }
    c
}

proof fn lemma_low_bit(y: u8)
    by (bit_vector)
    ensures
        y & 1 == y % 2,
        y >> 1u8 == y / 2,
{
}

} // verus!
