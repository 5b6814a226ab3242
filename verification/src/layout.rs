//! The arrangement of buckets: how many buckets a capacity needs, which
//! logical indices their bitmaps mark, and where the items of each bucket lie
//! when all items are stored in one sequence in bucket order (packed form).
use vstd::prelude::*;
use crate::bitmap::{
    GROUP_SIZE, bucket_len, occupied, rank, slot_pos, lemma_rank_in_bucket, lemma_rank_injective,
    lemma_bucket_len_bound,
};

verus! {

/// The pointer of a bucket with no stored items.
pub const NO_ITEMS: usize = usize::MAX;

/// Number of buckets needed to cover the indices `0..n`.
pub open spec fn bucket_count(n: nat) -> nat {
    ((n + (GROUP_SIZE - 1)) / (GROUP_SIZE as int)) as nat
}

/// The bucket that holds logical index `i`.
pub open spec fn bucket_of(i: int) -> int {
    i / (GROUP_SIZE as int)
}

/// The slot of logical index `i` within its bucket.
pub open spec fn slot_of(i: int) -> int {
    i % (GROUP_SIZE as int)
}

/// No slot at or beyond the capacity `n` is occupied.
pub open spec fn bitmaps_within(n: nat, bms: Seq<u8>) -> bool {
    forall|b: int, k: int|
        0 <= b < bms.len() && 0 <= k < GROUP_SIZE && b * (GROUP_SIZE as int) + k >= n
            ==> !#[trigger] occupied(bms[b], k)
}

/// Whether logical index `i` is occupied under the bitmaps `bms` and capacity `n`.
pub open spec fn present(n: nat, bms: Seq<u8>, i: int) -> bool {
    0 <= i < n && occupied(bms[bucket_of(i)], slot_of(i))
}

/// Number of items stored for the buckets before bucket `b`.
pub open spec fn prefix(bms: Seq<u8>, b: int) -> nat
    decreases b,
{
    if b <= 0 {
        0
    } else {
        prefix(bms, b - 1) + bucket_len(bms[b - 1])
    }
}

/// Number of buckets before bucket `b` with at least one occupied slot.
pub open spec fn alloc_count(bms: Seq<u8>, b: int) -> nat
    decreases b,
{
    if b <= 0 {
        0
    } else {
        alloc_count(bms, b - 1) + if bms[b - 1] != 0 {
            1nat
        } else {
            0nat
        }
    }
}

/// The packed form: one bitmap per bucket, none of them marking a slot at or
/// beyond the capacity `n`, and an item sequence of `data_len` items that
/// holds exactly the items of all buckets, bucket after bucket.
pub open spec fn packed_layout(n: usize, bms: Seq<u8>, data_len: nat) -> bool {
    &&& bms.len() == bucket_count(n as nat)
    &&& bitmaps_within(n as nat, bms)
    &&& data_len == prefix(bms, bms.len() as int)
}

/// The map held by a packed form: each occupied index maps to the item at its
/// bucket's offset plus its rank within the bucket.
pub open spec fn packed_map<T>(n: usize, bms: Seq<u8>, data: Seq<T>) -> Map<usize, T> {
    Map::new(
        |i: usize| present(n as nat, bms, i as int),
        |i: usize|
            data[(prefix(bms, bucket_of(i as int)) + rank(
                bms[bucket_of(i as int)],
                slot_of(i as int),
            )) as int],
    )
}

pub proof fn lemma_prefix_mono(bms: Seq<u8>, a: int, b: int)
    requires
        0 <= a <= b,
    ensures
        prefix(bms, a) <= prefix(bms, b),
    decreases b - a,
{
    if a < b {
        lemma_prefix_mono(bms, a, b - 1);
    }
}

/// The item of an occupied slot of bucket `b` lies between the offsets of
/// buckets `b` and `b + 1`.
pub proof fn lemma_prefix_position(bms: Seq<u8>, b: int, k: int)
    requires
        0 <= b < bms.len(),
        0 <= k < GROUP_SIZE,
        occupied(bms[b], k),
    ensures
        prefix(bms, b) + rank(bms[b], k) < prefix(bms, b + 1),
        prefix(bms, b + 1) <= prefix(bms, bms.len() as int),
{
    lemma_rank_in_bucket(bms[b], k);
    lemma_prefix_mono(bms, b + 1, bms.len() as int);
}

/// Distinct occupied slots have distinct places in the packed item sequence.
pub proof fn lemma_packed_distinct(bms: Seq<u8>, b1: int, k1: int, b2: int, k2: int)
    requires
        0 <= b1 < bms.len(),
        0 <= b2 < bms.len(),
        0 <= k1 < GROUP_SIZE,
        0 <= k2 < GROUP_SIZE,
        occupied(bms[b1], k1),
        occupied(bms[b2], k2),
        b1 != b2 || k1 != k2,
    ensures
        prefix(bms, b1) + rank(bms[b1], k1) != prefix(bms, b2) + rank(bms[b2], k2),
{
    lemma_prefix_position(bms, b1, k1);
    lemma_prefix_position(bms, b2, k2);
    if b1 < b2 {
        lemma_prefix_mono(bms, b1 + 1, b2);
    } else if b2 < b1 {
        lemma_prefix_mono(bms, b2 + 1, b1);
    } else {
        lemma_rank_injective(bms[b1], k1, k2);
    }
}

/// The packed offsets grow by at most `GROUP_SIZE` per bucket.
pub proof fn lemma_prefix_bound(bms: Seq<u8>, b: int)
    requires
        0 <= b,
    ensures
        prefix(bms, b) <= b * GROUP_SIZE,
    decreases b,
{
    if b > 0 {
        lemma_prefix_bound(bms, b - 1);
        lemma_bucket_len_bound(bms[b - 1]);
    }
}

/// Counting allocated buckets between `a` and `b`.
pub proof fn lemma_alloc_count_range(bms: Seq<u8>, a: int, b: int)
    requires
        0 <= a <= b,
    ensures
        alloc_count(bms, a) <= alloc_count(bms, b),
        alloc_count(bms, b) <= alloc_count(bms, a) + (b - a),
    decreases b - a,
{
    if a < b {
        lemma_alloc_count_range(bms, a, b - 1);
    }
}

/// An empty bucket before `b` leaves room for one more allocated bucket.
pub proof fn lemma_alloc_count_gap(bms: Seq<u8>, x: int, b: int)
    requires
        0 <= x < b,
        bms[x] == 0,
    ensures
        alloc_count(bms, b) < b,
    decreases b,
{
    if x < b - 1 {
        lemma_alloc_count_gap(bms, x, b - 1);
    } else {
        lemma_alloc_count_range(bms, 0, b - 1);
    }
}

/// Changing the bitmap of bucket `x` without emptying it keeps the counts of
/// allocated buckets, except that filling an empty bucket adds one to every
/// count that covers `x`.
pub proof fn lemma_alloc_count_update(bms: Seq<u8>, x: int, v: u8, b: int)
    requires
        0 <= x < bms.len(),
        0 <= b <= bms.len(),
        bms[x] != 0 ==> v != 0,
    ensures
        alloc_count(bms.update(x, v), b) == alloc_count(bms, b) + if x < b && bms[x] == 0 && v
            != 0 {
            1nat
        } else {
            0nat
        },
    decreases b,
{
    if b > 0 {
        lemma_alloc_count_update(bms, x, v, b - 1);
    }
}

/// With all bitmaps empty, no bucket is allocated.
pub proof fn lemma_alloc_count_empty(bms: Seq<u8>, b: int)
    requires
        0 <= b <= bms.len(),
        forall|j: int| 0 <= j < bms.len() ==> bms[j] == 0,
    ensures
        alloc_count(bms, b) == 0,
    decreases b,
{
    if b > 0 {
        lemma_alloc_count_empty(bms, b - 1);
    }
}

/// The number of buckets for a capacity `n` is exactly the ceiling of
/// `n / GROUP_SIZE`: the buckets cover every index below `n`, and the last
/// bucket (if any) holds at least one of them, so no bucket lies wholly at or
/// beyond the capacity.
pub proof fn lemma_bucket_count_is_ceiling(n: nat)
    ensures
        bucket_count(n) * GROUP_SIZE >= n,
        n > 0 ==> (bucket_count(n) - 1) * GROUP_SIZE < n,
        n == 0 ==> bucket_count(n) == 0,
{
}

/// The bucket count covers the capacity: every index below `n` has its bucket.
pub proof fn lemma_bucket_count(n: nat, i: int)
    requires
        0 <= i < n,
    ensures
        0 <= bucket_of(i) < bucket_count(n),
        0 <= slot_of(i) < GROUP_SIZE,
        bucket_of(i) * (GROUP_SIZE as int) + slot_of(i) == i,
{
}


/// Number of occupied indices below `i`.
pub open spec fn count_present(n: nat, bms: Seq<u8>, i: int) -> nat
    decreases i,
{
    if i <= 0 {
        0
    } else {
        count_present(n, bms, i - 1) + if present(n, bms, i - 1) {
            1nat
        } else {
            0nat
        }
    }
}

proof fn lemma_count_present_bucket(n: nat, bms: Seq<u8>, b: int, k: int)
    requires
        bms.len() == bucket_count(n),
        bitmaps_within(n, bms),
        0 <= b < bms.len(),
        0 <= k <= GROUP_SIZE,
    ensures
        count_present(n, bms, b * (GROUP_SIZE as int) + k) == prefix(bms, b) + rank(bms[b], k),
    decreases b, k,
{
    if k == 0 {
        if b > 0 {
            lemma_count_present_bucket(n, bms, b - 1, GROUP_SIZE as int);
            assert((b - 1) * (GROUP_SIZE as int) + GROUP_SIZE == b * (GROUP_SIZE as int));
        }
    } else {
        let i = b * (GROUP_SIZE as int) + k - 1;
        lemma_count_present_bucket(n, bms, b, k - 1);
        assert(bucket_of(i) == b);
        assert(slot_of(i) == k - 1);
        if i >= n {
            assert(!occupied(bms[b], k - 1));
        }
    }
}

proof fn lemma_count_present_after(n: nat, bms: Seq<u8>, i: int)
    requires
        n <= i,
    ensures
        count_present(n, bms, i) == count_present(n, bms, n as int),
    decreases i - n,
{
    if i > n {
        lemma_count_present_after(n, bms, i - 1);
    }
}

/// Packed items lie in index order: in a packed form, the item of an occupied
/// index is the one after the items of all occupied indices below it, and the
/// item sequence holds exactly one item per occupied index.
pub proof fn lemma_packed_index_order<T>(n: usize, bms: Seq<u8>, data: Seq<T>, i: usize)
    requires
        packed_layout(n, bms, data.len()),
    ensures
        data.len() == count_present(n as nat, bms, n as int),
        present(n as nat, bms, i as int) ==> packed_map(n, bms, data).contains_key(i)
            && packed_map(n, bms, data)[i] == data[count_present(n as nat, bms, i as int) as int],
{
    let m = bms.len() as int;
    lemma_bucket_count_is_ceiling(n as nat);
    if m > 0 {
        lemma_count_present_bucket(n as nat, bms, m - 1, GROUP_SIZE as int);
        assert((m - 1) * (GROUP_SIZE as int) + GROUP_SIZE == m * (GROUP_SIZE as int));
        lemma_count_present_after(n as nat, bms, m * (GROUP_SIZE as int));
    }
    if present(n as nat, bms, i as int) {
        lemma_bucket_count(n as nat, i as int);
        lemma_count_present_bucket(n as nat, bms, bucket_of(i as int), slot_of(i as int));
    }
}

/// Slot `k` of a bucket is recorded in bit `7 - k` of its bitmap: slot 0 in
/// the most significant bit, slot 7 in the least.
pub proof fn lemma_slot_bit(bm: u8, k: u8)
    requires
        k < 8,
    ensures
        occupied(bm, k as int) <==> bm & (0x80u8 >> k) != 0,
{
    assert(slot_pos(k as int) == 7 - k);
    lemma_slot_bit_bv(bm, k, (7 - k) as u8);
}

proof fn lemma_slot_bit_bv(bm: u8, k: u8, p: u8)
    by (bit_vector)
    requires
        k < 8,
        p == 7 - k,
    ensures
        ((bm >> p) & 1 == 1) <==> bm & (0x80u8 >> k) != 0,
{
}

} // verus!
