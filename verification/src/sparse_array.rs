//! The sparse array type.
use vstd::prelude::*;
use crate::bitmap::{
    GROUP_SIZE, bucket_len, occupied, rank, slot_pos, count_ones,
    lemma_rank_popcount, lemma_bucket_len_popcount, lemma_rank_in_bucket, lemma_rank_injective,
    lemma_empty_bitmap, lemma_nonzero_bitmap, lemma_set_slot, lemma_mask_bit,
    lemma_nonzero_from_occupied, lemma_rank_mono, lemma_rank_occupied_lt,
};
use crate::layout::{
    NO_ITEMS, bucket_count, bucket_of, slot_of, bitmaps_within, present, prefix, alloc_count,
    packed_layout, packed_map, lemma_prefix_mono, lemma_prefix_position, lemma_packed_distinct,
    lemma_prefix_bound, lemma_alloc_count_range, lemma_alloc_count_gap, lemma_alloc_count_update,
    lemma_alloc_count_empty, lemma_bucket_count,
};

verus! {

/// A map from the indices below a fixed capacity to values of type `T`.
///
/// The indices are grouped into buckets of `GROUP_SIZE` slots. For each
/// bucket, `bitmaps` records which slots are occupied and `pointers` says where
/// the bucket's items are kept, in slot order: in unpacked form, the index of
/// the bucket's own item vector in `slots`; in packed form, the offset of the
/// bucket's items in the single vector `data`. A bucket with no items points
/// at `NO_ITEMS`.
#[derive(Debug)]
pub struct SparseArray<T: Clone> {
    bitmaps: Vec<u8>,
    pointers: Vec<usize>,
    slots: Vec<Vec<T>>,
    data: Vec<T>,
    n: usize,
    packed: bool,
}

impl<T: Clone> SparseArray<T> {
    /// The number of indices the array covers, fixed at construction.
    pub closed spec fn capacity(&self) -> usize {
        self.n
    }

    /// Whether the array is in packed form, where insertion is disallowed.
    pub closed spec fn is_packed(&self) -> bool {
        self.packed
    }

    /// The unpacked form: each bucket with an occupied slot owns one vector of
    /// `slots`, of the bucket's length; no two buckets share one; there are
    /// exactly as many vectors as such buckets; and `data` is empty.
    closed spec fn unpacked_layout(&self) -> bool {
        let bms = self.bitmaps@;
        let ptrs = self.pointers@;
        &&& forall|b: int| 0 <= b < bms.len() ==> (#[trigger] bms[b] == 0 <==> ptrs[b] == NO_ITEMS)
        &&& forall|b: int|
            0 <= b < bms.len() && #[trigger] bms[b] != 0 ==> ptrs[b] < self.slots@.len()
                && self.slots@[ptrs[b] as int]@.len() == bucket_len(bms[b])
        &&& forall|b1: int, b2: int|
            0 <= b1 < bms.len() && 0 <= b2 < bms.len() && b1 != b2 && #[trigger] bms[b1] != 0
                && #[trigger] bms[b2] != 0 ==> ptrs[b1] != ptrs[b2]
        &&& self.slots@.len() == alloc_count(bms, bms.len() as int)
        &&& self.data@.len() == 0
    }

    /// The packed pointers: a bucket with an occupied slot points at the offset
    /// of its items in `data`, and an empty bucket points at `NO_ITEMS`.
    closed spec fn packed_pointers(&self) -> bool {
        let bms = self.bitmaps@;
        let ptrs = self.pointers@;
        &&& forall|b: int| 0 <= b < bms.len() ==> (#[trigger] bms[b] == 0 <==> ptrs[b] == NO_ITEMS)
        &&& forall|b: int| 0 <= b < bms.len() && #[trigger] bms[b] != 0 ==> ptrs[b] == prefix(bms, b)
    }

    /// Well-formedness: the bucket vectors cover the capacity, the bitmaps mark
    /// only indices below it, and the items are laid out as the form requires.
    pub closed spec fn wf(&self) -> bool {
        &&& self.bitmaps@.len() == bucket_count(self.n as nat)
        &&& self.pointers@.len() == self.bitmaps@.len()
        &&& bitmaps_within(self.n as nat, self.bitmaps@)
        &&& if self.packed {
            packed_layout(self.n, self.bitmaps@, self.data@.len()) && self.packed_pointers()
        } else {
            self.unpacked_layout()
        }
    }

    /// The item stored for logical index `i`.
    closed spec fn item(&self, i: int) -> T {
        let b = bucket_of(i);
        let r = rank(self.bitmaps@[b], slot_of(i));
        if self.packed {
            self.data@[self.pointers@[b] + r]
        } else {
            self.slots@[self.pointers@[b] as int]@[r as int]
        }
    }

    /// The contents: each occupied index with its value.
    pub closed spec fn contents(&self) -> Map<usize, T> {
        Map::new(
            |i: usize| present(self.n as nat, self.bitmaps@, i as int),
            |i: usize| self.item(i as int),
        )
    }
}

impl<T: Clone> View for SparseArray<T> {
    type V = Map<usize, T>;

    open spec fn view(&self) -> Map<usize, T> {
        self.contents()
    }
}

impl<T: Clone> SparseArray<T> {
    /// Every index held by the array lies below its capacity.
    pub proof fn lemma_indices_below_capacity(&self)
        requires
            self.wf(),
        ensures
            forall|i: usize| #[trigger] self@.contains_key(i) ==> i < self.capacity(),
    {
    }

    /// Identical to [`with_capacity`](SparseArray::with_capacity).
    #[must_use]
    pub fn new(n: usize) -> (r: Self)
        ensures
            r.wf(),
            r@ == Map::<usize, T>::empty(),
            r.capacity() == n,
            !r.is_packed(),
    {
        SparseArray::<T>::with_capacity(n)
    }

    /// Constructs a new empty array covering the indices `0..n`.
    ///
    /// The capacity is the range of the indices being mapped, not the number
    /// of elements expected to be stored.
    #[must_use]
    pub fn with_capacity(n: usize) -> (r: Self)
        ensures
            r.wf(),
            r@ == Map::<usize, T>::empty(),
            r.capacity() == n,
            !r.is_packed(),
    {
        let m: usize = n / GROUP_SIZE + if n % GROUP_SIZE != 0 {
            1
        } else {
            0
        };
        let bitmaps: Vec<u8> = vec![0u8; m];
        let pointers: Vec<usize> = vec![NO_ITEMS; m];
        let r = Self { bitmaps, pointers, slots: Vec::new(), data: Vec::new(), n: n, packed: false };
        proof {
            lemma_empty_bitmap();
            assert(r.bitmaps@.len() == bucket_count(n as nat));
            assert forall|b: int| 0 <= b < r.bitmaps@.len() implies #[trigger] r.bitmaps@[b] == 0 by {
                assert(cloned(0u8, r.bitmaps@[b]));
            }
            assert forall|b: int| 0 <= b < r.bitmaps@.len() implies #[trigger] r.pointers@[b]
                == NO_ITEMS by {
                assert(cloned(NO_ITEMS, r.pointers@[b]));
            }
            lemma_alloc_count_empty(r.bitmaps@, m as int);
            assert(r@ =~= Map::<usize, T>::empty());
        }
        r
    }
}

impl<T: Clone> SparseArray<T> {
    /// Whether slot `bit_ind` is marked in the bucket bitmap `bm`.
    fn is_set(bm: u8, bit_ind: usize) -> (r: bool)
        requires
            bit_ind < GROUP_SIZE,
        ensures
            r == occupied(bm, bit_ind as int),
    {
        let mask: u8 = 1u8 << ((GROUP_SIZE - 1 - bit_ind) as u8);
        proof {
            lemma_mask_bit(bm, slot_pos(bit_ind as int));
        }
        mask & bm > 0
    }

    /// Marks slot `bit_ind` of bucket `bm_ind` as occupied.
    fn set_bit(&mut self, bm_ind: usize, bit_ind: usize)
        requires
            bm_ind < old(self).bitmaps@.len(),
            bit_ind < GROUP_SIZE,
        ensures
            final(self).bitmaps@ == old(self).bitmaps@.update(
                bm_ind as int,
                old(self).bitmaps@[bm_ind as int] | (1u8 << slot_pos(bit_ind as int)),
            ),
            final(self).pointers == old(self).pointers,
            final(self).slots == old(self).slots,
            final(self).data == old(self).data,
            final(self).n == old(self).n,
            final(self).packed == old(self).packed,
    {
        let mask: u8 = 1u8 << ((GROUP_SIZE - 1 - bit_ind) as u8);
        self.bitmaps[bm_ind] = self.bitmaps[bm_ind] | mask;
    }

    /// Whether slot `bit_ind` of a bucket with bitmap `bm` is occupied.
    fn _has(bm: u8, bit_ind: usize) -> (r: bool)
        requires
            bit_ind < GROUP_SIZE,
        ensures
            r == occupied(bm, bit_ind as int),
    {
        SparseArray::<T>::is_set(bm, bit_ind)
    }

    /// Number of items stored for a bucket with bitmap `bm`.
    fn get_bucket_size(bm: u8) -> (r: usize)
        ensures
            r == bucket_len(bm),
    {
        proof {
            lemma_bucket_len_popcount(bm);
        }
        count_ones(bm)
    }

    /// Position of slot `bit_ind`'s item among the items of a bucket with bitmap
    /// `bm`: the number of occupied slots before it.
    fn get_item_ind(bm: u8, bit_ind: usize) -> (r: usize)
        requires
            bit_ind < GROUP_SIZE,
        ensures
            r == rank(bm, bit_ind as int),
    {
        if bit_ind == 0 {
            return 0;
        }
        let bits = bm >> ((GROUP_SIZE - bit_ind) as u8);
        proof {
            lemma_rank_popcount(bm, bit_ind as int);
        }
        count_ones(bits)
    }

    /// Checks if an index is occupied in the array.
    pub fn has(&self, index: usize) -> (r: bool)
        requires
            self.wf(),
        ensures
            r == self@.contains_key(index),
    {
        if index >= self.n {
            return false;
        }
        let bm_ind = index / GROUP_SIZE;
        let bit_ind = index % GROUP_SIZE;
        let bitmap = self.bitmaps[bm_ind];
        SparseArray::<T>::is_set(bitmap, bit_ind)
    }

    /// Locates the item of an occupied index: the pointer of its bucket and its
    /// position among that bucket's items.
    fn _get(&mut self, index: usize) -> (r: Option<(usize, usize)>)
        requires
            old(self).wf(),
        ensures
            *final(self) == *old(self),
            r is None <==> !old(self)@.contains_key(index),
            r matches Some((p, ii)) ==> ({
                let b = bucket_of(index as int);
                &&& p == old(self).pointers@[b]
                &&& ii == rank(old(self).bitmaps@[b], slot_of(index as int))
            }),
    {
        if index >= self.n {
            return None;
        }
        let bm_ind = index / GROUP_SIZE;
        let bit_ind = index % GROUP_SIZE;
        let bitmap = self.bitmaps[bm_ind];
        if !SparseArray::<T>::_has(bitmap, bit_ind) {
            return None;
        }
        let item_ind = SparseArray::<T>::get_item_ind(bitmap, bit_ind);
        Some((self.pointers[bm_ind], item_ind))
    }
}

impl<T: Clone> SparseArray<T> {
    /// In a well-formed array, the item of an occupied index lies within the
    /// storage that its bucket points at.
    proof fn lemma_item_in_bounds(&self, i: int)
        requires
            self.wf(),
            present(self.n as nat, self.bitmaps@, i),
        ensures
            ({
                let b = bucket_of(i);
                let r = rank(self.bitmaps@[b], slot_of(i));
                &&& 0 <= b < self.bitmaps@.len()
                &&& self.packed ==> self.pointers@[b] + r < self.data@.len()
                &&& !self.packed ==> self.pointers@[b] < self.slots@.len() && r
                    < self.slots@[self.pointers@[b] as int]@.len()
            }),
    {
        let b = bucket_of(i);
        let k = slot_of(i);
        lemma_bucket_count(self.n as nat, i);
        lemma_rank_in_bucket(self.bitmaps@[b], k);
        lemma_nonzero_from_occupied(self.bitmaps@[b], k);
        if self.packed {
            lemma_prefix_position(self.bitmaps@, b, k);
        }
    }

    /// Returns a reference to the element at `index` if it is occupied.
    ///
    /// Returns `None` if `index` is out of bounds or no value is set for it.
    pub fn get(&mut self, index: usize) -> (r: Option<&T>)
        requires
            old(self).wf(),
        ensures
            *final(self) == *old(self),
            r == if old(self)@.contains_key(index) {
                Some(&old(self)@[index])
            } else {
                None
            },
    {
        match self._get(index) {
            None => {
                return None;
            },
            Some((bucket_ptr, item_ind)) => {
                proof {
                    self.lemma_item_in_bounds(index as int);
                    assert(self.data.len() == self.data@.len());
                }
                if self.packed {
                    return Some(&self.data[bucket_ptr + item_ind]);
                }
                Some(&self.slots[bucket_ptr][item_ind])
            },
        }
    }
}

impl<T: Clone> SparseArray<T> {
    /// `a2` is `a` with the storage place of the occupied index `index`
    /// overwritten by `v`.
    closed spec fn written_at(a: Self, a2: Self, index: usize, v: T) -> bool {
        let b0 = bucket_of(index as int);
        let r0 = rank(a.bitmaps@[b0], slot_of(index as int));
        let p0 = a.pointers@[b0];
        &&& a2.bitmaps == a.bitmaps
        &&& a2.pointers == a.pointers
        &&& a2.n == a.n
        &&& a2.packed == a.packed
        &&& a.packed ==> a2.slots == a.slots && a2.data@ == a.data@.update(p0 + r0, v)
        &&& !a.packed ==> a2.data == a.data && a2.slots@ =~= a.slots@.update(
            p0 as int,
            a2.slots@[p0 as int],
        ) && a2.slots@[p0 as int]@ =~= a.slots@[p0 as int]@.update(r0 as int, v)
    }

    /// Writing `v` into the packed storage place of an occupied index sets
    /// that index to `v` and leaves the rest of the array as it was.
    proof fn lemma_write_packed(a: Self, a2: Self, index: usize, v: T)
        requires
            a.wf(),
            a.packed,
            a@.contains_key(index),
            a2.bitmaps == a.bitmaps,
            a2.pointers == a.pointers,
            a2.slots == a.slots,
            a2.n == a.n,
            a2.packed == a.packed,
            a2.data@ == a.data@.update(
                a.pointers@[bucket_of(index as int)] + rank(
                    a.bitmaps@[bucket_of(index as int)],
                    slot_of(index as int),
                ),
                v,
            ),
        ensures
            a2.wf(),
            a2@ == a@.insert(index, v),
    {
        let bms = a.bitmaps@;
        let b0 = bucket_of(index as int);
        let k0 = slot_of(index as int);
        lemma_bucket_count(a.n as nat, index as int);
        a.lemma_item_in_bounds(index as int);
        assert(a2.data@.len() == a.data@.len());
        assert forall|i: usize| #[trigger] a2@.contains_key(i) implies a2@[i] == a@.insert(
            index,
            v,
        )[i] by {
            assert(present(a.n as nat, bms, i as int));
            if i != index {
                let b = bucket_of(i as int);
                let k = slot_of(i as int);
                lemma_bucket_count(a.n as nat, i as int);
                lemma_nonzero_from_occupied(bms[b], k);
                lemma_nonzero_from_occupied(bms[b0], k0);
                lemma_packed_distinct(bms, b, k, b0, k0);
                a.lemma_item_in_bounds(i as int);
            }
        }
        assert(a2@ =~= a@.insert(index, v));
    }

    /// Writing `v` into the unpacked storage place of an occupied index sets
    /// that index to `v` and leaves the rest of the array as it was.
    proof fn lemma_write_unpacked(a: Self, a2: Self, index: usize, v: T)
        requires
            a.wf(),
            !a.packed,
            a@.contains_key(index),
            a2.bitmaps == a.bitmaps,
            a2.pointers == a.pointers,
            a2.data == a.data,
            a2.n == a.n,
            a2.packed == a.packed,
            a2.slots@ == a.slots@.update(
                a.pointers@[bucket_of(index as int)] as int,
                a2.slots@[a.pointers@[bucket_of(index as int)] as int],
            ),
            a2.slots@[a.pointers@[bucket_of(index as int)] as int]@ == a.slots@[a.pointers@[bucket_of(
                index as int,
            )] as int]@.update(
                rank(a.bitmaps@[bucket_of(index as int)], slot_of(index as int)) as int,
                v,
            ),
        ensures
            a2.wf(),
            a2@ == a@.insert(index, v),
    {
        let bms = a.bitmaps@;
        let ptrs = a.pointers@;
        let b0 = bucket_of(index as int);
        let k0 = slot_of(index as int);
        let p0 = ptrs[b0] as int;
        lemma_bucket_count(a.n as nat, index as int);
        lemma_nonzero_from_occupied(bms[b0], k0);
        a.lemma_item_in_bounds(index as int);
        assert(a2.slots@.len() == a.slots@.len());
        assert forall|b: int| 0 <= b < bms.len() && #[trigger] bms[b] != 0 implies a2.slots@[ptrs[b] as int]@.len()
            == bucket_len(bms[b]) by {
            if b != b0 {
                assert(ptrs[b] != ptrs[b0]);
            }
        }
        assert forall|i: usize| #[trigger] a2@.contains_key(i) implies a2@[i] == a@.insert(
            index,
            v,
        )[i] by {
            assert(present(a.n as nat, bms, i as int));
            if i != index {
                let b = bucket_of(i as int);
                let k = slot_of(i as int);
                lemma_bucket_count(a.n as nat, i as int);
                lemma_nonzero_from_occupied(bms[b], k);
                a.lemma_item_in_bounds(i as int);
                if b == b0 {
                    lemma_rank_injective(bms[b], k, k0);
                } else {
                    assert(ptrs[b] != ptrs[b0]);
                }
            }
        }
        assert(a2@ =~= a@.insert(index, v));
    }

    /// Returns a mutable reference to the element at `index` if it is occupied.
    ///
    /// Returns `None` if `index` is out of bounds or no value is set for it.
    pub fn get_mut(&mut self, index: usize) -> (r: Option<&mut T>)
        requires
            old(self).wf(),
        ensures
            r is None <==> !old(self)@.contains_key(index),
            r is None ==> *final(self) == *old(self),
            r matches Some(x) ==> *x == old(self)@[index],
            r matches Some(x) ==> final(self).wf(),
            r matches Some(x) ==> final(self)@ == old(self)@.insert(index, *final(x)),
            r matches Some(x) ==> final(self).capacity() == old(self).capacity(),
            r matches Some(x) ==> final(self).is_packed() == old(self).is_packed(),
    {
        match self._get(index) {
            None => {
                return None;
            },
            Some((bucket_ptr, item_ind)) => {
                proof {
                    self.lemma_item_in_bounds(index as int);
                    assert(self.data.len() == self.data@.len());
                }
                proof {
                    let a = *self;
                    assert forall|a2: Self, v: T|
                        #![trigger a2.wf(), a@.insert(index, v)]
                        #![trigger a2.contents(), a@.insert(index, v)]
                        Self::written_at(a, a2, index, v) implies a2.wf() && a2@ == a@.insert(
                            index,
                            v,
                        ) by {
                        if a.packed {
                            Self::lemma_write_packed(a, a2, index, v);
                        } else {
                            Self::lemma_write_unpacked(a, a2, index, v);
                        }
                    }
                }
                if self.packed {
                    return Some(&mut self.data[bucket_ptr + item_ind]);
                }
                let bucket_items: &mut Vec<T> = &mut self.slots[bucket_ptr];
                Some(&mut bucket_items[item_ind])
            },
        }
    }
}

impl<T: Clone> SparseArray<T> {
    /// Inserting `v` at the free index `index` of an unpacked array: the
    /// bucket's bitmap gains the slot, and the bucket's items gain `v` at the
    /// slot's rank, in a fresh vector if the bucket had none.
    proof fn lemma_insert_unpacked(a: Self, a2: Self, index: usize, v: T)
        requires
            a.wf(),
            !a.packed,
            index < a.n,
            !a@.contains_key(index),
            a2.n == a.n,
            a2.packed == a.packed,
            a2.data == a.data,
            a2.bitmaps@ == a.bitmaps@.update(
                bucket_of(index as int),
                a.bitmaps@[bucket_of(index as int)] | (1u8 << slot_pos(slot_of(index as int))),
            ),
            ({
                let b0 = bucket_of(index as int);
                let p0 = a.pointers@[b0] as int;
                let r0 = rank(a.bitmaps@[b0], slot_of(index as int)) as int;
                if a.bitmaps@[b0] == 0 {
                    &&& a2.pointers@ == a.pointers@.update(b0, a.slots@.len() as usize)
                    &&& a2.slots@.len() == a.slots@.len() + 1
                    &&& forall|j: int| 0 <= j < a.slots@.len() ==> #[trigger] a2.slots@[j] == a.slots@[j]
                    &&& a2.slots@[a.slots@.len() as int]@ == seq![v]
                } else {
                    &&& a2.pointers == a.pointers
                    &&& a2.slots@.len() == a.slots@.len()
                    &&& forall|j: int| 0 <= j < a.slots@.len() && j != p0 ==> #[trigger] a2.slots@[j] == a.slots@[j]
                    &&& a2.slots@[p0]@ == a.slots@[p0]@.insert(r0, v)
                }
            }),
        ensures
            a2.wf(),
            a2@ == a@.insert(index, v),
    {
        let bms = a.bitmaps@;
        let ptrs = a.pointers@;
        let bms2 = a2.bitmaps@;
        let ptrs2 = a2.pointers@;
        let m = bms.len() as int;
        let b0 = bucket_of(index as int);
        let k0 = slot_of(index as int);
        let bm = bms[b0];
        let bm2 = bms2[b0];
        let fresh = bm == 0;
        lemma_bucket_count(a.n as nat, index as int);
        assert(!occupied(bm, k0)) by {
            assert(!present(a.n as nat, bms, index as int));
        }
        lemma_set_slot(bm, k0);
        assert(bm2 == bm | (1u8 << slot_pos(k0)));
        lemma_nonzero_from_occupied(bm2, k0);
        lemma_rank_mono(bm, 0, GROUP_SIZE as int);
        if fresh {
            lemma_empty_bitmap();
            lemma_rank_mono(bm, k0, GROUP_SIZE as int);
            lemma_alloc_count_gap(bms, b0, m);
            assert(a.slots@.len() < m);
            assert(ptrs2[b0] as int == a.slots@.len());
        } else {
            assert(ptrs[b0] < a.slots@.len());
            lemma_rank_mono(bm, k0, GROUP_SIZE as int);
        }
        lemma_alloc_count_update(bms, b0, bm2, m);
        assert(bms.update(b0, bm2) == bms2);
        // the bitmaps stay within the capacity
        assert forall|b: int, k: int|
            0 <= b < m && 0 <= k < GROUP_SIZE && b * (GROUP_SIZE as int) + k >= a.n implies !#[trigger] occupied(
            bms2[b],
            k,
        ) by {
            if b != b0 {
                assert(!occupied(bms[b], k));
            } else {
                assert(!occupied(bms[b], k));
                assert(k != k0);
            }
        }
        assert(bitmaps_within(a.n as nat, bms2));
        // the unpacked layout is kept
        assert forall|b: int| 0 <= b < m implies (#[trigger] bms2[b] == 0 <==> ptrs2[b] == NO_ITEMS) by {
            if b != b0 {
                assert(bms[b] == 0 <==> ptrs[b] == NO_ITEMS);
            }
        }
        assert forall|b: int| 0 <= b < m && #[trigger] bms2[b] != 0 implies ptrs2[b] < a2.slots@.len()
            && a2.slots@[ptrs2[b] as int]@.len() == bucket_len(bms2[b]) by {
            if b == b0 {
                assert(rank(bm2, GROUP_SIZE as int) == rank(bm, GROUP_SIZE as int) + 1);
                if fresh {
                    assert(a2.slots@[a.slots@.len() as int]@.len() == 1);
                } else {
                    assert(a2.slots@[ptrs[b0] as int]@.len() == a.slots@[ptrs[b0] as int]@.len() + 1);
                }
            } else {
                assert(bms[b] != 0);
                if !fresh {
                    assert(ptrs[b] != ptrs[b0]);
                }
            }
        }
        assert forall|b1: int, b2: int|
            0 <= b1 < m && 0 <= b2 < m && b1 != b2 && #[trigger] bms2[b1] != 0 && #[trigger] bms2[b2]
                != 0 implies ptrs2[b1] != ptrs2[b2] by {
            if b1 != b0 && b2 != b0 {
                assert(bms[b1] != 0 && bms[b2] != 0);
            } else if b1 == b0 {
                assert(bms[b2] != 0);
            } else {
                assert(bms[b1] != 0);
            }
        }
        assert(a2.unpacked_layout());
        // the contents gain exactly `index`
        assert forall|i: usize| #[trigger] a2@.contains_key(i) == a@.insert(index, v).contains_key(i) by {
            if 0 <= i < a.n {
                lemma_bucket_count(a.n as nat, i as int);
            }
        }
        assert forall|i: usize| #[trigger] a2@.contains_key(i) implies a2@[i] == a@.insert(index, v)[i] by {
            let b = bucket_of(i as int);
            let k = slot_of(i as int);
            lemma_bucket_count(a.n as nat, i as int);
            if i == index {
                assert(rank(bm2, k0) == rank(bm, k0));
                if !fresh {
                    assert(ptrs[b0] < a.slots@.len());
                }
            } else if b != b0 {
                assert(present(a.n as nat, bms, i as int));
                lemma_nonzero_from_occupied(bms[b], k);
                if !fresh {
                    assert(ptrs[b] != ptrs[b0]);
                }
            } else {
                assert(k != k0);
                assert(occupied(bm2, k));
                assert(occupied(bm, k));
                assert(!fresh) by {
                    if fresh {
                        lemma_empty_bitmap();
                    }
                }
                assert(ptrs[b0] < a.slots@.len());
                if k < k0 {
                    lemma_rank_occupied_lt(bm, k, k0);
                } else {
                    lemma_rank_mono(bm, k0 + 1, k);
                }
                lemma_rank_in_bucket(bm, k);
            }
        }
        assert(a2@ =~= a@.insert(index, v));
    }

    /// Inserts `val` at position `ind` of a bucket's items, shifting the later
    /// items right.
    fn insert_in_arr(arr: &mut Vec<T>, ind: usize, val: T)
        requires
            ind <= old(arr)@.len(),
        ensures
            final(arr)@ == old(arr)@.insert(ind as int, val),
    {
        arr.insert(ind, val);
    }

    /// Sets the value at `index`. Cannot be used while the array is packed.
    ///
    /// Returns `true` if it succeeded, `false` if `index` is not below the
    /// capacity or the array is in packed form. Setting an occupied index
    /// replaces its value.
    pub fn set(&mut self, index: usize, value: T) -> (r: bool)
        requires
            old(self).wf(),
        ensures
            final(self).wf(),
            r == (index < old(self).capacity() && !old(self).is_packed()),
            r ==> final(self)@ == old(self)@.insert(index, value),
            !r ==> *final(self) == *old(self),
            final(self).capacity() == old(self).capacity(),
            final(self).is_packed() == old(self).is_packed(),
    {
        if index >= self.n || self.packed {
            return false;
        }
        let bm_ind = index / GROUP_SIZE;
        let bit_ind = index % GROUP_SIZE;
        let ghost a = *self;
        proof {
            lemma_bucket_count(self.n as nat, index as int);
        }
        let bitmap = self.bitmaps[bm_ind];
        let item_ind = SparseArray::<T>::get_item_ind(bitmap, bit_ind);

        // already present: no resize needed, just replace
        if SparseArray::<T>::_has(bitmap, bit_ind) {
            proof {
                self.lemma_item_in_bounds(index as int);
            }
            let p = self.pointers[bm_ind];
            let items: &mut Vec<T> = &mut self.slots[p];
            items[item_ind] = value;
            proof {
                Self::lemma_write_unpacked(a, *self, index, value);
            }
            return true;
        }
        proof {
            lemma_rank_mono(bitmap, bit_ind as int, GROUP_SIZE as int);
        }
        if self.pointers[bm_ind] == NO_ITEMS {
            // the bucket has no items yet: give it a vector of its own
            let p = self.slots.len();
            let mut arr: Vec<T> = Vec::new();
            arr.push(value);
            self.slots.push(arr);
            self.pointers[bm_ind] = p;
        } else {
            // otherwise, insert into the bucket's items
            let p = self.pointers[bm_ind];
            let items: &mut Vec<T> = &mut self.slots[p];
            SparseArray::<T>::insert_in_arr(items, item_ind, value);
        }
        self.set_bit(bm_ind, bit_ind);
        proof {
            Self::lemma_insert_unpacked(a, *self, index, value);
        }
        true
    }
}

/// `Vec::shrink_to_fit`: releases the vector's spare capacity. Its elements
/// stay as they were; nothing is claimed of the capacity left.
#[verifier::external_body]
fn shrink_to_fit<T>(v: &mut Vec<T>)
    ensures
        final(v)@ == old(v)@,
{
    v.shrink_to_fit();
}

impl<T: Clone> SparseArray<T> {
    /// Packs the items of all buckets into one vector, in bucket order, for
    /// portability: the form in which the array is taken apart by
    /// [`into_packed_parts`](SparseArray::into_packed_parts).
    ///
    /// In packed form insertions would be much more expensive, so [`set`]
    /// refuses them; [`get`] and [`get_mut`] work as before, and [`unpack`]
    /// restores insertion. Packing an array that is already packed changes
    /// nothing.
    ///
    /// [`set`]: SparseArray::set
    /// [`get`]: SparseArray::get
    /// [`get_mut`]: SparseArray::get_mut
    /// [`unpack`]: SparseArray::unpack
    pub fn pack(&mut self)
        requires
            old(self).wf(),
        ensures
            final(self).wf(),
            final(self)@ == old(self)@,
            final(self).capacity() == old(self).capacity(),
            final(self).is_packed(),
    {
        if self.packed {
            return;
        }
        let ghost a = *self;
        let ghost bms = a.bitmaps@;
        let ghost old_ptrs = a.pointers@;
        let m = self.pointers.len();
        let mut i: usize = 0;
        while i < m
            invariant
                a.wf(),
                !a.packed,
                bms == a.bitmaps@,
                old_ptrs == a.pointers@,
                self.bitmaps == a.bitmaps,
                self.n == a.n,
                !self.packed,
                m == bms.len(),
                self.pointers@.len() == m,
                self.slots@.len() == a.slots@.len(),
                0 <= i <= m,
                self.data@.len() == prefix(bms, i as int),
                forall|b: int|
                    0 <= b < i ==> (#[trigger] bms[b] == 0 ==> self.pointers@[b] == NO_ITEMS) && (
                    bms[b] != 0 ==> self.pointers@[b] == prefix(bms, b)),
                forall|b: int| i <= b < m ==> #[trigger] self.pointers@[b] == old_ptrs[b],
                forall|b: int|
                    i <= b < m && #[trigger] bms[b] != 0 ==> self.slots@[old_ptrs[b] as int]
                        == a.slots@[old_ptrs[b] as int],
                forall|b: int, r: int|
                    0 <= b < i && bms[b] != 0 && 0 <= r < bucket_len(bms[b]) ==> #[trigger] self.data@[prefix(
                        bms,
                        b,
                    ) + r] == #[trigger] a.slots@[old_ptrs[b] as int]@[r],
            decreases m - i,
        {
            let ind = self.data.len();
            if self.pointers[i] != NO_ITEMS {
                let p = self.pointers[i];
                let ghost before = self.data@;
                proof {
                    assert(bms[i as int] != 0);
                    assert(p < self.slots@.len());
                }
                let mut items: Vec<T> = Vec::new();
                std::mem::swap(&mut items, &mut self.slots[p]);
                self.data.append(&mut items);
                self.pointers[i] = ind;
                proof {
                    assert forall|b: int|
                        i < b < m && #[trigger] bms[b] != 0 implies self.slots@[old_ptrs[b] as int]
                        == a.slots@[old_ptrs[b] as int] by {
                        assert(old_ptrs[b] != old_ptrs[i as int]);
                    }
                    assert forall|b: int, r: int|
                        0 <= b <= i && bms[b] != 0 && 0 <= r < bucket_len(bms[b]) implies #[trigger] self.data@[prefix(
                            bms,
                            b,
                        ) + r] == #[trigger] a.slots@[old_ptrs[b] as int]@[r] by {
                        if b < i {
                            lemma_prefix_mono(bms, b + 1, i as int);
                            assert(self.data@[prefix(bms, b) + r] == before[prefix(bms, b) + r]);
                        }
                    }
                }
            } else {
                proof {
                    assert(bms[i as int] == 0);
                    lemma_empty_bitmap();
                }
            }
            i += 1;
        }
        self.slots = Vec::new();
        self.packed = true;
        shrink_to_fit(&mut self.data);
        proof {
            assert forall|b: int| 0 <= b < m implies (#[trigger] bms[b] == 0 <==> self.pointers@[b] == NO_ITEMS) by {
                if bms[b] != 0 {
                    lemma_prefix_bound(bms, b);
                    assert(prefix(bms, b) < NO_ITEMS) by {
                        lemma_prefix_mono(bms, b, m as int);
                        lemma_nonzero_bitmap(bms[b]);
                        assert(self.data@.len() == prefix(bms, m as int));
                        lemma_prefix_mono(bms, b + 1, m as int);
                    }
                }
            }
            assert(packed_layout(self.n, self.bitmaps@, self.data@.len()));
            assert(self.packed_pointers());
            assert forall|j: usize| #[trigger] self@.contains_key(j) implies self@[j] == a@[j] by {
                let b = bucket_of(j as int);
                let k = slot_of(j as int);
                lemma_bucket_count(a.n as nat, j as int);
                lemma_rank_in_bucket(bms[b], k);
                lemma_nonzero_from_occupied(bms[b], k);
            }
            assert(self@ =~= a@);
        }
    }
}

impl<T: Clone> SparseArray<T> {
    /// Unpacks the array into one item vector per bucket, which makes
    /// insertion efficient again. Unpacking an array that is not packed
    /// changes nothing.
    #[verifier::rlimit(40)]
    pub fn unpack(&mut self)
        requires
            old(self).wf(),
        ensures
            final(self).wf(),
            final(self)@ == old(self)@,
            final(self).capacity() == old(self).capacity(),
            !final(self).is_packed(),
    {
        if !self.packed {
            return;
        }
        let ghost a = *self;
        let ghost bms = a.bitmaps@;
        let ghost old_ptrs = a.pointers@;
        let m = self.pointers.len();
        self.slots = Vec::new();
        let mut i: usize = m;
        proof {
            lemma_alloc_count_range(bms, 0, m as int);
            assert(self.data@ =~= a.data@.subrange(0, prefix(bms, m as int) as int));
        }
        while i > 0
            invariant
                a.wf(),
                a.packed,
                bms == a.bitmaps@,
                old_ptrs == a.pointers@,
                self.bitmaps == a.bitmaps,
                self.n == a.n,
                self.packed,
                m == bms.len(),
                self.pointers@.len() == m,
                0 <= i <= m,
                prefix(bms, i as int) <= prefix(bms, m as int),
                self.data@ == a.data@.subrange(0, prefix(bms, i as int) as int),
                forall|b: int| 0 <= b < i ==> #[trigger] self.pointers@[b] == old_ptrs[b],
                forall|b: int|
                    i <= b < m ==> (#[trigger] bms[b] == 0 <==> self.pointers@[b] == NO_ITEMS),
                forall|b: int|
                    i <= b < m && #[trigger] bms[b] != 0 ==> self.pointers@[b] < self.slots@.len()
                        && self.slots@[self.pointers@[b] as int]@ == a.data@.subrange(
                        prefix(bms, b) as int,
                        prefix(bms, b + 1) as int,
                    ),
                forall|b1: int, b2: int|
                    i <= b1 < m && i <= b2 < m && b1 != b2 && #[trigger] bms[b1] != 0
                        && #[trigger] bms[b2] != 0 ==> self.pointers@[b1] != self.pointers@[b2],
                self.slots@.len() + alloc_count(bms, i as int) == alloc_count(bms, m as int),
            decreases i,
        {
            i -= 1;
            proof {
                lemma_prefix_mono(bms, i as int, i as int + 1);
                lemma_prefix_mono(bms, i as int + 1, m as int);
            }
            if self.pointers[i] != NO_ITEMS {
                let start = self.pointers[i];
                let items = self.data.split_off(start);
                let p = self.slots.len();
                proof {
                    lemma_alloc_count_range(bms, i as int + 1, m as int);
                    assert(p < m);
                }
                self.slots.push(items);
                self.pointers[i] = p;
                proof {
                    assert forall|b: int|
                        i <= b < m && #[trigger] bms[b] != 0 implies self.pointers@[b] < self.slots@.len()
                        && self.slots@[self.pointers@[b] as int]@ == a.data@.subrange(
                        prefix(bms, b) as int,
                        prefix(bms, b + 1) as int,
                    ) by {
                        if b == i {
                            assert(items@ =~= a.data@.subrange(
                                prefix(bms, b) as int,
                                prefix(bms, b + 1) as int,
                            ));
                        }
                    }
                    assert(self.data@ =~= a.data@.subrange(0, prefix(bms, i as int) as int));
                }
            } else {
                proof {
                    assert(bms[i as int] == 0);
                    lemma_empty_bitmap();
                }
            }
        }
        self.data = Vec::new();
        self.packed = false;
        proof {
            assert forall|b: int| 0 <= b < m && #[trigger] bms[b] != 0 implies self.slots@[
                self.pointers@[b] as int]@.len() == bucket_len(bms[b]) by {
                lemma_prefix_mono(bms, b + 1, m as int);
            }
            assert(self.unpacked_layout());
            assert forall|j: usize| #[trigger] self@.contains_key(j) implies self@[j] == a@[j] by {
                let b = bucket_of(j as int);
                let k = slot_of(j as int);
                lemma_bucket_count(a.n as nat, j as int);
                lemma_rank_in_bucket(bms[b], k);
                lemma_nonzero_from_occupied(bms[b], k);
                lemma_prefix_position(bms, b, k);
            }
            assert(self@ =~= a@);
        }
    }
}

impl<T: Clone> SparseArray<T> {
    /// Whether no slot of the bucket with bitmap `bm`, whose first index is
    /// `base`, is occupied at or beyond the capacity `n`.
    fn tail_clear(bm: u8, base: usize, n: usize) -> (r: bool)
        requires
            base <= n,
        ensures
            r == (forall|k: int| 0 <= k < GROUP_SIZE && base + k >= n ==> !#[trigger] occupied(bm, k)),
    {
        let mut k: usize = 0;
        while k < GROUP_SIZE
            invariant
                base <= n,
                0 <= k <= GROUP_SIZE,
                forall|j: int| 0 <= j < k && base + j >= n ==> !#[trigger] occupied(bm, j),
            decreases GROUP_SIZE - k,
        {
            if k >= n - base && SparseArray::<T>::is_set(bm, k) {
                return false;
            }
            k += 1;
        }
        true
    }

    /// A packed array holds exactly the map of its packed parts.
    proof fn lemma_packed_view(&self)
        requires
            self.wf(),
            self.packed,
        ensures
            self@ == packed_map(self.n, self.bitmaps@, self.data@),
    {
        assert forall|i: usize| #[trigger] self@.contains_key(i) implies self@[i] == packed_map(
            self.n,
            self.bitmaps@,
            self.data@,
        )[i] by {
            let b = bucket_of(i as int);
            let k = slot_of(i as int);
            lemma_bucket_count(self.n as nat, i as int);
            lemma_nonzero_from_occupied(self.bitmaps@[b], k);
        }
        assert(self@ =~= packed_map(self.n, self.bitmaps@, self.data@));
    }

    /// Takes the array apart into its packed parts: the capacity, the bucket
    /// bitmaps and the items of all buckets in bucket order, packing it first
    /// if needed. The parts are plain values, meant for encoding and storage;
    /// they hold the array's whole contents and build it again through
    /// [`from_packed_parts`](SparseArray::from_packed_parts).
    pub fn into_packed_parts(self) -> (r: (usize, Vec<u8>, Vec<T>))
        requires
            self.wf(),
        ensures
            r.0 == self.capacity(),
            packed_layout(r.0, r.1@, r.2@.len()),
            packed_map(r.0, r.1@, r.2@) == self@,
    {
        let mut arr = self;
        arr.pack();
        proof {
            arr.lemma_packed_view();
        }
        (arr.n, arr.bitmaps, arr.data)
    }

    /// Builds a packed array from packed parts (the capacity `n`, the bucket
    /// bitmaps and the items of all buckets in bucket order), such as
    /// [`into_packed_parts`](SparseArray::into_packed_parts) gives.
    ///
    /// Returns `None` exactly when the parts do not form a packed array: the
    /// bitmaps do not cover `n` bucket by bucket, a bitmap marks a slot at or
    /// beyond `n`, or `data` does not hold exactly as many items as the
    /// bitmaps mark.
    pub fn from_packed_parts(n: usize, bitmaps: Vec<u8>, data: Vec<T>) -> (r: Option<Self>)
        ensures
            r is Some <==> packed_layout(n, bitmaps@, data@.len()),
            r matches Some(a) ==> {
                &&& a.wf()
                &&& a@ == packed_map(n, bitmaps@, data@)
                &&& a.capacity() == n
                &&& a.is_packed()
            },
    {
        let m: usize = n / GROUP_SIZE + if n % GROUP_SIZE != 0 {
            1
        } else {
            0
        };
        if bitmaps.len() != m {
            return None;
        }
        let ghost bms = bitmaps@;
        let mut pointers: Vec<usize> = Vec::new();
        let mut total: usize = 0;
        let mut b: usize = 0;
        while b < m
            invariant
                m == bucket_count(n as nat),
                bms == bitmaps@,
                bms.len() == m,
                pointers@.len() == b,
                0 <= b <= m,
                total == prefix(bms, b as int),
                forall|j: int, k: int|
                    0 <= j < b && 0 <= k < GROUP_SIZE && j * (GROUP_SIZE as int) + k >= n
                        ==> !#[trigger] occupied(bms[j], k),
                forall|j: int| 0 <= j < b ==> (#[trigger] bms[j] == 0 <==> pointers@[j] == NO_ITEMS),
                forall|j: int| 0 <= j < b && #[trigger] bms[j] != 0 ==> pointers@[j] == prefix(bms, j),
            decreases m - b,
        {
            let bm = bitmaps[b];
            if b + 1 == m {
                // only the last bucket reaches the capacity
                if !SparseArray::<T>::tail_clear(bm, b * GROUP_SIZE, n) {
                    proof {
                        let k = choose|k: int|
                            0 <= k < GROUP_SIZE && b * GROUP_SIZE + k >= n && #[trigger] occupied(bm, k);
                        assert(occupied(bms[b as int], k));
                    }
                    return None;
                }
            }
            let len = SparseArray::<T>::get_bucket_size(bm);
            if total > usize::MAX - len {
                // the items of the buckets so far could not even be counted
                proof {
                    lemma_prefix_mono(bms, b as int + 1, m as int);
                    assert(data.len() == data@.len());
                }
                return None;
            }
            if bm == 0 {
                pointers.push(NO_ITEMS);
            } else {
                proof {
                    lemma_nonzero_bitmap(bm);
                }
                pointers.push(total);
            }
            total = total + len;
            b += 1;
        }
        if total != data.len() {
            return None;
        }
        let r = Self { bitmaps, pointers, slots: Vec::new(), data, n, packed: true };
        proof {
            r.lemma_packed_view();
        }
        Some(r)
    }
}

} // verus!
