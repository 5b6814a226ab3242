use sparse_array::SparseArray;

#[test]
fn readme_example() {
    let n = 10_000;
    let mut arr: SparseArray<String> = SparseArray::with_capacity(n);

    assert!(arr.set(5, String::from("five")));
    assert!(arr.set(1234, String::from("one thousand two hundred thirty four")));
    assert!(arr.set(9999, String::from("nine thousand nine hundred ninety nine")));

    let success = arr.set(20000, String::from("should fail"));
    assert_eq!(success, false);

    assert!(arr.has(1234));
    assert!(!arr.has(2000));

    assert_eq!(arr.get(5).unwrap(), "five");
    assert_eq!(arr.get(6), None);

    arr.get_mut(5).unwrap().push_str("!");
    assert_eq!(arr.get(5).unwrap(), "five!");

    arr.pack();

    assert_eq!(arr.get(1234).unwrap(), "one thousand two hundred thirty four");
    assert_eq!(arr.set(6, String::from("six")), false);

    let s = arr.get_mut(5).unwrap();
    s.clear();
    s.push_str("5");
    assert_eq!(arr.get(5).unwrap(), "5");

    arr.unpack();

    assert_eq!(arr.set(6, String::from("six")), true);
    assert_eq!(arr.get(6).unwrap(), "six");
    assert_eq!(arr.get(9999).unwrap(), "nine thousand nine hundred ninety nine");
}

#[test]
fn new_is_with_capacity() {
    let mut arr: SparseArray<u8> = SparseArray::new(16);
    assert!(!arr.has(0));
    assert!(arr.set(15, 1));
    assert!(!arr.set(16, 1));
    assert_eq!(arr.get(15), Some(&1));
}

#[test]
fn capacity_not_a_multiple_of_the_bucket_size() {
    let mut arr: SparseArray<u8> = SparseArray::with_capacity(10);
    assert!(arr.set(9, 9));
    assert!(arr.set(8, 8));
    assert!(!arr.set(10, 10));
    assert!(!arr.set(15, 15));
    assert!(!arr.has(10));
    assert_eq!(arr.get(10), None);
    assert_eq!(arr.get(9), Some(&9));
    assert_eq!(arr.get(8), Some(&8));
}

#[test]
fn zero_capacity() {
    let mut arr: SparseArray<u8> = SparseArray::with_capacity(0);
    assert!(!arr.set(0, 1));
    assert!(!arr.has(0));
    assert_eq!(arr.get(0), None);
    assert_eq!(arr.get_mut(0), None);
    arr.pack();
    arr.unpack();
    assert!(!arr.has(0));
}

#[test]
fn out_of_range_indices() {
    let mut arr: SparseArray<u8> = SparseArray::with_capacity(8);
    assert!(!arr.set(usize::MAX, 1));
    assert!(!arr.has(usize::MAX));
    assert_eq!(arr.get(usize::MAX), None);
    assert_eq!(arr.get_mut(usize::MAX), None);
}

#[test]
fn every_slot_of_a_bucket() {
    // all slots of one bucket, filled from the back, keep their own values
    let mut arr: SparseArray<usize> = SparseArray::with_capacity(24);
    let mut i = 16;
    while i > 8 {
        i -= 1;
        assert!(arr.set(i, i * 10));
    }
    for j in 8..16 {
        assert_eq!(arr.get(j), Some(&(j * 10)));
    }
    assert!(!arr.has(7));
    assert!(!arr.has(16));
    arr.pack();
    for j in 8..16 {
        assert_eq!(arr.get(j), Some(&(j * 10)));
    }
    arr.unpack();
    assert!(arr.set(12, 0));
    assert!(arr.set(16, 160));
    for j in 8..16 {
        let expected = if j == 12 { 0 } else { j * 10 };
        assert_eq!(arr.get(j), Some(&expected));
    }
    assert_eq!(arr.get(16), Some(&160));
}

#[test]
fn set_replaces_a_value() {
    let mut arr: SparseArray<&str> = SparseArray::with_capacity(100);
    assert!(arr.set(42, "a"));
    assert!(arr.set(42, "b"));
    assert_eq!(arr.get(42), Some(&"b"));
    assert!(arr.has(42));
}

#[test]
fn packed_array_refuses_insertion_but_keeps_values() {
    let mut arr: SparseArray<u32> = SparseArray::with_capacity(100);
    assert!(arr.set(3, 30));
    assert!(arr.set(70, 700));
    arr.pack();
    assert!(!arr.set(3, 31));
    assert!(!arr.set(4, 40));
    assert_eq!(arr.get(3), Some(&30));
    assert_eq!(arr.get(4), None);
    assert_eq!(arr.get(70), Some(&700));
    *arr.get_mut(70).unwrap() = 701;
    assert_eq!(arr.get(70), Some(&701));
    assert_eq!(arr.get(3), Some(&30));
}

#[test]
fn packing_an_empty_array() {
    let mut arr: SparseArray<u32> = SparseArray::with_capacity(100);
    arr.pack();
    assert!(!arr.set(1, 1));
    arr.unpack();
    assert!(arr.set(1, 1));
    assert_eq!(arr.get(1), Some(&1));
}

#[test]
fn pack_and_unpack_twice() {
    let mut arr: SparseArray<u32> = SparseArray::with_capacity(64);
    assert!(arr.set(10, 1));
    assert!(arr.set(40, 4));
    arr.pack();
    arr.pack();
    assert_eq!(arr.get(10), Some(&1));
    assert_eq!(arr.get(40), Some(&4));
    arr.unpack();
    arr.unpack();
    assert_eq!(arr.get(10), Some(&1));
    assert_eq!(arr.get(40), Some(&4));
    assert!(arr.set(11, 2));
    assert_eq!(arr.get(11), Some(&2));
}

#[test]
fn packed_parts_lay_out_buckets_in_order() {
    let mut arr: SparseArray<char> = SparseArray::with_capacity(20);
    assert!(arr.set(17, 'c'));
    assert!(arr.set(0, 'a'));
    assert!(arr.set(7, 'b'));
    let (n, bitmaps, data) = arr.into_packed_parts();
    assert_eq!(n, 20);
    // slot k of a bucket is bit 7 - k of its bitmap
    assert_eq!(bitmaps, vec![0b1000_0001, 0, 0b0100_0000]);
    assert_eq!(data, vec!['a', 'b', 'c']);
}

#[test]
fn items_of_a_bucket_follow_slot_order() {
    // slots inserted out of order are stored in slot order
    let mut arr: SparseArray<u32> = SparseArray::with_capacity(8);
    assert!(arr.set(6, 6));
    assert!(arr.set(1, 1));
    assert!(arr.set(4, 4));
    assert!(arr.set(0, 0));
    let (_, bitmaps, data) = arr.into_packed_parts();
    assert_eq!(bitmaps, vec![0b1100_1010]);
    assert_eq!(data, vec![0, 1, 4, 6]);
}

#[test]
fn packed_parts_round_trip() {
    let mut arr: SparseArray<u64> = SparseArray::with_capacity(1000);
    for i in (0..1000).step_by(37) {
        assert!(arr.set(i, i as u64 * 3));
    }
    let (n, bitmaps, data) = arr.into_packed_parts();
    let mut back = SparseArray::from_packed_parts(n, bitmaps, data).unwrap();
    for i in 0..1000 {
        if i % 37 == 0 {
            assert_eq!(back.get(i), Some(&(i as u64 * 3)));
        } else {
            assert!(!back.has(i));
        }
    }
    assert!(!back.set(1, 1));
    back.unpack();
    assert!(back.set(1, 1));
}

#[test]
fn from_packed_parts_accepts_an_empty_array() {
    let arr = SparseArray::<u8>::from_packed_parts(9, vec![0, 0], vec![]);
    let mut arr = arr.unwrap();
    assert!(!arr.has(3));
    assert!(!arr.set(3, 3));
}

#[test]
fn from_packed_parts_rejects_wrong_bucket_count() {
    assert!(SparseArray::<u8>::from_packed_parts(9, vec![0], vec![]).is_none());
    assert!(SparseArray::<u8>::from_packed_parts(9, vec![0, 0, 0], vec![]).is_none());
    assert!(SparseArray::<u8>::from_packed_parts(8, vec![0, 0], vec![]).is_none());
}

#[test]
fn from_packed_parts_rejects_slot_beyond_capacity() {
    // capacity 9: the second bucket holds only index 8 (its slot 0, bit 7)
    assert!(SparseArray::<u8>::from_packed_parts(9, vec![0, 0b1000_0000], vec![1]).is_some());
    assert!(SparseArray::<u8>::from_packed_parts(9, vec![0, 0b0100_0000], vec![1]).is_none());
}

#[test]
fn from_packed_parts_rejects_wrong_item_count() {
    assert!(SparseArray::<u8>::from_packed_parts(8, vec![3], vec![1]).is_none());
    assert!(SparseArray::<u8>::from_packed_parts(8, vec![3], vec![1, 2, 3]).is_none());
    let mut arr = SparseArray::<u8>::from_packed_parts(8, vec![3], vec![1, 2]).unwrap();
    assert_eq!(arr.get(6), Some(&1));
    assert_eq!(arr.get(7), Some(&2));
    let mut two = SparseArray::<u8>::from_packed_parts(16, vec![1, 0x80], vec![1, 2]).unwrap();
    assert_eq!(two.get(7), Some(&1));
    assert_eq!(two.get(8), Some(&2));
}
