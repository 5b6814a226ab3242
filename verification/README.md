# sparse_array

A sparse array: a map from the indices below a capacity fixed at construction
to values of any type, for index ranges that are large and sparsely used. The
indices are grouped into buckets of `GROUP_SIZE` slots; a bitmap per bucket
records which slots are occupied, and the bucket's items are kept in slot
order, either in a vector of the bucket's own (unpacked form, which allows
insertion) or all together in one vector (packed form, meant for storage).

The library is written in Verus and verified: every public function states
what it does to the array's contents, a `Map<usize, T>`, in its contract.

Layout:

- `src/bitmap.rs`: bucket bitmaps, slot ranks and population counts.
- `src/layout.rs`: bucket counts, the packed layout and the map it holds.
- `src/sparse_array.rs`: the `SparseArray` type, its invariant and operations,
  and the packed parts by which an array is taken apart and built again.
- `app/lib.rs`: storage with the `bitcode` crate, through a copy of the packed
  parts that carries bitcode's derives.
- `tests/`: tests of the library.
