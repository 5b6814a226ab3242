//! A sparse array: a map from the indices below a fixed capacity to values,
//! stored as buckets of `GROUP_SIZE` slots whose occupancy is kept in a bitmap.
pub mod bitmap;
pub mod layout;
mod sparse_array;

pub use sparse_array::SparseArray;
