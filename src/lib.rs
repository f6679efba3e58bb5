//! Sparse, offset-addressed collections over `usize` keys: a set of integers and a
//! map from integers to values, both backed by a buffer indexed by `key - offset`.

mod bounds;
pub mod slots;
pub mod uset;
pub mod umap;
pub mod laws;
