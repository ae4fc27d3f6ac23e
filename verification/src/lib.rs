//! Fraud scoring by nearest-neighbour vote over a labelled reference set.
//!
//! A transaction is encoded as a fixed-size vector of `u16` features.  The
//! reference set holds labelled vectors; the score of a transaction is the
//! share of fraudulent labels among its five nearest reference vectors
//! (squared Euclidean distance).  This crate holds the verified parts:
//! the neighbour search, the distance computations, the on-disk encodings
//! of vectors and labels, the sampling hash, and the category tables.

use vstd::prelude::*;

pub mod codec;
pub mod distance;
pub mod features;
pub mod knn;
pub mod labels;
pub mod random_simd;
pub mod reference;
pub mod reference_simd;

pub use random_simd::RandomSIMD;
pub use reference::Reference;
pub use reference_simd::ReferenceSIMD;

verus! {

/// Number of features in a transaction vector.
pub const DIMENSIONS: usize = 14;

/// Number of vectors stored side by side in one interleaved block.
pub const LANES: usize = 16;

/// An encoded transaction: one `u16` per feature.
pub type Vector = [u16; DIMENSIONS];

} // verus!
