//! A Vector Symbolic Architecture (VSA) engine over balanced-ternary
//! hypervectors: fixed-length sequences of trits (values in {-1, 0, +1})
//! composed algebraically via bind, bundle, permute and distance operations.
//!
//! Three storage representations hold the same abstract trit sequence:
//! a dense vector of scalars, a bit-sliced packed vector (two bitmaps),
//! and a sparse index-to-value vector. Each operation's contract relates
//! its result to the one mathematical model, so the representations are
//! proved to agree.

pub mod model;
pub mod ops;
pub mod packed;
pub mod sparse;
pub mod trit;
pub mod vector;

pub use ops::bind;
pub use packed::PackedTritVec;
pub use sparse::SparseVec;
pub use ops::bundle;
pub use ops::hamming_distance;
pub use ops::permute;
pub use ops::unbind;
pub use trit::Trit;
pub use vector::TritVector;
