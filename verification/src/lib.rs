//! Exact nearest-neighbor search over a fixed, immutable set of points in
//! d-dimensional Euclidean space.
//!
//! Coordinates are carried as the bit patterns of IEEE 754 double-precision
//! numbers (`u64`), so that the index structure and the query algorithms can
//! be verified while the floating-point arithmetic itself stays behind the
//! pluggable distance capability of [`metric`], implemented by the caller
//! that owns the floating-point boundary.

pub mod metric;
pub mod neighbors;

pub use neighbors::BallTree;
pub use neighbors::Error;
