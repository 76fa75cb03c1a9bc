//! The distance metric capability, and the bit-level model of
//! double-precision coordinates.
//!
//! Every coordinate in this crate is the bit pattern of an IEEE 754
//! double-precision number, carried as a `u64`. A metric maps two rows of
//! bit patterns to the bit pattern of the distance between the points they
//! denote — for the Euclidean metric, a non-negative double. On the bit
//! patterns of non-negative doubles (`+0.0` up to `+inf`) the unsigned
//! integer order coincides with the floating-point order, so every
//! comparison of distances in this crate is an ordinary `u64` comparison.

use vstd::prelude::*;

verus! {

/// Bit pattern of `+inf`; every non-negative, non-NaN double is at or below
/// this value in the unsigned integer order.
pub const INF_BITS: u64 = 0x7ff0000000000000;

/// Bit pattern of `-0.0`, the one bit pattern with its sign bit set whose
/// value is not below zero.
pub const NEG_ZERO_BITS: u64 = 0x8000000000000000;

/// The bit pattern denotes a finite double: its exponent field is not
/// all ones.
pub open spec fn is_finite_bits(x: u64) -> bool {
    (x >> 52) & 0x7ff != 0x7ff
}

/// Runtime check mirroring [`is_finite_bits`].
pub fn finite_bits(x: u64) -> (r: bool)
    ensures
        r == is_finite_bits(x),
{
    (x >> 52) & 0x7ff != 0x7ff
}

/// Every entry of the row is the bit pattern of a finite double.
pub open spec fn row_finite(p: Seq<u64>) -> bool {
    forall|i: int| 0 <= i < p.len() ==> is_finite_bits(#[trigger] p[i])
}

/// All rows have the length of the first one.
pub open spec fn rows_consistent(pts: Seq<Vec<u64>>) -> bool {
    forall|i: int| 0 <= i < pts.len() ==> (#[trigger] pts[i])@.len() == pts[0]@.len()
}

/// The bit pattern is a double `r` with `r >= 0`: either a non-negative
/// non-NaN pattern (at or below `+inf`), or `-0.0`.
pub open spec fn valid_radius_bits(r: u64) -> bool {
    r <= INF_BITS || r == NEG_ZERO_BITS
}

/// A radius with the value zero is compared as `+0.0` whichever of its two
/// bit patterns was handed in.
pub open spec fn norm_radius(r: u64) -> u64 {
    if r == NEG_ZERO_BITS {
        0u64
    } else {
        r
    }
}

/// A pluggable distance metric over points given as rows of double bit
/// patterns.
///
/// The index and its queries are verified for every implementation that
/// meets this contract; the arithmetic itself (for the required Euclidean
/// metric, double-precision subtraction, multiplication, addition and
/// square root) is floating-point work that cannot stand in verified code,
/// so implementations live with the callers that own the floating-point
/// boundary. An implementation must be a pure function of the two rows:
/// `distance` returns `dist_spec` of its arguments, and `center` returns
/// a row usable as a bounding-ball center (for the Euclidean metric, the
/// coordinate-wise mean).
pub trait DistanceMetric: Sized {
    /// The value `distance` computes, as a function of the two rows. The
    /// body is hidden and carries no meaning of its own; implementations
    /// outside verified code leave it in place, and all that is relied on
    /// is that it is one fixed function of the metric and the two rows.
    closed spec fn dist_spec(&self, p: Seq<u64>, q: Seq<u64>) -> u64 {
        arbitrary()
    }

    /// The row `center` computes from a set of member rows; hidden, as
    /// `dist_spec` is.
    closed spec fn center_spec(&self, pts: Seq<Vec<u64>>) -> Seq<u64> {
        arbitrary()
    }

    /// The distance between two points of one dimension, as the bit
    /// pattern of a non-negative double.
    fn distance(&self, p: &Vec<u64>, q: &Vec<u64>) -> (r: u64)
        requires
            p@.len() == q@.len(),
        ensures
            r == self.dist_spec(p@, q@),
    ;

    /// A center for the bounding ball of a non-empty set of points of one
    /// dimension: a row of the same dimension.
    fn center(&self, pts: &Vec<Vec<u64>>) -> (r: Vec<u64>)
        requires
            pts@.len() >= 1,
            rows_consistent(pts@),
            forall|i: int| 0 <= i < pts@.len() ==> row_finite((#[trigger] pts@[i])@),
        ensures
            r@ == self.center_spec(pts@),
            r@.len() == pts@[0]@.len(),
    ;
}

/// Maps a double's bit pattern to a `u64` whose unsigned order is the
/// floating-point order over all non-NaN doubles (with `-0.0` just below
/// `+0.0`). Used only to pick split dimensions and pivots while building,
/// choices that no query answer depends on.
pub(crate) fn order_key(x: u64) -> u64 {
    if x >> 63 == 1 {
        !x
    } else {
        x ^ 0x8000000000000000
    }
}

} // verus!
