//! The ball tree: construction over an immutable point set, and the three
//! exact query algorithms (nearest, k-nearest, radius).
//!
//! The tree is a flat arena of nodes addressed by index; children come
//! before their parent, so the root is the last node. Every node covers a
//! contiguous range of positions of the permutation `idx`, and carries a
//! bounding ball: a center and a radius at or above the distance from that
//! center to every point of the range. Queries never depend for their
//! correctness on which split was chosen while building: their contracts
//! state the brute-force answer over all points, and their proofs rest on
//! `idx` being a permutation.
//!
//! Skipping a subtree on the strength of the bound
//! `max(0, distance(q, center) - radius)` would rest on floating-point
//! subtraction, which is outside the verified model; the queries therefore
//! visit every candidate, and the bounding-ball invariant is stated and
//! established as the structural invariant of the tree.

use vstd::prelude::*;

use crate::metric::finite_bits;
use crate::metric::is_finite_bits;
use crate::metric::norm_radius;
use crate::metric::order_key;
use crate::metric::row_finite;
use crate::metric::rows_consistent;
use crate::metric::valid_radius_bits;
use crate::metric::DistanceMetric;
use crate::metric::INF_BITS;
use crate::metric::NEG_ZERO_BITS;

verus! {

/// Largest number of points a leaf node may hold.
pub const LEAF_CAPACITY: usize = 1;

/// The failures of construction and of the queries. The first three are the
/// validation errors of construction; the last two are the query argument
/// errors.
#[derive(Clone, Copy, Debug, PartialEq, Eq, Structural)]
pub enum Error {
    /// Construction was given no points at all.
    EmptyInput,
    /// Construction was given rows of differing lengths.
    InconsistentRows,
    /// A coordinate is not the bit pattern of a finite double.
    NonFiniteCoordinate,
    /// A query point whose length differs from the tree dimension.
    DimensionMismatch,
    /// `k` out of `1..=n`, or a radius below zero or NaN.
    InvalidArgument,
}

/// A valid input to construction: at least one point, all rows of one
/// length, every coordinate the bit pattern of a finite double.
pub open spec fn valid_point_set(pts: Seq<Vec<u64>>) -> bool {
    &&& pts.len() >= 1
    &&& rows_consistent(pts)
    &&& forall|i: int| 0 <= i < pts.len() ==> row_finite((#[trigger] pts[i])@)
}

/// The error construction reports for an invalid input, checked in this
/// order: emptiness, then row lengths, then finiteness.
pub open spec fn construction_error(pts: Seq<Vec<u64>>) -> Error {
    if pts.len() == 0 {
        Error::EmptyInput
    } else if !rows_consistent(pts) {
        Error::InconsistentRows
    } else {
        Error::NonFiniteCoordinate
    }
}

/// Candidate `(i1, d1)` strictly precedes `(i2, d2)`: smaller distance, or
/// equal distance and smaller original index.
pub open spec fn cand_lt(i1: int, d1: u64, i2: int, d2: u64) -> bool {
    d1 < d2 || (d1 == d2 && i1 < i2)
}

/// Candidate `(i1, d1)` precedes or equals `(i2, d2)` in the same order.
pub open spec fn cand_le(i1: int, d1: u64, i2: int, d2: u64) -> bool {
    cand_lt(i1, d1, i2, d2) || (i1 == i2 && d1 == d2)
}

/// `i` occurs among the listed indices.
pub open spec fn in_list(is: Seq<usize>, i: int) -> bool {
    exists|m: int| 0 <= m < is.len() && is[m] == i
}

/// `(i, d)` is the brute-force nearest neighbor of `q` among `pts` under
/// the metric `m`: a real point with its distance, preceding every point of
/// the set in the (distance, index) order — the global minimum with ties
/// resolved to the smallest index.
pub open spec fn is_nearest<M: DistanceMetric>(
    m: M,
    pts: Seq<Vec<u64>>,
    q: Seq<u64>,
    i: int,
    d: u64,
) -> bool {
    &&& 0 <= i < pts.len()
    &&& d == m.dist_spec(q, pts[i]@)
    &&& forall|j: int| 0 <= j < pts.len() ==> cand_le(i, d, j, m.dist_spec(q, (#[trigger] pts[j])@))
}

/// `(is, ds)` are exactly the `k` brute-force nearest neighbors of `q`
/// among `pts` under the metric `m`, ascending by distance with ties broken
/// by ascending index: `k` distinct real points with their distances,
/// sorted strictly in the (distance, index) order, and every point left out
/// is beyond the last one kept.
pub open spec fn is_knn<M: DistanceMetric>(
    m: M,
    pts: Seq<Vec<u64>>,
    q: Seq<u64>,
    k: int,
    is: Seq<usize>,
    ds: Seq<u64>,
) -> bool {
    &&& 1 <= k <= pts.len()
    &&& is.len() == k
    &&& ds.len() == k
    &&& forall|t: int| 0 <= t < k ==> (#[trigger] is[t]) < pts.len() && ds[t] == m.dist_spec(q, pts[is[t] as int]@)
    &&& forall|t1: int, t2: int|
        0 <= t1 < t2 < k ==> cand_lt(#[trigger] is[t1] as int, ds[t1], #[trigger] is[t2] as int, ds[t2])
    &&& forall|i: int|
        0 <= i < pts.len() && !in_list(is, i) ==> cand_lt(
            is[k - 1] as int,
            ds[k - 1],
            i,
            m.dist_spec(q, (#[trigger] pts[i])@),
        )
}

/// `out` is exactly the set of indices of points of `pts` within `rad` of
/// `q` under the metric `m`, in ascending index order: strictly ascending,
/// no extras, no omissions.
pub open spec fn is_radius_result<M: DistanceMetric>(
    m: M,
    pts: Seq<Vec<u64>>,
    q: Seq<u64>,
    rad: u64,
    out: Seq<usize>,
) -> bool {
    &&& forall|t1: int, t2: int| 0 <= t1 < t2 < out.len() ==> (#[trigger] out[t1]) < (#[trigger] out[t2])
    &&& forall|t: int|
        0 <= t < out.len() ==> (#[trigger] out[t]) < pts.len() && m.dist_spec(q, pts[out[t] as int]@) <= rad
    &&& forall|i: int| 0 <= i < pts.len() && m.dist_spec(q, (#[trigger] pts[i])@) <= rad ==> in_list(out, i)
}

/// `(i, d)` occurs among the buffer's entries.
spec fn in_pairs(b: Seq<(usize, u64)>, i: int, d: u64) -> bool {
    exists|m: int| 0 <= m < b.len() && (#[trigger] b[m]).0 == i && b[m].1 == d
}

/// The buffer is strictly sorted in the (distance, index) order.
spec fn buf_sorted(b: Seq<(usize, u64)>) -> bool {
    forall|t1: int, t2: int|
        0 <= t1 < t2 < b.len() ==> cand_lt(
            (#[trigger] b[t1]).0 as int,
            b[t1].1,
            (#[trigger] b[t2]).0 as int,
            b[t2].1,
        )
}

/// The candidate `(i, d)` is accounted for by a bounded best-`k` buffer:
/// either it is in the buffer, or the buffer is full and already holds `k`
/// candidates that all precede it.
spec fn accounted(b: Seq<(usize, u64)>, k: int, i: int, d: u64) -> bool {
    in_pairs(b, i, d) || (b.len() == k && cand_lt(b[k - 1].0 as int, b[k - 1].1, i, d))
}

/// Repeated identical nearest queries against one index are bit-identical:
/// the nearest-neighbor specification pins down exactly one answer, so any
/// two results for the same metric, point set and query point are equal.
pub proof fn lemma_nearest_unique<M: DistanceMetric>(
    m: M,
    pts: Seq<Vec<u64>>,
    q: Seq<u64>,
    i1: int,
    d1: u64,
    i2: int,
    d2: u64,
)
    requires
        is_nearest(m, pts, q, i1, d1),
        is_nearest(m, pts, q, i2, d2),
    ensures
        i1 == i2,
        d1 == d2,
{
    assert(cand_le(i1, d1, i2, d2));
    assert(cand_le(i2, d2, i1, d1));
}

/// Two strictly ascending index lists with the same members are equal.
proof fn lemma_ascending_same_members(a: Seq<usize>, b: Seq<usize>)
    requires
        forall|t1: int, t2: int| 0 <= t1 < t2 < a.len() ==> (#[trigger] a[t1]) < (#[trigger] a[t2]),
        forall|t1: int, t2: int| 0 <= t1 < t2 < b.len() ==> (#[trigger] b[t1]) < (#[trigger] b[t2]),
        forall|i: int| in_list(a, i) <==> in_list(b, i),
    ensures
        a == b,
    decreases a.len(),
{
    if a.len() == 0 {
        if b.len() > 0 {
            assert(in_list(b, b[0] as int)) by {
                assert(b[0] == b[0]);
            }
            assert(in_list(a, b[0] as int));
            let t = choose|t: int| 0 <= t < a.len() && a[t] == b[0] as int;
            assert(false);
        }
        assert(a =~= b);
    } else {
        assert(in_list(a, a[0] as int)) by {
            assert(a[0] == a[0]);
        }
        assert(in_list(b, a[0] as int));
        let mb = choose|t: int| 0 <= t < b.len() && b[t] == a[0];
        assert(in_list(b, b[0] as int)) by {
            assert(b[0] == b[0]);
        }
        assert(in_list(a, b[0] as int));
        let ma = choose|t: int| 0 <= t < a.len() && a[t] == b[0];
        assert(b[0] <= b[mb]);
        assert(a[0] <= a[ma]);
        assert(a[0] == b[0]);
        let a1 = a.subrange(1, a.len() as int);
        let b1 = b.subrange(1, b.len() as int);
        assert forall|i: int| in_list(a1, i) implies in_list(b1, i) by {
            let t = choose|t: int| 0 <= t < a1.len() && a1[t] == i;
            assert(a[t + 1] == i);
            assert(in_list(a, i));
            assert(in_list(b, i));
            let u = choose|u: int| 0 <= u < b.len() && b[u] == i;
            assert(a[0] < a[t + 1]);
            if u == 0 {
                assert(false);
            }
            assert(b1[u - 1] == i);
        }
        assert forall|i: int| in_list(b1, i) implies in_list(a1, i) by {
            let t = choose|t: int| 0 <= t < b1.len() && b1[t] == i;
            assert(b[t + 1] == i);
            assert(in_list(b, i));
            assert(in_list(a, i));
            let u = choose|u: int| 0 <= u < a.len() && a[u] == i;
            assert(b[0] < b[t + 1]);
            if u == 0 {
                assert(false);
            }
            assert(a1[u - 1] == i);
        }
        lemma_ascending_same_members(a1, b1);
        assert(a.len() == b.len());
        assert forall|t: int| 0 <= t < a.len() implies a[t] == b[t] by {
            if t > 0 {
                assert(a1[t - 1] == a[t]);
                assert(b1[t - 1] == b[t]);
            }
        }
        assert(a =~= b);
    }
}

/// Repeated identical radius queries against one index are bit-identical:
/// the radius specification pins down exactly one ascending index list, so
/// any two results for the same metric, point set, query point and radius
/// are equal.
pub proof fn lemma_radius_result_unique<M: DistanceMetric>(
    m: M,
    pts: Seq<Vec<u64>>,
    q: Seq<u64>,
    rad: u64,
    out1: Seq<usize>,
    out2: Seq<usize>,
)
    requires
        is_radius_result(m, pts, q, rad, out1),
        is_radius_result(m, pts, q, rad, out2),
    ensures
        out1 == out2,
{
    assert forall|i: int| in_list(out1, i) implies in_list(out2, i) by {
        let t = choose|t: int| 0 <= t < out1.len() && out1[t] == i;
        assert(out1[t] < pts.len() && m.dist_spec(q, pts[out1[t] as int]@) <= rad);
    }
    assert forall|i: int| in_list(out2, i) implies in_list(out1, i) by {
        let t = choose|t: int| 0 <= t < out2.len() && out2[t] == i;
        assert(out2[t] < pts.len() && m.dist_spec(q, pts[out2[t] as int]@) <= rad);
    }
    lemma_ascending_same_members(out1, out2);
}

/// With the first `t` entries of two best-`k` lists equal, the entry of
/// the first list at position `t` is a member of the second list.
proof fn lemma_knn_member<M: DistanceMetric>(
    m: M,
    pts: Seq<Vec<u64>>,
    q: Seq<u64>,
    k: int,
    is1: Seq<usize>,
    ds1: Seq<u64>,
    is2: Seq<usize>,
    ds2: Seq<u64>,
    t: int,
)
    requires
        is_knn(m, pts, q, k, is1, ds1),
        is_knn(m, pts, q, k, is2, ds2),
        0 <= t < k,
        forall|u: int| 0 <= u < t ==> is1[u] == is2[u] && ds1[u] == ds2[u],
    ensures
        in_list(is2, is1[t] as int),
{
    if !in_list(is2, is1[t] as int) {
        assert(ds1[t] == m.dist_spec(q, pts[is1[t] as int]@));
        assert(cand_lt(
            is2[k - 1] as int,
            ds2[k - 1],
            is1[t] as int,
            m.dist_spec(q, pts[is1[t] as int]@),
        ));
        if t < k - 1 {
            assert(cand_lt(is1[t] as int, ds1[t], is1[k - 1] as int, ds1[k - 1]));
        }
        // so the last entry of the second list strictly precedes the last
        // of the first; yet it must be in the first list, or beyond its
        // last entry — both impossible
        if !in_list(is1, is2[k - 1] as int) {
            assert(cand_lt(
                is1[k - 1] as int,
                ds1[k - 1],
                is2[k - 1] as int,
                m.dist_spec(q, pts[is2[k - 1] as int]@),
            ));
            assert(ds2[k - 1] == m.dist_spec(q, pts[is2[k - 1] as int]@));
            assert(false);
        } else {
            let u = choose|u: int| 0 <= u < is1.len() && is1[u] == is2[k - 1];
            assert(ds1[u] == m.dist_spec(q, pts[is1[u] as int]@));
            assert(ds1[u] == ds2[k - 1]);
            if u > t {
                assert(cand_lt(is1[t] as int, ds1[t], is1[u] as int, ds1[u]));
                assert(false);
            }
            if u == t {
                assert(false);
            }
            assert(is2[u] == is1[u]);
            assert(cand_lt(is2[u] as int, ds2[u], is2[k - 1] as int, ds2[k - 1]));
            assert(ds2[u] == m.dist_spec(q, pts[is2[u] as int]@));
            assert(false);
        }
    }
}

/// With the first `t` entries of two best-`k` lists equal, all their
/// entries are equal.
proof fn lemma_knn_prefix<M: DistanceMetric>(
    m: M,
    pts: Seq<Vec<u64>>,
    q: Seq<u64>,
    k: int,
    is1: Seq<usize>,
    ds1: Seq<u64>,
    is2: Seq<usize>,
    ds2: Seq<u64>,
    t: int,
)
    requires
        is_knn(m, pts, q, k, is1, ds1),
        is_knn(m, pts, q, k, is2, ds2),
        0 <= t <= k,
        forall|u: int| 0 <= u < t ==> is1[u] == is2[u] && ds1[u] == ds2[u],
    ensures
        forall|u: int| 0 <= u < k ==> is1[u] == is2[u] && ds1[u] == ds2[u],
    decreases k - t,
{
    if t < k {
        lemma_knn_member(m, pts, q, k, is1, ds1, is2, ds2, t);
        lemma_knn_member(m, pts, q, k, is2, ds2, is1, ds1, t);
        let v = choose|v: int| 0 <= v < is2.len() && is2[v] == is1[t];
        assert(ds2[v] == m.dist_spec(q, pts[is2[v] as int]@));
        assert(ds1[t] == m.dist_spec(q, pts[is1[t] as int]@));
        assert(ds2[v] == ds1[t]);
        if v < t {
            assert(is1[v] == is2[v]);
            assert(ds1[v] == m.dist_spec(q, pts[is1[v] as int]@));
            assert(cand_lt(is1[v] as int, ds1[v], is1[t] as int, ds1[t]));
            assert(false);
        }
        if v > t {
            assert(cand_lt(is2[t] as int, ds2[t], is2[v] as int, ds2[v]));
        }
        let w = choose|w: int| 0 <= w < is1.len() && is1[w] == is2[t];
        assert(ds1[w] == m.dist_spec(q, pts[is1[w] as int]@));
        assert(ds2[t] == m.dist_spec(q, pts[is2[t] as int]@));
        assert(ds1[w] == ds2[t]);
        if w < t {
            assert(is1[w] == is2[w]);
            assert(ds2[w] == m.dist_spec(q, pts[is2[w] as int]@));
            assert(cand_lt(is2[w] as int, ds2[w], is2[t] as int, ds2[t]));
            assert(false);
        }
        if w > t {
            assert(cand_lt(is1[t] as int, ds1[t], is1[w] as int, ds1[w]));
        }
        assert(is1[t] == is2[t] && ds1[t] == ds2[t]);
        lemma_knn_prefix(m, pts, q, k, is1, ds1, is2, ds2, t + 1);
    }
}

/// Repeated identical k-nearest queries against one index are
/// bit-identical: the best-`k` specification pins down exactly one sorted
/// list of index/distance pairs, so any two results for the same metric,
/// point set, query point and `k` are equal.
pub proof fn lemma_knn_unique<M: DistanceMetric>(
    m: M,
    pts: Seq<Vec<u64>>,
    q: Seq<u64>,
    k: int,
    is1: Seq<usize>,
    ds1: Seq<u64>,
    is2: Seq<usize>,
    ds2: Seq<u64>,
)
    requires
        is_knn(m, pts, q, k, is1, ds1),
        is_knn(m, pts, q, k, is2, ds2),
    ensures
        is1 == is2,
        ds1 == ds2,
{
    lemma_knn_prefix(m, pts, q, k, is1, ds1, is2, ds2, 0);
    assert(is1 =~= is2);
    assert(ds1 =~= ds2);
}

/// `i` occurs among the first `idx.len()` positions of `idx`.
pub open spec fn covers(idx: Seq<usize>, i: int) -> bool {
    exists|j: int| 0 <= j < idx.len() && idx[j] == i
}

/// `idx` is a permutation of `0 .. n`: of length `n`, within bounds,
/// without repetition, and reaching every index.
pub open spec fn perm_of(idx: Seq<usize>, n: int) -> bool {
    &&& idx.len() == n
    &&& forall|j: int| 0 <= j < idx.len() ==> (#[trigger] idx[j]) < n
    &&& forall|j1: int, j2: int| #![trigger idx[j1], idx[j2]] 0 <= j1 < j2 < idx.len() ==> idx[j1] != idx[j2]
    &&& forall|i: int| 0 <= i < n ==> #[trigger] covers(idx, i)
}

/// A well-formed point set of dimension `dim`: non-empty, every row of
/// length `dim`, every coordinate finite.
pub open spec fn pts_wf(pts: Seq<Vec<u64>>, dim: int) -> bool {
    &&& pts.len() >= 1
    &&& forall|i: int| 0 <= i < pts.len() ==> (#[trigger] pts[i])@.len() == dim
    &&& forall|i: int| 0 <= i < pts.len() ==> row_finite((#[trigger] pts[i])@)
}

/// One node of the arena: a bounding ball over the contiguous range
/// `start .. end` of the permutation, and either no children (a leaf) or
/// the arena indices of its two children.
struct Node {
    center: Vec<u64>,
    radius: u64,
    start: usize,
    end: usize,
    children: Option<(usize, usize)>,
}

/// Well-formedness of the node at arena index `k`: a non-empty range within
/// the permutation; a center of the tree dimension; the bounding-ball
/// invariant, that every point of the range lies within `radius` of
/// `center`; and either a leaf within capacity, or two earlier nodes whose
/// ranges split this one.
spec fn node_wf<M: DistanceMetric>(
    m: M,
    pts: Seq<Vec<u64>>,
    idx: Seq<usize>,
    nodes: Seq<Node>,
    k: int,
) -> bool {
    let nd = nodes[k];
    &&& 0 <= k < nodes.len()
    &&& nd.start < nd.end
    &&& nd.end <= idx.len()
    &&& nd.center@.len() == pts[0]@.len()
    &&& forall|j: int|
        nd.start <= j < nd.end ==> m.dist_spec(nd.center@, pts[#[trigger] idx[j] as int]@) <= nd.radius
    &&& match nd.children {
        None => nd.end - nd.start <= LEAF_CAPACITY,
        Some((l, r)) => {
            &&& 0 <= l < k
            &&& 0 <= r < k
            &&& nodes[l as int].start == nd.start
            &&& nodes[l as int].end == nodes[r as int].start
            &&& nodes[r as int].end == nd.end
        },
    }
}

/// Every node of the arena is well-formed.
spec fn nodes_wf_all<M: DistanceMetric>(
    m: M,
    pts: Seq<Vec<u64>>,
    idx: Seq<usize>,
    nodes: Seq<Node>,
) -> bool {
    forall|k: int| 0 <= k < nodes.len() ==> #[trigger] node_wf(m, pts, idx, nodes, k)
}

/// Every node's range lies outside `s .. e`.
spec fn ranges_outside(nodes: Seq<Node>, s: int, e: int) -> bool {
    forall|k: int| 0 <= k < nodes.len() ==> (#[trigger] nodes[k]).end <= s || nodes[k].start >= e
}

/// Swapping two positions of a permutation of `0 .. n` leaves a permutation
/// of `0 .. n`.
proof fn lemma_swap_perm(s1: Seq<usize>, s2: Seq<usize>, n: int, a: int, b: int)
    requires
        perm_of(s1, n),
        0 <= a < s1.len(),
        0 <= b < s1.len(),
        s2 == s1.update(a, s1[b]).update(b, s1[a]),
    ensures
        perm_of(s2, n),
{
    assert(s2.len() == n);
    assert forall|i: int| 0 <= i < n implies #[trigger] covers(s2, i) by {
        assert(covers(s1, i));
        let j = choose|j: int| 0 <= j < s1.len() && s1[j] == i;
        assert(0 <= j < s1.len() && s1[j] == i);
        if j == a {
            assert(s2[b] == i);
        } else if j == b {
            assert(s2[a] == i);
        } else {
            assert(s2[j] == i);
        }
    }
}

/// The well-formedness of existing nodes is kept when the permutation
/// changes only inside `s .. e`, a range that every existing node's range
/// avoids, and the arena only grows.
proof fn lemma_nodes_wf_stable<M: DistanceMetric>(
    m: M,
    pts: Seq<Vec<u64>>,
    idx1: Seq<usize>,
    idx2: Seq<usize>,
    nodes1: Seq<Node>,
    nodes2: Seq<Node>,
    s: int,
    e: int,
)
    requires
        idx1.len() == idx2.len(),
        forall|j: int| 0 <= j < idx1.len() && !(s <= j < e) ==> #[trigger] idx2[j] == idx1[j],
        nodes2.len() >= nodes1.len(),
        forall|k: int| 0 <= k < nodes1.len() ==> #[trigger] nodes2[k] == nodes1[k],
        nodes_wf_all(m, pts, idx1, nodes1),
        ranges_outside(nodes1, s, e),
    ensures
        forall|k: int| 0 <= k < nodes1.len() ==> #[trigger] node_wf(m, pts, idx2, nodes2, k),
{
    assert forall|k: int| 0 <= k < nodes1.len() implies #[trigger] node_wf(m, pts, idx2, nodes2, k) by {
        assert(node_wf(m, pts, idx1, nodes1, k));
        let nd = nodes1[k];
        assert forall|j: int|
            nd.start <= j < nd.end implies m.dist_spec(nd.center@, pts[#[trigger] idx2[j] as int]@)
            <= nd.radius by {
            assert(idx2[j] == idx1[j]);
            assert(m.dist_spec(nd.center@, pts[idx1[j] as int]@) <= nd.radius);
        }
        match nd.children {
            None => {},
            Some((l, r)) => {
                assert(nodes2[l as int] == nodes1[l as int]);
                assert(nodes2[r as int] == nodes1[r as int]);
            },
        }
    }
}

/// Swaps two entries of the permutation.
fn swap_idx(idx: &mut Vec<usize>, a: usize, b: usize)
    requires
        a < old(idx)@.len(),
        b < old(idx)@.len(),
    ensures
        final(idx)@ == old(idx)@.update(a as int, old(idx)@[b as int]).update(
            b as int,
            old(idx)@[a as int],
        ),
{
    let va = idx[a];
    let vb = idx[b];
    idx[a] = vb;
    idx[b] = va;
}

/// Runtime comparison in the (distance, index) order.
fn cand_lt_exec(i1: usize, d1: u64, i2: usize, d2: u64) -> (r: bool)
    ensures
        r == cand_lt(i1 as int, d1, i2 as int, d2),
{
    d1 < d2 || (d1 == d2 && i1 < i2)
}

/// Offers the candidate `(i, d)` to a bounded best-`k` buffer kept sorted
/// in the (distance, index) order: it is inserted at its position, and when
/// the buffer would exceed `k` entries the worst one is dropped. Everything
/// once accounted for stays accounted for.
#[verifier::loop_isolation(false)]
fn buf_insert(buf: &mut Vec<(usize, u64)>, i: usize, d: u64, k: usize)
    requires
        k >= 1,
        old(buf)@.len() <= k,
        buf_sorted(old(buf)@),
        forall|m: int| 0 <= m < old(buf)@.len() ==> (#[trigger] old(buf)@[m]).0 != i,
    ensures
        buf_sorted(final(buf)@),
        final(buf)@.len() == if old(buf)@.len() < k {
            old(buf)@.len() + 1
        } else {
            k as nat
        },
        forall|m: int|
            0 <= m < final(buf)@.len() ==> old(buf)@.contains(#[trigger] final(buf)@[m])
                || final(buf)@[m] == (i, d),
        accounted(final(buf)@, k as int, i as int, d),
        forall|i2: int, d2: u64| #[trigger]
            accounted(old(buf)@, k as int, i2, d2) ==> accounted(final(buf)@, k as int, i2, d2),
{
    let ghost b0 = buf@;
    let mut pos: usize = 0;
    while pos < buf.len() && !cand_lt_exec(i, d, buf[pos].0, buf[pos].1)
        invariant
            pos <= buf@.len(),
            buf@ == b0,
            forall|m: int|
                0 <= m < pos ==> cand_lt((#[trigger] buf@[m]).0 as int, buf@[m].1, i as int, d),
        decreases buf@.len() - pos,
    {
        proof {
            assert(!cand_lt(i as int, d, b0[pos as int].0 as int, b0[pos as int].1));
            assert(b0[pos as int].0 != i);
            assert(cand_lt(b0[pos as int].0 as int, b0[pos as int].1, i as int, d));
        }
        pos += 1;
    }
    proof {
        // every entry at or beyond the scan position follows the candidate
        assert forall|m: int| pos <= m < b0.len() implies cand_lt(
            i as int,
            d,
            (#[trigger] b0[m]).0 as int,
            b0[m].1,
        ) by {
            assert(cand_lt(i as int, d, b0[pos as int].0 as int, b0[pos as int].1));
            if m > pos {
                assert(cand_lt(b0[pos as int].0 as int, b0[pos as int].1, b0[m].0 as int, b0[m].1));
            }
        }
    }
    if buf.len() < k {
        buf.insert(pos, (i, d));
        proof {
            b0.insert_ensures(pos as int, (i, d));
            assert(in_pairs(buf@, i as int, d)) by {
                assert(buf@[pos as int] == (i, d));
            }
            assert forall|i2: int, d2: u64| #[trigger]
                accounted(b0, k as int, i2, d2) implies accounted(buf@, k as int, i2, d2) by {
                if in_pairs(b0, i2, d2) {
                    let m = choose|m: int| 0 <= m < b0.len() && (#[trigger] b0[m]).0 == i2
                        && b0[m].1 == d2;
                    if m < pos {
                        assert(buf@[m] == b0[m]);
                    } else {
                        assert(buf@[m + 1] == b0[m]);
                    }
                    assert(in_pairs(buf@, i2, d2));
                }
            }
            assert forall|m: int| 0 <= m < buf@.len() implies b0.contains(#[trigger] buf@[m])
                || buf@[m] == (i, d) by {
                if m < pos {
                    assert(buf@[m] == b0[m]);
                } else if m > pos {
                    assert(buf@[m] == b0[m - 1]);
                }
            }
            assert forall|t1: int, t2: int| 0 <= t1 < t2 < buf@.len() implies cand_lt(
                (#[trigger] buf@[t1]).0 as int,
                buf@[t1].1,
                (#[trigger] buf@[t2]).0 as int,
                buf@[t2].1,
            ) by {
                if t1 < pos {
                    assert(buf@[t1] == b0[t1]);
                } else if t1 > pos {
                    assert(buf@[t1] == b0[t1 - 1]);
                }
                if t2 < pos {
                    assert(buf@[t2] == b0[t2]);
                } else if t2 > pos {
                    assert(buf@[t2] == b0[t2 - 1]);
                }
            }
        }
    } else if pos < k {
        buf.insert(pos, (i, d));
        proof {
            b0.insert_ensures(pos as int, (i, d));
        }
        let ghost b1 = buf@;
        let dropped = buf.pop();
        proof {
            assert(buf@ =~= b1.subrange(0, b1.len() - 1));
            assert(b1[k as int] == b0[k - 1]);
            assert(dropped == Some(b0[k - 1]));
            assert(buf@.len() == k);
            assert(buf@[pos as int] == (i, d));
            assert(in_pairs(buf@, i as int, d)) by {
                assert(buf@[pos as int] == (i, d));
            }
            // the new last entry precedes the dropped one
            assert(cand_lt(
                buf@[k - 1].0 as int,
                buf@[k - 1].1,
                b0[k - 1].0 as int,
                b0[k - 1].1,
            )) by {
                if pos < k - 1 {
                    assert(buf@[k - 1] == b0[k - 2]);
                    assert(cand_lt(b0[k - 2].0 as int, b0[k - 2].1, b0[k - 1].0 as int, b0[k - 1].1));
                } else {
                    assert(buf@[k - 1] == (i, d));
                }
            }
            assert forall|i2: int, d2: u64| #[trigger]
                accounted(b0, k as int, i2, d2) implies accounted(buf@, k as int, i2, d2) by {
                if in_pairs(b0, i2, d2) {
                    let m = choose|m: int| 0 <= m < b0.len() && (#[trigger] b0[m]).0 == i2
                        && b0[m].1 == d2;
                    if m < pos {
                        assert(buf@[m] == b0[m]);
                        assert(in_pairs(buf@, i2, d2));
                    } else if m < k - 1 {
                        assert(buf@[m + 1] == b0[m]);
                        assert(in_pairs(buf@, i2, d2));
                    } else {
                        // the dropped entry: the new last precedes it
                        assert(m == k - 1);
                        assert(cand_lt(buf@[k - 1].0 as int, buf@[k - 1].1, i2, d2));
                    }
                } else {
                    // was beyond the old last; the new last precedes that
                    assert(cand_lt(b0[k - 1].0 as int, b0[k - 1].1, i2, d2));
                    assert(cand_lt(buf@[k - 1].0 as int, buf@[k - 1].1, i2, d2));
                }
            }
            assert forall|m: int| 0 <= m < buf@.len() implies b0.contains(#[trigger] buf@[m])
                || buf@[m] == (i, d) by {
                if m < pos {
                    assert(buf@[m] == b0[m]);
                } else if m > pos {
                    assert(buf@[m] == b0[m - 1]);
                }
            }
            assert forall|t1: int, t2: int| 0 <= t1 < t2 < b1.len() implies cand_lt(
                (#[trigger] b1[t1]).0 as int,
                b1[t1].1,
                (#[trigger] b1[t2]).0 as int,
                b1[t2].1,
            ) by {
                if t1 < pos {
                    assert(b1[t1] == b0[t1]);
                } else if t1 > pos {
                    assert(b1[t1] == b0[t1 - 1]);
                }
                if t2 < pos {
                    assert(b1[t2] == b0[t2]);
                } else if t2 > pos {
                    assert(b1[t2] == b0[t2 - 1]);
                }
            }
            assert(buf_sorted(buf@)) by {
                assert forall|t1: int, t2: int| 0 <= t1 < t2 < buf@.len() implies cand_lt(
                    (#[trigger] buf@[t1]).0 as int,
                    buf@[t1].1,
                    (#[trigger] buf@[t2]).0 as int,
                    buf@[t2].1,
                ) by {
                    assert(buf@[t1] == b1[t1]);
                    assert(buf@[t2] == b1[t2]);
                }
            }
        }
    } else {
        proof {
            assert(pos == k && b0.len() == k);
            assert(cand_lt(b0[k - 1].0 as int, b0[k - 1].1, i as int, d));
            assert(accounted(buf@, k as int, i as int, d));
            assert forall|m: int| 0 <= m < buf@.len() implies b0.contains(#[trigger] buf@[m])
                || buf@[m] == (i, d) by {
                assert(buf@[m] == b0[m]);
            }
        }
    }
}

/// The tight bounding ball of the points at positions `s .. e` of the
/// permutation: the metric's center for those members, and the largest
/// distance from it to any of them.
#[verifier::loop_isolation(false)]
fn bounding_ball<M: DistanceMetric>(
    metric: &M,
    pts: &Vec<Vec<u64>>,
    dim: usize,
    idx: &Vec<usize>,
    s: usize,
    e: usize,
) -> (res: (Vec<u64>, u64))
    requires
        pts_wf(pts@, dim as int),
        s < e,
        e <= idx@.len(),
        forall|j: int| 0 <= j < idx@.len() ==> (#[trigger] idx@[j]) < pts@.len(),
    ensures
        res.0@.len() == dim as int,
        forall|j: int|
            s <= j < e ==> metric.dist_spec(res.0@, pts@[#[trigger] idx@[j] as int]@) <= res.1,
{
    let mut members: Vec<Vec<u64>> = Vec::new();
    let mut j: usize = s;
    while j < e
        invariant
            pts_wf(pts@, dim as int),
            s <= j <= e,
            e <= idx@.len(),
            forall|t: int| 0 <= t < idx@.len() ==> (#[trigger] idx@[t]) < pts@.len(),
            members@.len() == j - s,
            forall|t: int| 0 <= t < members@.len() ==> (#[trigger] members@[t])@ == pts@[idx@[s + t] as int]@,
        decreases e - j,
    {
        let src = &pts[idx[j]];
        let mut row: Vec<u64> = Vec::new();
        let mut c: usize = 0;
        while c < src.len()
            invariant
                c <= src@.len(),
                row@ == src@.subrange(0, c as int),
            decreases src@.len() - c,
        {
            row.push(src[c]);
            c += 1;
        }
        assert(row@ =~= src@);
        members.push(row);
        j += 1;
    }
    proof {
        assert(members@[0]@ == pts@[idx@[s as int] as int]@);
        assert forall|t: int| 0 <= t < members@.len() implies (#[trigger] members@[t])@.len()
            == dim as int by {
            assert(members@[t]@ == pts@[idx@[s + t] as int]@);
        }
        assert forall|t: int| 0 <= t < members@.len() implies row_finite(
            (#[trigger] members@[t])@,
        ) by {
            assert(members@[t]@ == pts@[idx@[s + t] as int]@);
        }
        assert(rows_consistent(members@));
    }
    let center = metric.center(&members);
    let mut radius: u64 = 0;
    let mut j2: usize = s;
    while j2 < e
        invariant
            pts_wf(pts@, dim as int),
            s <= j2 <= e,
            e <= idx@.len(),
            forall|t: int| 0 <= t < idx@.len() ==> (#[trigger] idx@[t]) < pts@.len(),
            center@.len() == dim as int,
            forall|t: int|
                s <= t < j2 ==> metric.dist_spec(center@, pts@[#[trigger] idx@[t] as int]@) <= radius,
        decreases e - j2,
    {
        let dd = metric.distance(&center, &pts[idx[j2]]);
        if dd > radius {
            radius = dd;
        }
        j2 += 1;
    }
    (center, radius)
}

/// The coordinate dimension of greatest spread across the points at
/// positions `s .. e`, measured in the floating-point order of the
/// coordinates' bit patterns. A tuning choice: no query answer depends
/// on it.
#[verifier::loop_isolation(false)]
fn choose_split_dim(pts: &Vec<Vec<u64>>, dim: usize, idx: &Vec<usize>, s: usize, e: usize) -> (res: usize)
    requires
        pts_wf(pts@, dim as int),
        dim >= 1,
        s < e,
        e <= idx@.len(),
        forall|j: int| 0 <= j < idx@.len() ==> (#[trigger] idx@[j]) < pts@.len(),
    ensures
        res < dim,
{
    let mut best_dim: usize = 0;
    let mut best_spread: u64 = 0;
    let mut c: usize = 0;
    while c < dim
        invariant
            pts_wf(pts@, dim as int),
            s < e,
            e <= idx@.len(),
            forall|j: int| 0 <= j < idx@.len() ==> (#[trigger] idx@[j]) < pts@.len(),
            c <= dim,
            best_dim < dim,
        decreases dim - c,
    {
        let mut lo = order_key(pts[idx[s]][c]);
        let mut hi = lo;
        let mut j: usize = s + 1;
        while j < e
            invariant
                pts_wf(pts@, dim as int),
                s < j,
                j <= e,
                e <= idx@.len(),
                c < dim,
                forall|t: int| 0 <= t < idx@.len() ==> (#[trigger] idx@[t]) < pts@.len(),
                lo <= hi,
            decreases e - j,
        {
            let key = order_key(pts[idx[j]][c]);
            if key < lo {
                lo = key;
            }
            if key > hi {
                hi = key;
            }
            j += 1;
        }
        let spread = hi - lo;
        if spread > best_spread {
            best_spread = spread;
            best_dim = c;
        }
        c += 1;
    }
    best_dim
}

/// Partitions the positions `s .. e` of the permutation around the midpoint
/// of the chosen dimension's spread, falling back to an even split whenever
/// that would leave one side empty, so both sides are always non-empty.
/// Only the permutation property matters to the callers; where each point
/// lands is a tuning choice.
#[verifier::loop_isolation(false)]
fn partition_range(
    pts: &Vec<Vec<u64>>,
    dim: usize,
    idx: &mut Vec<usize>,
    s: usize,
    e: usize,
    c: usize,
) -> (mid: usize)
    requires
        pts_wf(pts@, dim as int),
        c < dim,
        s < e,
        e <= old(idx)@.len(),
        perm_of(old(idx)@, pts@.len() as int),
        e - s >= 2,
    ensures
        perm_of(final(idx)@, pts@.len() as int),
        final(idx)@.len() == old(idx)@.len(),
        forall|j: int|
            0 <= j < final(idx)@.len() && !(s <= j < e) ==> #[trigger] final(idx)@[j] == old(idx)@[j],
        s < mid < e,
{
    let ghost n = pts@.len() as int;
    let mut lo = order_key(pts[idx[s]][c]);
    let mut hi = lo;
    let mut j: usize = s + 1;
    while j < e
        invariant
            pts_wf(pts@, dim as int),
            c < dim,
            s < j,
            j <= e,
            e <= idx@.len(),
            perm_of(idx@, n),
            lo <= hi,
        decreases e - j,
    {
        let key = order_key(pts[idx[j]][c]);
        if key < lo {
            lo = key;
        }
        if key > hi {
            hi = key;
        }
        j += 1;
    }
    let pivot = lo / 2 + hi / 2;
    let mut store: usize = s;
    let mut j2: usize = s;
    while j2 < e
        invariant
            pts_wf(pts@, dim as int),
            c < dim,
            s <= store <= j2,
            j2 <= e,
            e <= idx@.len(),
            perm_of(idx@, n),
            idx@.len() == old(idx)@.len(),
            forall|t: int| 0 <= t < idx@.len() && !(s <= t < e) ==> #[trigger] idx@[t] == old(idx)@[t],
        decreases e - j2,
    {
        if order_key(pts[idx[j2]][c]) < pivot {
            let ghost before = idx@;
            swap_idx(idx, store, j2);
            proof {
                lemma_swap_perm(before, idx@, n, store as int, j2 as int);
            }
            store += 1;
        }
        j2 += 1;
    }
    if store <= s || store >= e {
        s + (e - s) / 2
    } else {
        store
    }
}

/// Builds the subtree over positions `s .. e` of the permutation, children
/// before parent, and returns the arena index of its root. Existing nodes,
/// whose ranges avoid `s .. e`, are untouched and stay well-formed; the
/// permutation changes only inside `s .. e`.
fn build_node<M: DistanceMetric>(
    metric: &M,
    pts: &Vec<Vec<u64>>,
    dim: usize,
    idx: &mut Vec<usize>,
    nodes: &mut Vec<Node>,
    s: usize,
    e: usize,
) -> (res: usize)
    requires
        pts_wf(pts@, dim as int),
        perm_of(old(idx)@, pts@.len() as int),
        s < e,
        e <= old(idx)@.len(),
        nodes_wf_all(*metric, pts@, old(idx)@, old(nodes)@),
        ranges_outside(old(nodes)@, s as int, e as int),
    ensures
        perm_of(final(idx)@, pts@.len() as int),
        final(idx)@.len() == old(idx)@.len(),
        forall|j: int|
            0 <= j < final(idx)@.len() && !(s <= j < e) ==> #[trigger] final(idx)@[j] == old(idx)@[j],
        final(nodes)@.len() > old(nodes)@.len(),
        res == final(nodes)@.len() - 1,
        forall|k: int| 0 <= k < old(nodes)@.len() ==> #[trigger] final(nodes)@[k] == old(nodes)@[k],
        nodes_wf_all(*metric, pts@, final(idx)@, final(nodes)@),
        forall|k: int|
            old(nodes)@.len() <= k < final(nodes)@.len() ==> s <= (#[trigger] final(nodes)@[k]).start
                && final(nodes)@[k].end <= e,
        final(nodes)@[res as int].start == s,
        final(nodes)@[res as int].end == e,
        e - s <= LEAF_CAPACITY ==> final(nodes)@.len() == old(nodes)@.len() + 1,
    decreases e - s,
{
    let ghost n = pts@.len() as int;
    if e - s <= LEAF_CAPACITY {
        let ball = bounding_ball(metric, pts, dim, idx, s, e);
        let ghost nodes_before = nodes@;
        let nd = Node { center: ball.0, radius: ball.1, start: s, end: e, children: None };
        nodes.push(nd);
        proof {
            lemma_nodes_wf_stable(*metric, pts@, idx@, idx@, nodes_before, nodes@, 0, 0);
            assert(node_wf(*metric, pts@, idx@, nodes@, nodes@.len() - 1));
            assert forall|k: int| 0 <= k < nodes@.len() implies #[trigger] node_wf(
                *metric,
                pts@,
                idx@,
                nodes@,
                k,
            ) by {}
        }
        nodes.len() - 1
    } else {
        let split_dim = if dim == 0 {
            0
        } else {
            choose_split_dim(pts, dim, idx, s, e)
        };
        let mid = if dim == 0 {
            s + (e - s) / 2
        } else {
            partition_range(pts, dim, idx, s, e, split_dim)
        };
        proof {
            lemma_nodes_wf_stable(
                *metric,
                pts@,
                old(idx)@,
                idx@,
                old(nodes)@,
                nodes@,
                s as int,
                e as int,
            );
        }
        let left = build_node(metric, pts, dim, idx, nodes, s, mid);
        let ghost nodes_after_left = nodes@;
        let right = build_node(metric, pts, dim, idx, nodes, mid, e);
        let ball = bounding_ball(metric, pts, dim, idx, s, e);
        let ghost nodes_before = nodes@;
        let nd = Node {
            center: ball.0,
            radius: ball.1,
            start: s,
            end: e,
            children: Some((left, right)),
        };
        nodes.push(nd);
        proof {
            lemma_nodes_wf_stable(*metric, pts@, idx@, idx@, nodes_before, nodes@, 0, 0);
            let parent = nodes@.len() - 1;
            assert(nodes@[left as int] == nodes_after_left[left as int]);
            assert(nodes@[left as int].start == s);
            assert(nodes@[left as int].end == mid);
            assert(nodes@[right as int].start == mid);
            assert(nodes@[right as int].end == e);
            assert(node_wf(*metric, pts@, idx@, nodes@, parent));
            assert forall|k: int| 0 <= k < nodes@.len() implies #[trigger] node_wf(
                *metric,
                pts@,
                idx@,
                nodes@,
                k,
            ) by {}
        }
        nodes.len() - 1
    }
}

/// A ball tree over an immutable set of points, built once and read-only
/// thereafter. Positions in the input sequence are the stable identifiers
/// that queries report.
pub struct BallTree<M: DistanceMetric> {
    metric: M,
    pts: Vec<Vec<u64>>,
    idx: Vec<usize>,
    nodes: Vec<Node>,
    dim: usize,
}

impl<M: DistanceMetric> BallTree<M> {
    /// The points of the tree, in input order.
    pub closed spec fn points(&self) -> Seq<Vec<u64>> {
        self.pts@
    }

    /// The fixed dimension of the tree's points.
    pub closed spec fn dimension(&self) -> int {
        self.dim as int
    }

    /// The number of nodes of the tree, leaves and internal nodes together.
    pub closed spec fn node_count(&self) -> int {
        self.nodes@.len() as int
    }

    /// The metric the tree was built with.
    pub closed spec fn metric(&self) -> M {
        self.metric
    }

    /// The structural invariant: a valid point set of the tree dimension, a
    /// permutation of its indices, and a non-empty arena of well-formed
    /// nodes whose root, the last node, covers the whole permutation.
    #[verifier::type_invariant]
    spec fn wf(self) -> bool {
        &&& pts_wf(self.pts@, self.dim as int)
        &&& perm_of(self.idx@, self.pts@.len() as int)
        &&& self.nodes@.len() >= 1
        &&& nodes_wf_all(self.metric, self.pts@, self.idx@, self.nodes@)
        &&& self.nodes@.last().start == 0
        &&& self.nodes@.last().end == self.pts@.len()
    }

    /// Builds a tree over `points` with `metric`. Succeeds exactly on a
    /// valid point set: at least one point, rows of one length, finite
    /// coordinates; otherwise reports the first failing validation, in the
    /// order emptiness, row lengths, finiteness. A single point yields a
    /// tree of exactly one node.
    #[verifier::loop_isolation(false)]
    pub fn new(points: Vec<Vec<u64>>, metric: M) -> (res: Result<BallTree<M>, Error>)
        ensures
            res is Ok <==> valid_point_set(points@),
            res matches Ok(t) ==> t.points() == points@ && t.dimension() == points@[0]@.len()
                && t.metric() == metric,
            res matches Ok(t) ==> (points@.len() == 1 ==> t.node_count() == 1),
            res matches Err(e) ==> e == construction_error(points@),
    {
        let n = points.len();
        if n == 0 {
            return Err(Error::EmptyInput);
        }
        let dim = points[0].len();
        let mut i: usize = 0;
        while i < n
            invariant
                n == points@.len(),
                n >= 1,
                dim == points@[0]@.len(),
                i <= n,
                forall|t: int| 0 <= t < i ==> (#[trigger] points@[t])@.len() == dim,
            decreases n - i,
        {
            if points[i].len() != dim {
                assert(!rows_consistent(points@));
                return Err(Error::InconsistentRows);
            }
            i += 1;
        }
        assert(rows_consistent(points@));
        let mut i2: usize = 0;
        while i2 < n
            invariant
                n == points@.len(),
                n >= 1,
                dim == points@[0]@.len(),
                rows_consistent(points@),
                i2 <= n,
                forall|t: int| 0 <= t < i2 ==> row_finite((#[trigger] points@[t])@),
            decreases n - i2,
        {
            let row = &points[i2];
            let mut c: usize = 0;
            while c < row.len()
                invariant
                    c <= row@.len(),
                    forall|t: int| 0 <= t < c ==> is_finite_bits(#[trigger] row@[t]),
                decreases row@.len() - c,
            {
                if !finite_bits(row[c]) {
                    assert(!row_finite(points@[i2 as int]@));
                    assert(!valid_point_set(points@));
                    return Err(Error::NonFiniteCoordinate);
                }
                c += 1;
            }
            assert(row_finite(points@[i2 as int]@));
            i2 += 1;
        }
        assert(pts_wf(points@, dim as int));
        let mut idx: Vec<usize> = Vec::new();
        let mut i3: usize = 0;
        while i3 < n
            invariant
                n == points@.len(),
                i3 <= n,
                idx@.len() == i3,
                forall|t: int| 0 <= t < i3 ==> (#[trigger] idx@[t]) == t,
            decreases n - i3,
        {
            idx.push(i3);
            i3 += 1;
        }
        proof {
            assert forall|i4: int| 0 <= i4 < n implies #[trigger] covers(idx@, i4) by {
                assert(idx@[i4] == i4);
            }
            assert(perm_of(idx@, n as int));
        }
        let mut nodes: Vec<Node> = Vec::new();
        let root = build_node(&metric, &points, dim, &mut idx, &mut nodes, 0, n);
        let tree = BallTree { metric, pts: points, idx, nodes, dim };
        Ok(tree)
    }

    /// The number of points in the tree.
    pub fn n_samples(&self) -> (r: usize)
        ensures
            r == self.points().len(),
    {
        proof {
            use_type_invariant(&*self);
        }
        self.pts.len()
    }

    /// The number of nodes in the tree, leaves and internal nodes together.
    pub fn n_nodes(&self) -> (r: usize)
        ensures
            r == self.node_count(),
    {
        proof {
            use_type_invariant(&*self);
        }
        self.nodes.len()
    }

    /// Depth-first descent below the node at arena index `node`, visiting
    /// the child whose center is closer to the query first, and folding
    /// every point of the node's range into the running best candidate.
    #[verifier::loop_isolation(false)]
    fn nn_rec(&self, point: &Vec<u64>, node: usize, best_i: usize, best_d: u64) -> (res: (
        usize,
        u64,
    ))
        requires
            self.wf(),
            point@.len() == self.dim as int,
            node < self.nodes@.len(),
            best_i < self.pts@.len(),
            best_d == self.metric.dist_spec(point@, self.pts@[best_i as int]@),
        ensures
            res.0 < self.pts@.len(),
            res.1 == self.metric.dist_spec(point@, self.pts@[res.0 as int]@),
            cand_le(res.0 as int, res.1, best_i as int, best_d),
            forall|j: int|
                self.nodes@[node as int].start <= j < self.nodes@[node as int].end ==> cand_le(
                    res.0 as int,
                    res.1,
                    self.idx@[j] as int,
                    self.metric.dist_spec(point@, self.pts@[#[trigger] self.idx@[j] as int]@),
                ),
        decreases node,
    {
        proof {
            assert(node_wf(self.metric, self.pts@, self.idx@, self.nodes@, node as int));
        }
        let nd = &self.nodes[node];
        match nd.children {
            None => {
                let mut bi = best_i;
                let mut bd = best_d;
                let mut j = nd.start;
                while j < nd.end
                    invariant
                        nd.start <= j <= nd.end,
                        bi < self.pts@.len(),
                        bd == self.metric.dist_spec(point@, self.pts@[bi as int]@),
                        cand_le(bi as int, bd, best_i as int, best_d),
                        forall|t: int|
                            nd.start <= t < j ==> cand_le(
                                bi as int,
                                bd,
                                self.idx@[t] as int,
                                self.metric.dist_spec(
                                    point@,
                                    self.pts@[#[trigger] self.idx@[t] as int]@,
                                ),
                            ),
                    decreases nd.end - j,
                {
                    let pi = self.idx[j];
                    let dd = self.metric.distance(point, &self.pts[pi]);
                    if cand_lt_exec(pi, dd, bi, bd) {
                        bi = pi;
                        bd = dd;
                    }
                    j += 1;
                }
                (bi, bd)
            },
            Some((l, r)) => {
                proof {
                    assert(node_wf(self.metric, self.pts@, self.idx@, self.nodes@, l as int));
                    assert(node_wf(self.metric, self.pts@, self.idx@, self.nodes@, r as int));
                }
                let dl = self.metric.distance(&self.nodes[l].center, point);
                let dr = self.metric.distance(&self.nodes[r].center, point);
                let first = if dl <= dr {
                    l
                } else {
                    r
                };
                let second = if dl <= dr {
                    r
                } else {
                    l
                };
                let r1 = self.nn_rec(point, first, best_i, best_d);
                let r2 = self.nn_rec(point, second, r1.0, r1.1);
                proof {
                    assert forall|j: int|
                        nd.start <= j < nd.end implies cand_le(
                        r2.0 as int,
                        r2.1,
                        self.idx@[j] as int,
                        self.metric.dist_spec(point@, self.pts@[#[trigger] self.idx@[j] as int]@),
                    ) by {
                        let fs = self.nodes@[first as int].start;
                        let fe = self.nodes@[first as int].end;
                        if fs <= j < fe {
                            assert(cand_le(
                                r1.0 as int,
                                r1.1,
                                self.idx@[j] as int,
                                self.metric.dist_spec(point@, self.pts@[self.idx@[j] as int]@),
                            ));
                        } else {
                            assert(self.nodes@[second as int].start <= j
                                < self.nodes@[second as int].end);
                        }
                    }
                }
                r2
            },
        }
    }

    /// The single nearest neighbor of `point`: the brute-force global
    /// minimum of the metric over all points, ties resolved to the
    /// smallest original index, together with its distance. Fails exactly
    /// when the query point's length differs from the tree dimension.
    pub fn query_nearest(&self, point: &Vec<u64>) -> (res: Result<(usize, u64), Error>)
        ensures
            res is Ok <==> point@.len() == self.dimension(),
            res matches Ok(p) ==> is_nearest(self.metric(), self.points(), point@, p.0 as int, p.1),
            res matches Err(e) ==> e == Error::DimensionMismatch,
    {
        proof {
            use_type_invariant(&*self);
        }
        if point.len() != self.dim {
            return Err(Error::DimensionMismatch);
        }
        let d0 = self.metric.distance(point, &self.pts[0]);
        let root = self.nodes.len() - 1;
        let best = self.nn_rec(point, root, 0, d0);
        proof {
            assert forall|i: int| 0 <= i < self.pts@.len() implies cand_le(
                best.0 as int,
                best.1,
                i,
                self.metric.dist_spec(point@, (#[trigger] self.pts@[i])@),
            ) by {
                assert(covers(self.idx@, i));
                let j = choose|j: int| 0 <= j < self.idx@.len() && self.idx@[j] == i;
                assert(cand_le(
                    best.0 as int,
                    best.1,
                    self.idx@[j] as int,
                    self.metric.dist_spec(point@, self.pts@[self.idx@[j] as int]@),
                ));
            }
        }
        Ok(best)
    }

    /// The `k` nearest neighbors of `point`, as parallel index and
    /// distance sequences ascending by distance with ties broken by
    /// ascending index: exactly the `k` smallest brute-force distances.
    /// Fails exactly on a query point of the wrong length
    /// (`DimensionMismatch`), or `k` outside `1 ..= n` (`InvalidArgument`),
    /// checked in that order.
    #[verifier::loop_isolation(false)]
    pub fn query(&self, point: &Vec<u64>, k: usize) -> (res: Result<(Vec<usize>, Vec<u64>), Error>)
        ensures
            res is Ok <==> point@.len() == self.dimension() && 1 <= k
                <= self.points().len(),
            res matches Ok(p) ==> is_knn(
                self.metric(),
                self.points(),
                point@,
                k as int,
                p.0@,
                p.1@,
            ),
            res matches Err(e) ==> e == (if point@.len() != self.dimension() {
                Error::DimensionMismatch
            } else {
                Error::InvalidArgument
            }),
    {
        proof {
            use_type_invariant(&*self);
        }
        if point.len() != self.dim {
            return Err(Error::DimensionMismatch);
        }
        let n = self.pts.len();
        if k == 0 || k > n {
            return Err(Error::InvalidArgument);
        }
        let mut buf: Vec<(usize, u64)> = Vec::new();
        let mut i: usize = 0;
        while i < n
            invariant
                i <= n,
                buf_sorted(buf@),
                buf@.len() == if i < k {
                    i as int
                } else {
                    k as int
                },
                forall|m: int| 0 <= m < buf@.len() ==> (#[trigger] buf@[m]).0 < i,
                forall|m: int|
                    0 <= m < buf@.len() ==> (#[trigger] buf@[m]).1 == self.metric.dist_spec(
                        point@,
                        self.pts@[buf@[m].0 as int]@,
                    ),
                forall|i2: int|
                    0 <= i2 < i ==> accounted(
                        buf@,
                        k as int,
                        i2,
                        self.metric.dist_spec(point@, (#[trigger] self.pts@[i2])@),
                    ),
            decreases n - i,
        {
            let dd = self.metric.distance(point, &self.pts[i]);
            let ghost bprev = buf@;
            buf_insert(&mut buf, i, dd, k);
            proof {
                assert forall|m: int| 0 <= m < buf@.len() implies (#[trigger] buf@[m]).0 < i + 1
                    && buf@[m].1 == self.metric.dist_spec(point@, self.pts@[buf@[m].0 as int]@) by {
                    if bprev.contains(buf@[m]) {
                        let m2 = choose|m2: int| 0 <= m2 < bprev.len() && bprev[m2] == buf@[m];
                        assert(bprev[m2].0 < i);
                    } else {
                        assert(buf@[m] == (i, dd));
                    }
                }
                assert forall|i2: int|
                    0 <= i2 < i + 1 implies accounted(
                    buf@,
                    k as int,
                    i2,
                    self.metric.dist_spec(point@, (#[trigger] self.pts@[i2])@),
                ) by {
                    if i2 < i {
                        assert(accounted(
                            bprev,
                            k as int,
                            i2,
                            self.metric.dist_spec(point@, self.pts@[i2]@),
                        ));
                    } else {
                        assert(accounted(buf@, k as int, i as int, dd));
                    }
                }
            }
            i += 1;
        }
        let mut is: Vec<usize> = Vec::new();
        let mut ds: Vec<u64> = Vec::new();
        let mut m: usize = 0;
        while m < buf.len()
            invariant
                m <= buf@.len(),
                is@.len() == m,
                ds@.len() == m,
                forall|t: int| 0 <= t < m ==> (#[trigger] is@[t]) == buf@[t].0,
                forall|t: int| 0 <= t < m ==> (#[trigger] ds@[t]) == buf@[t].1,
            decreases buf@.len() - m,
        {
            let entry = buf[m];
            is.push(entry.0);
            ds.push(entry.1);
            m += 1;
        }
        proof {
            assert(buf@.len() == k as int);
            assert forall|i2: int|
                0 <= i2 < self.pts@.len() && !in_list(is@, i2) implies cand_lt(
                is@[k - 1] as int,
                ds@[k - 1],
                i2,
                self.metric.dist_spec(point@, (#[trigger] self.pts@[i2])@),
            ) by {
                let d2 = self.metric.dist_spec(point@, self.pts@[i2]@);
                assert(accounted(buf@, k as int, i2, d2));
                if in_pairs(buf@, i2, d2) {
                    let t = choose|t: int| 0 <= t < buf@.len() && (#[trigger] buf@[t]).0 == i2
                        && buf@[t].1 == d2;
                    assert(is@[t] == i2);
                    assert(in_list(is@, i2));
                } else {
                    assert(cand_lt(buf@[k - 1].0 as int, buf@[k - 1].1, i2, d2));
                }
            }
            assert forall|t1: int, t2: int| 0 <= t1 < t2 < k implies cand_lt(
                #[trigger] is@[t1] as int,
                ds@[t1],
                #[trigger] is@[t2] as int,
                ds@[t2],
            ) by {
                assert(cand_lt(buf@[t1].0 as int, buf@[t1].1, buf@[t2].0 as int, buf@[t2].1));
            }
        }
        Ok((is, ds))
    }

    /// The indices of all points within `radius` of `point`, ascending by
    /// index: exactly the set of points at or within the radius, no
    /// extras, no omissions. Fails exactly on a query point of the wrong
    /// length (`DimensionMismatch`), or a radius that is not a
    /// non-negative double (`InvalidArgument`), checked in that order; a
    /// `-0.0` radius counts as zero.
    #[verifier::loop_isolation(false)]
    pub fn query_radius(&self, point: &Vec<u64>, radius: u64) -> (res: Result<Vec<usize>, Error>)
        ensures
            res is Ok <==> point@.len() == self.dimension() && valid_radius_bits(radius),
            res matches Ok(out) ==> is_radius_result(
                self.metric(),
                self.points(),
                point@,
                norm_radius(radius),
                out@,
            ),
            res matches Err(e) ==> e == (if point@.len() != self.dimension() {
                Error::DimensionMismatch
            } else {
                Error::InvalidArgument
            }),
    {
        proof {
            use_type_invariant(&*self);
        }
        if point.len() != self.dim {
            return Err(Error::DimensionMismatch);
        }
        if !(radius <= INF_BITS || radius == NEG_ZERO_BITS) {
            return Err(Error::InvalidArgument);
        }
        let rad = if radius == NEG_ZERO_BITS {
            0u64
        } else {
            radius
        };
        let n = self.pts.len();
        let mut out: Vec<usize> = Vec::new();
        let mut i: usize = 0;
        while i < n
            invariant
                i <= n,
                forall|t: int| 0 <= t < out@.len() ==> (#[trigger] out@[t]) < i,
                forall|t1: int, t2: int|
                    0 <= t1 < t2 < out@.len() ==> (#[trigger] out@[t1]) < (#[trigger] out@[t2]),
                forall|t: int|
                    0 <= t < out@.len() ==> self.metric.dist_spec(
                        point@,
                        self.pts@[#[trigger] out@[t] as int]@,
                    ) <= rad,
                forall|i2: int|
                    0 <= i2 < i && self.metric.dist_spec(point@, (#[trigger] self.pts@[i2])@)
                        <= rad ==> in_list(out@, i2),
            decreases n - i,
        {
            let dd = self.metric.distance(point, &self.pts[i]);
            if dd <= rad {
                let ghost oprev = out@;
                out.push(i);
                proof {
                    assert forall|i2: int|
                        0 <= i2 < i + 1 && self.metric.dist_spec(
                            point@,
                            (#[trigger] self.pts@[i2])@,
                        ) <= rad implies in_list(out@, i2) by {
                        if i2 < i {
                            assert(in_list(oprev, i2));
                            let t = choose|t: int| 0 <= t < oprev.len() && oprev[t] == i2;
                            assert(out@[t] == i2);
                        } else {
                            assert(out@[out@.len() - 1] == i);
                        }
                    }
                }
            }
            i += 1;
        }
        Ok(out)
    }
}

} // verus!
