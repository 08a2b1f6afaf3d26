//! The combinatorial checks on a computed hull: that its surface is closed and
//! that its faces and vertices obey Euler's relation for a sphere.

use vstd::prelude::*;
use vstd::multiset::Multiset;
use crate::edge::reverse_pair;
use crate::errors::ConsistencyError;
use crate::float_order::{bits_gt, float_gt};
use crate::hash_collections::{
    index_set_insert, index_set_len, index_set_new, pair_count_get, pair_count_insert, pair_count_new,
};
use crate::topology::{edge_multiset, is_closed, is_corner, is_vertex_of, triangle_edges};
use crate::triangle_indices::TriangleIndices;

verus! {

/// The indices that are corners of some triangle.
pub open spec fn used_vertices(hull: Seq<TriangleIndices>) -> Set<usize> {
    Set::new(|v: usize| is_vertex_of(hull, v))
}

/// The outcome of the combinatorial checks: a surface that is not closed gives
/// `HullNotClosed`; otherwise, when the number of triangles plus four is not
/// twice the number of vertices used, `EulerRelationError`.
pub open spec fn spec_topology_check(hull: Seq<TriangleIndices>) -> Result<(), ConsistencyError> {
    if !is_closed(edge_multiset(hull)) {
        Err(ConsistencyError::HullNotClosed)
    } else if hull.len() + 4 != 2 * used_vertices(hull).len() {
        Err(ConsistencyError::EulerRelationError)
    } else {
        Ok(())
    }
}

/// The outcome of the combinatorial checks: an open surface, where some edge
/// occurs other than once or its reverse does not occur exactly once, gives
/// `HullNotClosed`; a closed one whose triangle count plus four differs from
/// twice the number of distinct corners gives `EulerRelationError`; otherwise
/// the checks pass. A vertex counts when it is a corner of some triangle.
pub proof fn lemma_topology_outcome(hull: Seq<TriangleIndices>, v: usize)
    ensures
        used_vertices(hull).contains(v) <==> exists|i: int| 0 <= i < hull.len() && ((#[trigger] hull[i]).0 == v
            || hull[i].1 == v || hull[i].2 == v),
        spec_topology_check(hull) == Err::<(), ConsistencyError>(ConsistencyError::HullNotClosed)
            <==> exists|e: (usize, usize)| #[trigger] edge_multiset(hull).count(e) > 0 && (edge_multiset(
            hull,
        ).count(e) != 1 || edge_multiset(hull).count((e.1, e.0)) != 1),
        spec_topology_check(hull) == Err::<(), ConsistencyError>(ConsistencyError::EulerRelationError)
            <==> (is_closed(edge_multiset(hull)) && hull.len() + 4 != 2 * used_vertices(hull).len()),
        spec_topology_check(hull) is Ok <==> (is_closed(edge_multiset(hull)) && hull.len() + 4 == 2
            * used_vertices(hull).len()),
        !(spec_topology_check(hull) matches Err(ConsistencyError::PointOutsideConvexHull(_))),
{
    crate::topology::lemma_closed_iff(edge_multiset(hull));
    if used_vertices(hull).contains(v) {
        let i = choose|i: int| 0 <= i < hull.len() && crate::topology::is_corner(#[trigger] hull[i], v);
    }
}

/// An edge occurs in the first `k` triangles at most as often as in all.
proof fn lemma_prefix_edge_count(hull: Seq<TriangleIndices>, k: int, e: (usize, usize))
    requires
        0 <= k <= hull.len(),
    ensures
        edge_multiset(hull.subrange(0, k)).count(e) <= edge_multiset(hull).count(e),
{
    crate::topology::lemma_edge_multiset_append(hull.subrange(0, k), hull.subrange(k, hull.len() as int));
    assert(hull.subrange(0, k) + hull.subrange(k, hull.len() as int) =~= hull);
}

/// Adds one occurrence of the pair to the counts.
fn bump_count(
    counts: &mut crate::hash_collections::PairCounts,
    p: (usize, usize),
    Ghost(before): Ghost<Multiset<(usize, usize)>>,
)
    requires
        forall|e: (usize, usize)| #[trigger] old(counts)@.contains_key(e) <==> before.count(e) > 0,
        forall|e: (usize, usize)| old(counts)@.contains_key(e) ==> #[trigger] old(counts)@[e] == before.count(e),
        before.count(p) < u32::MAX,
    ensures
        forall|e: (usize, usize)| #[trigger] final(counts)@.contains_key(e) <==> before.insert(p).count(e) > 0,
        forall|e: (usize, usize)| final(counts)@.contains_key(e) ==> #[trigger] final(counts)@[e] == before.insert(p).count(e),
{
    match pair_count_get(counts, p) {
        Some(c) => {
            pair_count_insert(counts, p, c + 1);
        },
        None => {
            pair_count_insert(counts, p, 1);
        },
    }
}

/// Checks that the triangles form a closed surface (every directed edge occurs
/// exactly once and so does its reverse) and that the number of triangles plus
/// four is twice the number of vertices they use.
pub fn check_hull_topology(convex_hull: &[TriangleIndices]) -> (r: Result<(), ConsistencyError>)
    requires
        forall|e: (usize, usize)| #[trigger] edge_multiset(convex_hull@).count(e) <= u32::MAX,
    ensures
        r == spec_topology_check(convex_hull@),
        r == Err::<(), ConsistencyError>(ConsistencyError::HullNotClosed) <==> exists|e: (usize, usize)|
            #[trigger] edge_multiset(convex_hull@).count(e) > 0 && (edge_multiset(convex_hull@).count(e) != 1
                || edge_multiset(convex_hull@).count((e.1, e.0)) != 1),
        r is Ok <==> (is_closed(edge_multiset(convex_hull@)) && convex_hull@.len() + 4 == 2 * used_vertices(
            convex_hull@,
        ).len()),
{
    proof {
        lemma_topology_outcome(convex_hull@, 0);
    }
    let n = convex_hull.len();
    let ghost hull = convex_hull@;
    let mut counts = pair_count_new();
    let mut all_edges: Vec<(usize, usize)> = Vec::new();
    let mut k: usize = 0;
    while k < n
        invariant
            n == hull.len(),
            hull == convex_hull@,
            forall|e: (usize, usize)| #[trigger] edge_multiset(hull).count(e) <= u32::MAX,
            k <= n,
            forall|e: (usize, usize)| #[trigger] counts@.contains_key(e) <==> edge_multiset(hull.subrange(0, k as int)).count(e) > 0,
            forall|e: (usize, usize)| counts@.contains_key(e) ==> #[trigger] counts@[e] == edge_multiset(hull.subrange(0, k as int)).count(e),
            forall|e: (usize, usize)| #[trigger] all_edges@.contains(e) <==> edge_multiset(hull.subrange(0, k as int)).count(e) > 0,
        decreases n - k,
    {
        let t = convex_hull[k];
        let ghost m0 = edge_multiset(hull.subrange(0, k as int));
        let ghost m1 = m0.insert((t.0, t.1));
        let ghost m2 = m1.insert((t.1, t.2));
        let ghost m3 = m2.insert((t.2, t.0));
        proof {
            assert(hull.subrange(0, k + 1).drop_last() =~= hull.subrange(0, k as int));
            assert(hull.subrange(0, k + 1).last() == t);
            assert(m3 =~= edge_multiset(hull.subrange(0, k + 1)));
            lemma_prefix_edge_count(hull, k + 1, (t.0, t.1));
            lemma_prefix_edge_count(hull, k + 1, (t.1, t.2));
            lemma_prefix_edge_count(hull, k + 1, (t.2, t.0));
            assert(edge_multiset(hull).count((t.0, t.1)) <= u32::MAX);
            assert(edge_multiset(hull).count((t.1, t.2)) <= u32::MAX);
            assert(edge_multiset(hull).count((t.2, t.0)) <= u32::MAX);
        }
        bump_count(&mut counts, (t.0, t.1), Ghost(m0));
        bump_count(&mut counts, (t.1, t.2), Ghost(m1));
        bump_count(&mut counts, (t.2, t.0), Ghost(m2));
        let ghost before = all_edges@;
        all_edges.push((t.0, t.1));
        all_edges.push((t.1, t.2));
        all_edges.push((t.2, t.0));
        proof {
            assert forall|e: (usize, usize)| #[trigger] all_edges@.contains(e) <==> m3.count(e) > 0 by {
                if all_edges@.contains(e) {
                    let w = choose|w: int| 0 <= w < all_edges@.len() && all_edges@[w] == e;
                    if w < before.len() {
                        assert(before[w] == e);
                        assert(before.contains(e));
                        assert(m0.count(e) > 0);
                    } else {
                        assert(e == (t.0, t.1) || e == (t.1, t.2) || e == (t.2, t.0));
                    }
                }
                if m3.count(e) > 0 {
                    if m0.count(e) > 0 {
                        assert(before.contains(e));
                        let w = choose|w: int| 0 <= w < before.len() && before[w] == e;
                        assert(all_edges@[w] == e);
                    } else if e == (t.0, t.1) {
                        assert(all_edges@[before.len() as int] == e);
                    } else if e == (t.1, t.2) {
                        assert(all_edges@[before.len() as int + 1] == e);
                    } else {
                        assert(all_edges@[before.len() as int + 2] == e);
                    }
                }
            }
        }
        k += 1;
    }
    assert(hull.subrange(0, n as int) =~= hull);
    let ghost ms = edge_multiset(hull);
    let m = all_edges.len();
    let mut q: usize = 0;
    while q < m
        invariant
            m == all_edges@.len(),
            hull == convex_hull@,
            ms == edge_multiset(hull),
            q <= m,
            forall|e: (usize, usize)| #[trigger] counts@.contains_key(e) <==> ms.count(e) > 0,
            forall|e: (usize, usize)| counts@.contains_key(e) ==> #[trigger] counts@[e] == ms.count(e),
            forall|e: (usize, usize)| #[trigger] all_edges@.contains(e) <==> ms.count(e) > 0,
            forall|j: int| 0 <= j < q ==> ms.count(#[trigger] all_edges@[j]) == 1
                && ms.count(reverse_pair(all_edges@[j])) == 1,
        decreases m - q,
    {
        let e = all_edges[q];
        let here = pair_count_get(&counts, e);
        let back = pair_count_get(&counts, (e.1, e.0));
        let fine = match (here, back) {
            (Some(a), Some(b)) => a == 1 && b == 1,
            _ => false,
        };
        if !fine {
            proof {
                assert(all_edges@.contains(e));
                assert(ms.count(e) > 0);
                assert(!is_closed(ms)) by {
                    assert(ms.count(e) != 1 || ms.count(reverse_pair(e)) != 1);
                }
            }
            return Err(ConsistencyError::HullNotClosed);
        }
        q += 1;
    }
    proof {
        assert forall|e: (usize, usize)| #[trigger] ms.count(e) > 0 implies ms.count(e) == 1
            && ms.count(reverse_pair(e)) == 1 by {
            assert(all_edges@.contains(e));
            let w = choose|w: int| 0 <= w < all_edges@.len() && all_edges@[w] == e;
        }
    }
    let mut used = index_set_new();
    let mut k: usize = 0;
    while k < n
        invariant
            n == hull.len(),
            hull == convex_hull@,
            k <= n,
            used@ == used_vertices(hull.subrange(0, k as int)),
        decreases n - k,
    {
        let t = convex_hull[k];
        let ghost before = used@;
        index_set_insert(&mut used, t.0);
        index_set_insert(&mut used, t.1);
        index_set_insert(&mut used, t.2);
        proof {
            let prev = hull.subrange(0, k as int);
            let next = hull.subrange(0, k + 1);
            assert forall|v: usize| #[trigger] used@.contains(v) <==> is_vertex_of(next, v) by {
                if is_vertex_of(next, v) {
                    let i = choose|i: int| 0 <= i < next.len() && is_corner(#[trigger] next[i], v);
                    if i < k {
                        assert(prev[i] == next[i]);
                        assert(is_vertex_of(prev, v));
                    }
                }
                if is_vertex_of(prev, v) {
                    let i = choose|i: int| 0 <= i < prev.len() && is_corner(#[trigger] prev[i], v);
                    assert(next[i] == prev[i]);
                }
                if v == t.0 || v == t.1 || v == t.2 {
                    assert(next[k as int] == t);
                    assert(is_corner(next[k as int], v));
                }
            }
            assert(used@ =~= used_vertices(next));
        }
        k += 1;
    }
    assert(hull.subrange(0, n as int) =~= hull);
    let used_count = index_set_len(&used);
    if (n as u128) + 4 != 2 * (used_count as u128) {
        Err(ConsistencyError::EulerRelationError)
    } else {
        Ok(())
    }
}

/// Whether a vertex lies beyond the tolerance above some triangle, where
/// `row[t]` is its signed distance to triangle `t` (single-precision bit
/// patterns, compared by `>`).
pub open spec fn lies_outside(row: Seq<u32>, tolerance: u32) -> bool {
    exists|t: int| 0 <= t < row.len() && float_gt(#[trigger] row[t], tolerance)
}

/// A vertex lies outside exactly when one of its distances, whichever triangle
/// it belongs to, exceeds the tolerance: appending a distance to its row makes
/// it lie outside when that distance exceeds the tolerance, and otherwise
/// leaves the verdict as it was; a vertex with no distances lies inside.
pub proof fn lemma_lies_outside(row: Seq<u32>, d: u32, tolerance: u32)
    ensures
        lies_outside(row, tolerance) <==> exists|t: int| 0 <= t < row.len() && float_gt(
            #[trigger] row[t],
            tolerance,
        ),
        lies_outside(row.push(d), tolerance) <==> (lies_outside(row, tolerance) || float_gt(d, tolerance)),
        !lies_outside(Seq::<u32>::empty(), tolerance),
{
    let r2 = row.push(d);
    if lies_outside(r2, tolerance) {
        let t = choose|t: int| 0 <= t < r2.len() && float_gt(#[trigger] r2[t], tolerance);
        if t < row.len() {
            assert(row[t] == r2[t]);
        }
    }
    if lies_outside(row, tolerance) {
        let t = choose|t: int| 0 <= t < row.len() && float_gt(#[trigger] row[t], tolerance);
        assert(r2[t] == row[t]);
    }
    if float_gt(d, tolerance) {
        assert(r2[row.len() as int] == d);
    }
}

/// Whether the vertex at `j` is the first that lies outside.
pub open spec fn is_first_outside(distances: Seq<Vec<u32>>, tolerance: u32, j: int) -> bool {
    &&& 0 <= j < distances.len()
    &&& lies_outside(distances[j]@, tolerance)
    &&& forall|k: int| 0 <= k < j ==> !lies_outside((#[trigger] distances[k])@, tolerance)
}

/// Whether the row holds a distance beyond the tolerance.
fn row_lies_outside(row: &Vec<u32>, tolerance: u32) -> (r: bool)
    ensures
        r == lies_outside(row@, tolerance),
        r == exists|t: int| 0 <= t < row@.len() && float_gt(#[trigger] row@[t], tolerance),
{
    let m = row.len();
    let mut t: usize = 0;
    while t < m
        invariant
            m == row@.len(),
            t <= m,
            forall|q: int| 0 <= q < t ==> !float_gt(#[trigger] row@[q], tolerance),
        decreases m - t,
    {
        if bits_gt(row[t], tolerance) {
            assert(float_gt(row@[t as int], tolerance));
            return true;
        }
        t += 1;
    }
    false
}

/// The least vertex index whose row of signed distances to the hull triangles
/// holds one beyond the tolerance, if any: `distances[j][t]` is the signed
/// distance of vertex `j` to triangle `t`.
pub fn first_outside_vertex(distances: &Vec<Vec<u32>>, tolerance: u32) -> (r: Option<usize>)
    ensures
        r matches Some(j) ==> is_first_outside(distances@, tolerance, j as int),
        r matches Some(j) ==> {
            &&& j < distances@.len()
            &&& exists|t: int| 0 <= t < distances@[j as int]@.len() && float_gt(
                #[trigger] distances@[j as int]@[t],
                tolerance,
            )
            &&& forall|k: int, t: int| 0 <= k < j && 0 <= t < distances@[k]@.len() ==> !float_gt(
                #[trigger] distances@[k]@[t],
                tolerance,
            )
        },
        r is None <==> forall|k: int, t: int| 0 <= k < distances@.len() && 0 <= t < distances@[k]@.len()
            ==> !float_gt(#[trigger] distances@[k]@[t], tolerance),
        r is None <==> forall|j: int| 0 <= j < distances@.len() ==> !lies_outside(
            (#[trigger] distances@[j])@,
            tolerance,
        ),
{
    let n = distances.len();
    let mut j: usize = 0;
    while j < n
        invariant
            n == distances@.len(),
            j <= n,
            forall|k: int| 0 <= k < j ==> !lies_outside((#[trigger] distances@[k])@, tolerance),
        decreases n - j,
    {
        if row_lies_outside(&distances[j], tolerance) {
            return Some(j);
        }
        j += 1;
    }
    None
}

/// The consistency check of a computed hull: the first vertex that lies beyond
/// the tolerance above some hull triangle is reported; when there is none, the
/// combinatorial checks decide. `distances[j][t]` is the signed distance of
/// vertex `j` to triangle `t` and `tolerance` the tolerance, as single-precision
/// bit patterns.
pub fn check_consistency(
    distances: &Vec<Vec<u32>>,
    tolerance: u32,
    convex_hull: &[TriangleIndices],
) -> (r: Result<(), ConsistencyError>)
    requires
        forall|e: (usize, usize)| #[trigger] edge_multiset(convex_hull@).count(e) <= u32::MAX,
    ensures
        r matches Err(ConsistencyError::PointOutsideConvexHull(j)) ==> is_first_outside(
            distances@,
            tolerance,
            j as int,
        ),
        (r matches Err(ConsistencyError::PointOutsideConvexHull(_))) <==> exists|j: int|
            0 <= j < distances@.len() && lies_outside((#[trigger] distances@[j])@, tolerance),
        (forall|j: int| 0 <= j < distances@.len() ==> !lies_outside((#[trigger] distances@[j])@, tolerance))
            ==> r == spec_topology_check(convex_hull@),
        r matches Err(ConsistencyError::PointOutsideConvexHull(j)) ==> {
            &&& j < distances@.len()
            &&& exists|t: int| 0 <= t < distances@[j as int]@.len() && float_gt(
                #[trigger] distances@[j as int]@[t],
                tolerance,
            )
            &&& forall|k: int, t: int| 0 <= k < j && 0 <= t < distances@[k]@.len() ==> !float_gt(
                #[trigger] distances@[k]@[t],
                tolerance,
            )
        },
        (forall|k: int, t: int| 0 <= k < distances@.len() && 0 <= t < distances@[k]@.len()
            ==> !float_gt(#[trigger] distances@[k]@[t], tolerance)) ==> r == spec_topology_check(
            convex_hull@,
        ),
{
    match first_outside_vertex(distances, tolerance) {
        Some(j) => Err(ConsistencyError::PointOutsideConvexHull(j)),
        None => {
            let r = check_hull_topology(convex_hull);
            proof {
                if r matches Err(ConsistencyError::PointOutsideConvexHull(_)) {
                    assert(false);
                }
            }
            r
        },
    }
}

} // verus!
