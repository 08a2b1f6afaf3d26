//! The decisions of the quickhull construction: which vertex is picked, which
//! triangle a vertex is assigned to, which triangles a new vertex sees, and how
//! they are replaced by a cone over their seam.
//!
//! Distances and other single-precision quantities are handed in as bit
//! patterns; the comparisons are those of `float_order`.

use vstd::prelude::*;
use vstd::multiset::Multiset;
use crate::edge::{edge_pair, Edge};
use crate::float_order::{
    bits_gt, bits_total_key, float_gt, total_key, NEGATIVE_INFINITY, POSITIVE_ZERO,
};
use crate::hash_collections::{pair_set_contains, pair_set_elements, pair_set_insert, pair_set_new};
use crate::topology::{edge_multiset, horizon, swap_remove, sweep, swept_out, triangle_edges};
use crate::triangle::{fresh_triangle, with_assigned, Triangle, TriangleView};
use crate::triangle_indices::TriangleIndices;

verus! {

/// An element is in a sequence with one more element pushed exactly when it is
/// that element or was in the sequence.
pub proof fn lemma_push_contains<A>(s: Seq<A>, a: A, x: A)
    ensures
        s.push(a).contains(x) <==> (s.contains(x) || x == a),
{
    if s.contains(x) {
        let w = choose|w: int| 0 <= w < s.len() && s[w] == x;
        assert(s.push(a)[w] == x);
    }
    if x == a {
        assert(s.push(a)[s.len() as int] == x);
    }
    if s.push(a).contains(x) {
        let w = choose|w: int| 0 <= w < s.push(a).len() && s.push(a)[w] == x;
        if w < s.len() {
            assert(s[w] == x);
        }
    }
}

// ---------------------------------------------------------------------------
// Picking the vertex with the largest probe value.
// ---------------------------------------------------------------------------

/// Position `p` holds the largest probe value in the IEEE-754 total order, and
/// no later position holds an equally large one.
pub open spec fn is_last_maximum(probes: Seq<u32>, p: int) -> bool {
    &&& 0 <= p < probes.len()
    &&& forall|j: int| 0 <= j < probes.len() ==> total_key(#[trigger] probes[j]) <= total_key(probes[p])
    &&& forall|j: int| p < j < probes.len() ==> total_key(#[trigger] probes[j]) < total_key(probes[p])
}

/// The numbers `0..n`, in order.
pub fn initial_vertex_list(n: usize) -> (r: Vec<usize>)
    ensures
        r@ == Seq::new(n as nat, |i: int| i as usize),
        r@.no_duplicates(),
{
    let mut r: Vec<usize> = Vec::new();
    let mut i: usize = 0;
    while i < n
        invariant
            i <= n,
            r@ == Seq::new(i as nat, |k: int| k as usize),
        decreases n - i,
    {
        r.push(i);
        i += 1;
    }
    assert forall|a: int, b: int| 0 <= a < r@.len() && 0 <= b < r@.len() && a != b implies r@[a] != r@[b] by {}
    r
}

/// Finds the vertex of the list with the highest probe value (`probes[k]` is the
/// value of `vertex_list[k]`, as a single-precision bit pattern, compared in the
/// IEEE-754 total order, the last one among equals), removes it from the list by
/// `swap_remove` and returns it.
pub fn get_best_index_and_remove(vertex_list: &mut Vec<usize>, probes: &Vec<u32>) -> (r: usize)
    requires
        old(vertex_list)@.len() > 0,
        probes@.len() == old(vertex_list)@.len(),
    ensures
        exists|p: int|
            #![trigger is_last_maximum(probes@, p)]
            is_last_maximum(probes@, p) && r == old(vertex_list)@[p] && final(vertex_list)@
                == swap_remove(old(vertex_list)@, p),
        forall|x: usize| #[trigger] final(vertex_list)@.contains(x) ==> old(vertex_list)@.contains(x),
        old(vertex_list)@.no_duplicates() ==> final(vertex_list)@.no_duplicates()
            && !final(vertex_list)@.contains(r),
        exists|p: int|
            0 <= p < old(vertex_list)@.len() && r == old(vertex_list)@[p]
                && final(vertex_list)@ == swap_remove(old(vertex_list)@, p)
                && (forall|j: int| 0 <= j < old(vertex_list)@.len()
                    ==> total_key(#[trigger] probes@[j]) <= total_key(probes@[p]))
                && (forall|j: int| p < j < old(vertex_list)@.len()
                    ==> total_key(#[trigger] probes@[j]) < total_key(probes@[p])),
        final(vertex_list)@.len() == old(vertex_list)@.len() - 1,
        final(vertex_list)@.to_multiset().insert(r) == old(vertex_list)@.to_multiset(),
{
    let n = vertex_list.len();
    let mut best: usize = 0;
    let mut best_key = bits_total_key(probes[0]);
    let mut k: usize = 1;
    while k < n
        invariant
            n == vertex_list@.len(),
            n == probes@.len(),
            1 <= k <= n,
            best < k,
            best_key == total_key(probes@[best as int]),
            forall|j: int| 0 <= j < k ==> total_key(#[trigger] probes@[j]) <= best_key,
            forall|j: int| best < j < k ==> total_key(#[trigger] probes@[j]) < best_key,
        decreases n - k,
    {
        let key = bits_total_key(probes[k]);
        if key >= best_key {
            best = k;
            best_key = key;
        }
        k += 1;
    }
    let ghost before = vertex_list@;
    let r = vertex_list.swap_remove(best);
    assert(is_last_maximum(probes@, best as int));
    proof {
        lemma_swap_remove_no_duplicates(before, best as int);
        lemma_swap_remove_multiset(before, best as int);
    }
    r
}

/// `swap_remove` loses exactly one occurrence of the removed element.
proof fn lemma_swap_remove_multiset(s: Seq<usize>, p: int)
    requires
        0 <= p < s.len(),
    ensures
        swap_remove(s, p).to_multiset().insert(s[p]) == s.to_multiset(),
{
    broadcast use vstd::seq_lib::group_to_multiset_ensures;
    let n = s.len() as int;
    let last = s[n - 1];
    let init = s.drop_last();
    assert(s =~= init.push(last));
    if p == n - 1 {
        assert(swap_remove(s, p) =~= init);
    } else {
        assert(swap_remove(s, p) =~= init.update(p, last));
        assert(init.update(p, last).to_multiset() == init.to_multiset().insert(last).remove(init[p]));
        assert(init[p] == s[p]);
    }
}

/// Among probe values with at least one entry there is exactly one last
/// maximum in the IEEE-754 total order, and it is characterised over every
/// entry of the list: no entry is greater, and every later entry is smaller.
pub proof fn lemma_last_maximum(probes: Seq<u32>, p: int)
    requires
        probes.len() > 0,
    ensures
        exists|q: int| is_last_maximum(probes, q),
        is_last_maximum(probes, p) <==> (0 <= p < probes.len() && (forall|j: int|
            0 <= j < probes.len() ==> total_key(#[trigger] probes[j]) <= total_key(probes[p]))
            && (forall|j: int| p < j < probes.len() ==> total_key(#[trigger] probes[j]) < total_key(probes[p]))),
        forall|q: int| is_last_maximum(probes, p) && is_last_maximum(probes, q) ==> p == q,
{
    lemma_last_maximum_of_prefix(probes, probes.len() as int);
    let w = choose|q: int| is_last_maximum(probes.subrange(0, probes.len() as int), q);
    assert(probes.subrange(0, probes.len() as int) =~= probes);
    assert forall|q: int| is_last_maximum(probes, p) && is_last_maximum(probes, q) implies p == q by {
        if p < q {
            assert(total_key(probes[q]) < total_key(probes[p]));
        } else if q < p {
            assert(total_key(probes[p]) < total_key(probes[q]));
        }
    }
}

/// Every nonempty prefix of the probe values has a last maximum.
proof fn lemma_last_maximum_of_prefix(probes: Seq<u32>, k: int)
    requires
        0 < k <= probes.len(),
    ensures
        exists|q: int| is_last_maximum(probes.subrange(0, k), q),
    decreases k,
{
    let pre = probes.subrange(0, k);
    if k == 1 {
        assert(is_last_maximum(pre, 0));
    } else {
        lemma_last_maximum_of_prefix(probes, k - 1);
        let sub = probes.subrange(0, k - 1);
        let q = choose|q: int| is_last_maximum(sub, q);
        assert forall|j: int| 0 <= j < k - 1 implies #[trigger] pre[j] == sub[j] by {}
        if total_key(pre[k - 1]) >= total_key(pre[q]) {
            assert forall|j: int| 0 <= j < pre.len() implies total_key(#[trigger] pre[j]) <= total_key(pre[k - 1]) by {
                if j < k - 1 {
                    assert(total_key(sub[j]) <= total_key(sub[q]));
                }
            }
            assert(is_last_maximum(pre, k - 1));
        } else {
            assert forall|j: int| 0 <= j < pre.len() implies total_key(#[trigger] pre[j]) <= total_key(pre[q]) by {
                if j < k - 1 {
                    assert(total_key(sub[j]) <= total_key(sub[q]));
                }
            }
            assert forall|j: int| q < j < pre.len() implies total_key(#[trigger] pre[j]) < total_key(pre[q]) by {
                if j < k - 1 {
                    assert(total_key(sub[j]) < total_key(sub[q]));
                }
            }
            assert(is_last_maximum(pre, q));
        }
    }
}

/// `swap_remove` keeps only elements of the sequence; on a sequence without
/// repeats it keeps none twice and drops the removed element.
pub proof fn lemma_swap_remove_no_duplicates(s: Seq<usize>, p: int)
    requires
        0 <= p < s.len(),
    ensures
        forall|x: usize| #[trigger] swap_remove(s, p).contains(x) ==> s.contains(x),
        s.no_duplicates() ==> swap_remove(s, p).no_duplicates() && !swap_remove(s, p).contains(s[p]),
{
    let t = swap_remove(s, p);
    let n = s.len() as int;
    assert forall|a: int| 0 <= a < t.len() implies (#[trigger] t[a] == s[a] && a != p) || (a == p && t[a] == s[n - 1]) by {}
    assert forall|x: usize| #[trigger] t.contains(x) implies s.contains(x) by {
        let a = choose|a: int| 0 <= a < t.len() && t[a] == x;
        if a == p {
            assert(s[n - 1] == x);
        } else {
            assert(s[a] == x);
        }
    }
    if s.no_duplicates() {
        assert forall|a: int, b: int| 0 <= a < t.len() && 0 <= b < t.len() && a != b implies t[a] != t[b] by {
            let a2 = if a == p { n - 1 } else { a };
            let b2 = if b == p { n - 1 } else { b };
            assert(t[a] == s[a2] && t[b] == s[b2]);
        }
        assert(!t.contains(s[p])) by {
            if t.contains(s[p]) {
                let a = choose|a: int| 0 <= a < t.len() && t[a] == s[p];
                let a2 = if a == p { n - 1 } else { a };
                assert(t[a] == s[a2]);
            }
        }
    }
}

// ---------------------------------------------------------------------------
// Choosing the triangle a vertex is assigned to.
// ---------------------------------------------------------------------------

/// Position `i` holds a value beyond `floor` that no value is beyond, and every
/// earlier value beyond `floor` is below it: the first of the greatest values
/// that exceed `floor`.
pub open spec fn is_first_greatest(values: Seq<u32>, floor: u32, i: int) -> bool {
    &&& 0 <= i < values.len()
    &&& float_gt(values[i], floor)
    &&& forall|j: int|
        0 <= j < values.len() && float_gt(#[trigger] values[j], floor) ==> !float_gt(
            values[j],
            values[i],
        )
    &&& forall|j: int| 0 <= j < i && float_gt(#[trigger] values[j], floor) ==> float_gt(values[i], values[j])
}

/// The position of the first of the greatest values that exceed `floor`, if any
/// value does.
pub open spec fn first_greatest(values: Seq<u32>, floor: u32) -> Option<int> {
    if exists|i: int| is_first_greatest(values, floor, i) {
        Some(choose|i: int| is_first_greatest(values, floor, i))
    } else {
        None
    }
}

/// There is at most one first greatest position.
pub proof fn lemma_first_greatest_unique(values: Seq<u32>, floor: u32, a: int, b: int)
    requires
        is_first_greatest(values, floor, a),
        is_first_greatest(values, floor, b),
    ensures
        a == b,
{
    if a < b {
        assert(float_gt(values[b], values[a]));
        assert(!float_gt(values[b], values[a]));
    } else if b < a {
        assert(float_gt(values[a], values[b]));
        assert(!float_gt(values[a], values[b]));
    }
}

/// The first greatest position is characterised over every value: it holds a
/// value beyond the floor that no value beyond the floor exceeds, and it exceeds
/// every earlier value beyond the floor; there is one exactly when some value
/// lies beyond the floor.
pub proof fn lemma_first_greatest(values: Seq<u32>, floor: u32, i: int)
    ensures
        is_first_greatest(values, floor, i) <==> {
            &&& 0 <= i < values.len()
            &&& float_gt(values[i], floor)
            &&& forall|j: int| 0 <= j < values.len() && float_gt(#[trigger] values[j], floor)
                ==> !float_gt(values[j], values[i])
            &&& forall|j: int| 0 <= j < i && float_gt(#[trigger] values[j], floor)
                ==> float_gt(values[i], values[j])
        },
        first_greatest(values, floor) is Some <==> exists|j: int| 0 <= j < values.len() && float_gt(
            #[trigger] values[j],
            floor,
        ),
        first_greatest(values, floor) matches Some(p) ==> is_first_greatest(values, floor, p),
{
    lemma_first_greatest_of_prefix(values, floor, values.len() as int);
    assert(values.subrange(0, values.len() as int) =~= values);
    if first_greatest(values, floor) is Some {
        let p = choose|p: int| is_first_greatest(values, floor, p);
        assert(float_gt(values[p], floor));
    }
}

/// Among the first `k` values either none lies beyond the floor, or one is the
/// first greatest of them.
proof fn lemma_first_greatest_of_prefix(values: Seq<u32>, floor: u32, k: int)
    requires
        0 <= k <= values.len(),
    ensures
        (forall|j: int| 0 <= j < k ==> !float_gt(#[trigger] values[j], floor))
            || exists|i: int| is_first_greatest(values.subrange(0, k), floor, i),
    decreases k,
{
    if k > 0 {
        lemma_first_greatest_of_prefix(values, floor, k - 1);
        let prefix = values.subrange(0, k - 1);
        let next = values.subrange(0, k);
        let last = k - 1;
        if exists|i: int| is_first_greatest(prefix, floor, i) {
            let i = choose|i: int| is_first_greatest(prefix, floor, i);
            if float_gt(values[last], values[i]) {
                assert forall|j: int| 0 <= j < next.len() && float_gt(#[trigger] next[j], floor)
                    implies !float_gt(next[j], next[last]) by {
                    if j < last {
                        assert(next[j] == prefix[j]);
                    }
                }
                assert forall|j: int| 0 <= j < last && float_gt(#[trigger] next[j], floor)
                    implies float_gt(next[last], next[j]) by {
                    assert(next[j] == prefix[j]);
                }
                assert(is_first_greatest(next, floor, last));
            } else {
                assert forall|j: int| 0 <= j < next.len() && float_gt(#[trigger] next[j], floor)
                    implies !float_gt(next[j], next[i]) by {
                    if j < last {
                        assert(next[j] == prefix[j]);
                    }
                }
                assert forall|j: int| 0 <= j < i && float_gt(#[trigger] next[j], floor)
                    implies float_gt(next[i], next[j]) by {
                    assert(next[j] == prefix[j]);
                }
                assert(next[i] == prefix[i]);
                assert(is_first_greatest(next, floor, i));
            }
        } else {
            assert forall|j: int| 0 <= j < last implies !float_gt(#[trigger] values[j], floor) by {
                assert(values[j] == prefix[j]);
            }
            if float_gt(values[last], floor) {
                assert(is_first_greatest(next, floor, last));
            }
        }
    }
}

/// Picks, among the distances of one vertex to a run of triangles, the triangle
/// it is furthest above, provided that distance exceeds the tolerance; of equal
/// distances the first counts.
pub fn choose_triangle(distances: &Vec<u32>, tolerance: u32) -> (r: Option<usize>)
    ensures
        r matches Some(i) ==> first_greatest(distances@, tolerance) == Some(i as int)
            && is_first_greatest(distances@, tolerance, i as int),
        r is None ==> first_greatest(distances@, tolerance) is None,
        r is None <==> forall|j: int|
            0 <= j < distances@.len() ==> !float_gt(#[trigger] distances@[j], tolerance),
        r matches Some(i) ==> {
            &&& i < distances@.len()
            &&& float_gt(distances@[i as int], tolerance)
            &&& forall|j: int| 0 <= j < distances@.len() && float_gt(#[trigger] distances@[j], tolerance)
                ==> !float_gt(distances@[j], distances@[i as int])
            &&& forall|j: int| 0 <= j < i && float_gt(#[trigger] distances@[j], tolerance)
                ==> float_gt(distances@[i as int], distances@[j])
        },
{
    let n = distances.len();
    let mut best: Option<usize> = None;
    let mut best_dist: u32 = tolerance;
    let mut k: usize = 0;
    while k < n
        invariant
            n == distances@.len(),
            k <= n,
            best is None ==> best_dist == tolerance && forall|j: int|
                0 <= j < k ==> !float_gt(#[trigger] distances@[j], tolerance),
            best matches Some(i) ==> i < k && best_dist == distances@[i as int]
                && is_first_greatest(distances@.subrange(0, k as int), tolerance, i as int),
        decreases n - k,
    {
        let d = distances[k];
        let ghost prefix = distances@.subrange(0, k as int);
        let ghost next = distances@.subrange(0, k + 1);
        if bits_gt(d, best_dist) {
            proof {
                assert forall|j: int| 0 <= j < next.len() && float_gt(#[trigger] next[j], tolerance)
                    implies !float_gt(next[j], d) by {
                    if j < k {
                        assert(next[j] == prefix[j]);
                    }
                }
                assert forall|j: int| 0 <= j < k && float_gt(#[trigger] next[j], tolerance)
                    implies float_gt(d, next[j]) by {
                    assert(next[j] == prefix[j]);
                }
                assert(is_first_greatest(next, tolerance, k as int));
            }
            best = Some(k);
            best_dist = d;
        } else {
            proof {
                if let Some(i) = best {
                    assert forall|j: int| 0 <= j < next.len() && float_gt(#[trigger] next[j], tolerance)
                        implies !float_gt(next[j], next[i as int]) by {
                        if j < k {
                            assert(next[j] == prefix[j]);
                        }
                    }
                    assert forall|j: int| 0 <= j < i && float_gt(#[trigger] next[j], tolerance)
                        implies float_gt(next[i as int], next[j]) by {
                        assert(next[j] == prefix[j]);
                    }
                    assert(next[i as int] == prefix[i as int]);
                    assert(is_first_greatest(next, tolerance, i as int));
                }
            }
        }
        k += 1;
    }
    assert(distances@.subrange(0, n as int) =~= distances@);
    match best {
        Some(i) => {
            proof {
                let c = choose|c: int| is_first_greatest(distances@, tolerance, c);
                lemma_first_greatest_unique(distances@, tolerance, c, i as int);
            }
        },
        None => {
            assert(!exists|i: int| is_first_greatest(distances@, tolerance, i));
        },
    }
    best
}

// ---------------------------------------------------------------------------
// The hull under construction.
// ---------------------------------------------------------------------------

/// The corner triples of a run of triangles.
pub open spec fn faces_of(ts: Seq<TriangleView>) -> Seq<TriangleIndices> {
    ts.map_values(|t: TriangleView| t.indices)
}

/// The vertices assigned to a run of triangles, triangle after triangle.
pub open spec fn gathered(ts: Seq<TriangleView>) -> Seq<usize>
    decreases ts.len(),
{
    if ts.len() == 0 {
        Seq::empty()
    } else {
        gathered(ts.drop_last()) + ts.last().assigned
    }
}

/// Which triangles a vertex at the given signed distances sees: those it lies
/// strictly above.
pub open spec fn visible_flags(distances: Seq<u32>) -> Seq<bool> {
    distances.map_values(|d: u32| float_gt(d, POSITIVE_ZERO))
}

/// The seam edges as index pairs.
pub open spec fn pairs_of(seam: Seq<Edge>) -> Seq<(usize, usize)> {
    seam.map_values(|e: Edge| edge_pair(e))
}

/// The fresh triangles joining each seam edge to the apex.
pub open spec fn cone_triangles(seam: Seq<Edge>, apex: usize) -> Seq<TriangleView> {
    seam.map_values(|e: Edge| fresh_triangle(TriangleIndices(e.start, e.end, apex)))
}

/// The four triangles of the initial tetrahedron over `i0, i1, i2, i3`, in the
/// winding that faces away from `i3` unless `flip`, in which case each triangle
/// has its second and third corner exchanged.
pub open spec fn tetrahedron(i0: usize, i1: usize, i2: usize, i3: usize, flip: bool) -> Seq<TriangleView> {
    if !flip {
        seq![
            fresh_triangle(TriangleIndices(i0, i1, i2)),
            fresh_triangle(TriangleIndices(i1, i0, i3)),
            fresh_triangle(TriangleIndices(i2, i1, i3)),
            fresh_triangle(TriangleIndices(i3, i0, i2)),
        ]
    } else {
        seq![
            fresh_triangle(TriangleIndices(i0, i2, i1)),
            fresh_triangle(TriangleIndices(i1, i3, i0)),
            fresh_triangle(TriangleIndices(i2, i3, i1)),
            fresh_triangle(TriangleIndices(i3, i2, i0)),
        ]
    }
}

/// What the views of a run of triangles and of a seam say: the corners of each
/// triangle in order, the seam edges as pairs, the fresh cone triangle of each
/// seam edge, visibility as lying strictly above zero, and the assigned
/// vertices of the triangles one triangle after another.
pub proof fn lemma_views(ts: Seq<TriangleView>, t: TriangleView, seam: Seq<Edge>, apex: usize, d: Seq<u32>)
    ensures
        faces_of(ts).len() == ts.len(),
        forall|i: int| 0 <= i < ts.len() ==> #[trigger] faces_of(ts)[i] == ts[i].indices,
        pairs_of(seam).len() == seam.len(),
        forall|k: int| 0 <= k < seam.len() ==> #[trigger] pairs_of(seam)[k] == (seam[k].start, seam[k].end),
        cone_triangles(seam, apex).len() == seam.len(),
        forall|k: int| 0 <= k < seam.len() ==> {
            let c = #[trigger] cone_triangles(seam, apex)[k];
            &&& c.indices == TriangleIndices(seam[k].start, seam[k].end, apex)
            &&& c.assigned.len() == 0
            &&& c.furthest is None
        },
        visible_flags(d).len() == d.len(),
        forall|i: int| 0 <= i < d.len() ==> #[trigger] visible_flags(d)[i] == float_gt(d[i], POSITIVE_ZERO),
        gathered(Seq::<TriangleView>::empty()) == Seq::<usize>::empty(),
        gathered(ts.push(t)) == gathered(ts) + t.assigned,
{
    assert(ts.push(t).drop_last() =~= ts);
}

/// How assignment proceeds vertex by vertex: with no vertex nothing changes;
/// the next vertex, unless it is the excluded one, is appended to the triangle
/// at `first + j` for the first greatest of its distances `j` beyond the
/// tolerance, as with `with_assigned`, and dropped when there is none.
pub proof fn lemma_assignment_steps(
    ts: Seq<TriangleView>,
    first: int,
    vertices: Seq<usize>,
    exclusion: usize,
    tolerance: u32,
    distances: Seq<Vec<u32>>,
    k: nat,
)
    ensures
        assign_prefix(ts, first, vertices, exclusion, tolerance, distances, 0) == ts,
        ({
            let prev = assign_prefix(ts, first, vertices, exclusion, tolerance, distances, k);
            let next = assign_prefix(ts, first, vertices, exclusion, tolerance, distances, k + 1);
            &&& vertices[k as int] == exclusion ==> next == prev
            &&& vertices[k as int] != exclusion && first_greatest(distances[k as int]@, tolerance) is None
                ==> next == prev
            &&& vertices[k as int] != exclusion ==> (first_greatest(distances[k as int]@, tolerance)
                matches Some(j) ==> next == prev.update(
                first + j,
                with_assigned(prev[first + j], vertices[k as int], distances[k as int]@[j]),
            ))
        }),
{
    assert(((k + 1) - 1) as nat == k);
}

/// The corners of the initial tetrahedron, in the order the construction lays
/// them, for either winding.
pub open spec fn tetrahedron_corners(i0: usize, i1: usize, i2: usize, i3: usize, flip: bool) -> Seq<TriangleIndices> {
    if flip {
        seq![
            TriangleIndices(i0, i2, i1),
            TriangleIndices(i1, i3, i0),
            TriangleIndices(i2, i3, i1),
            TriangleIndices(i3, i2, i0),
        ]
    } else {
        seq![
            TriangleIndices(i0, i1, i2),
            TriangleIndices(i1, i0, i3),
            TriangleIndices(i2, i1, i3),
            TriangleIndices(i3, i0, i2),
        ]
    }
}

/// The initial tetrahedron consists of four triangles with nothing assigned,
/// whose corners are the triangle of the first three picks and the three
/// triangles joining its edges, reversed, to the fourth pick; flipping exchanges
/// the second and third corner of each.
pub proof fn lemma_tetrahedron_shape(i0: usize, i1: usize, i2: usize, i3: usize, flip: bool)
    ensures
        tetrahedron(i0, i1, i2, i3, flip).len() == 4,
        forall|k: int| 0 <= k < 4 ==> (#[trigger] tetrahedron(i0, i1, i2, i3, flip)[k]).assigned.len() == 0
            && tetrahedron(i0, i1, i2, i3, flip)[k].furthest is None,
        faces_of(tetrahedron(i0, i1, i2, i3, flip)) == tetrahedron_corners(i0, i1, i2, i3, flip),
        tetrahedron_corners(i0, i1, i2, i3, false)[0] == TriangleIndices(i0, i1, i2),
        forall|k: int| 0 <= k < 4 ==> {
            let a = #[trigger] tetrahedron_corners(i0, i1, i2, i3, false)[k];
            let b = tetrahedron_corners(i0, i1, i2, i3, true)[k];
            b == TriangleIndices(a.0, a.2, a.1)
        },
{
    assert(faces_of(tetrahedron(i0, i1, i2, i3, flip)) =~= tetrahedron_corners(i0, i1, i2, i3, flip));
}

/// The corners of the four triangles of the initial tetrahedron over the picks,
/// flipped when `apex_distance` is greater than zero, in the order in which
/// the construction lays them.
pub fn tetrahedron_faces(picks: [usize; 4], apex_distance: u32) -> (r: Vec<TriangleIndices>)
    ensures
        r@ == faces_of(
            tetrahedron(picks@[0], picks@[1], picks@[2], picks@[3], float_gt(apex_distance, POSITIVE_ZERO)),
        ),
        r@ == (if float_gt(apex_distance, POSITIVE_ZERO) {
            seq![
                TriangleIndices(picks[0], picks[2], picks[1]),
                TriangleIndices(picks[1], picks[3], picks[0]),
                TriangleIndices(picks[2], picks[3], picks[1]),
                TriangleIndices(picks[3], picks[2], picks[0]),
            ]
        } else {
            seq![
                TriangleIndices(picks[0], picks[1], picks[2]),
                TriangleIndices(picks[1], picks[0], picks[3]),
                TriangleIndices(picks[2], picks[1], picks[3]),
                TriangleIndices(picks[3], picks[0], picks[2]),
            ]
        }),
{
    let (i0, i1, i2, i3) = (picks[0], picks[1], picks[2], picks[3]);
    let r = if bits_gt(apex_distance, POSITIVE_ZERO) {
        vec![
            TriangleIndices(i0, i2, i1),
            TriangleIndices(i1, i3, i0),
            TriangleIndices(i2, i3, i1),
            TriangleIndices(i3, i2, i0),
        ]
    } else {
        vec![
            TriangleIndices(i0, i1, i2),
            TriangleIndices(i1, i0, i3),
            TriangleIndices(i2, i1, i3),
            TriangleIndices(i3, i0, i2),
        ]
    };
    assert(r@ =~= faces_of(tetrahedron(i0, i1, i2, i3, float_gt(apex_distance, POSITIVE_ZERO))));
    r
}

/// The triangles after the first `k` vertices of the list are assigned: each
/// vertex other than `exclusion` goes to the triangle at `first + j`, where `j`
/// is the first greatest of its distances to the triangles from `first` on that
/// exceeds the tolerance; a vertex with no such triangle is dropped.
pub open spec fn assign_prefix(
    ts: Seq<TriangleView>,
    first: int,
    vertices: Seq<usize>,
    exclusion: usize,
    tolerance: u32,
    distances: Seq<Vec<u32>>,
    k: nat,
) -> Seq<TriangleView>
    decreases k,
{
    if k == 0 {
        ts
    } else {
        let prev = assign_prefix(ts, first, vertices, exclusion, tolerance, distances, (k - 1) as nat);
        let v = vertices[k - 1];
        if v == exclusion {
            prev
        } else {
            match first_greatest(distances[k - 1]@, tolerance) {
                Some(j) => prev.update(
                    first + j,
                    with_assigned(prev[first + j], v, distances[k - 1]@[j]),
                ),
                None => prev,
            }
        }
    }
}

/// Position `i` holds a triangle with a furthest vertex whose distance is beyond
/// negative infinity and no other is beyond, the first such.
pub open spec fn is_best_triangle(ts: Seq<TriangleView>, i: int) -> bool {
    &&& 0 <= i < ts.len()
    &&& has_candidate(ts[i])
    &&& forall|j: int|
        0 <= j < ts.len() && has_candidate(#[trigger] ts[j]) ==> !float_gt(
            ts[j].furthest.unwrap().1,
            ts[i].furthest.unwrap().1,
        )
    &&& forall|j: int|
        0 <= j < i && has_candidate(#[trigger] ts[j]) ==> float_gt(
            ts[i].furthest.unwrap().1,
            ts[j].furthest.unwrap().1,
        )
}

/// The triangle has a furthest vertex whose distance is beyond negative infinity.
pub open spec fn has_candidate(t: TriangleView) -> bool {
    t.furthest is Some && float_gt(t.furthest.unwrap().1, NEGATIVE_INFINITY)
}

/// The next vertex to add to the hull: the furthest vertex of the triangle with
/// the greatest furthest distance, the first such triangle; none when no
/// triangle has a vertex assigned beyond negative infinity.
pub open spec fn best_vertex(ts: Seq<TriangleView>) -> Option<usize> {
    if exists|i: int| is_best_triangle(ts, i) {
        Some(ts[choose|i: int| is_best_triangle(ts, i)].furthest.unwrap().0)
    } else {
        None
    }
}

/// The hull as it stands during construction.
pub struct HullConstructor {
    hull_triangles: Vec<Triangle>,
}

impl View for HullConstructor {
    type V = Seq<TriangleView>;

    closed spec fn view(&self) -> Seq<TriangleView> {
        self.hull_triangles@.map_values(|t: Triangle| t@)
    }
}

impl HullConstructor {
    /// A construction with no triangles yet.
    pub fn new() -> (r: Self)
        ensures
            r@ == Seq::<TriangleView>::empty(),
    {
        let r = HullConstructor { hull_triangles: Vec::new() };
        assert(r@ =~= Seq::<TriangleView>::empty());
        r
    }

    /// The number of triangles.
    pub fn triangle_count(&self) -> (r: usize)
        ensures
            r == self@.len(),
    {
        self.hull_triangles.len()
    }

    /// The triangle at position `i`.
    pub fn triangle(&self, i: usize) -> (r: &Triangle)
        requires
            i < self@.len(),
        ensures
            r@ == self@[i as int],
    {
        &self.hull_triangles[i]
    }

    /// Sets the initial tetrahedron over the four picked vertices. When
    /// `apex_distance`, the signed distance of `i3` to the triangle
    /// `(i0, i1, i2)`, is greater than zero, all four triangles are flipped.
    pub fn build_initial_tetrahedron(&mut self, picks: [usize; 4], apex_distance: u32)
        requires
            old(self)@.len() == 0,
        ensures
            final(self)@ == tetrahedron(
                picks@[0],
                picks@[1],
                picks@[2],
                picks@[3],
                float_gt(apex_distance, POSITIVE_ZERO),
            ),
            final(self)@.len() == 4,
            forall|k: int| 0 <= k < 4 ==> (#[trigger] final(self)@[k]).assigned.len() == 0
                && final(self)@[k].furthest is None,
            faces_of(final(self)@) == tetrahedron_corners(
                picks[0],
                picks[1],
                picks[2],
                picks[3],
                float_gt(apex_distance, POSITIVE_ZERO),
            ),
    {
        proof {
            lemma_tetrahedron_shape(picks[0], picks[1], picks[2], picks[3], float_gt(apex_distance, POSITIVE_ZERO));
        }
        let i0 = picks[0];
        let i1 = picks[1];
        let i2 = picks[2];
        let i3 = picks[3];
        let mut triangles: Vec<Triangle> = Vec::new();
        triangles.push(Triangle::new([i0, i1, i2]));
        triangles.push(Triangle::new([i1, i0, i3]));
        triangles.push(Triangle::new([i2, i1, i3]));
        triangles.push(Triangle::new([i3, i0, i2]));
        if bits_gt(apex_distance, POSITIVE_ZERO) {
            let mut flipped: Vec<Triangle> = Vec::new();
            let mut k: usize = 0;
            while k < 4
                invariant
                    triangles@.len() == 4,
                    k <= 4,
                    flipped@.len() == k,
                    forall|j: int| 0 <= j < k ==> (#[trigger] flipped@[j])@ == fresh_triangle(
                        TriangleIndices(
                            triangles@[j]@.indices.0,
                            triangles@[j]@.indices.2,
                            triangles@[j]@.indices.1,
                        ),
                    ),
                decreases 4 - k,
            {
                flipped.push(triangles[k].get_flipped_version());
                k += 1;
            }
            triangles = flipped;
        }
        self.hull_triangles = triangles;
        assert(self@ =~= tetrahedron(i0, i1, i2, i3, float_gt(apex_distance, POSITIVE_ZERO)));
    }

    /// The furthest vertex of the triangle with the greatest furthest distance,
    /// if any triangle has a vertex assigned.
    pub fn get_best_vertex(&self) -> (r: Option<usize>)
        ensures
            r == best_vertex(self@),
            r is None <==> forall|j: int| 0 <= j < self@.len() && (#[trigger] self@[j]).furthest is Some
                ==> !float_gt(self@[j].furthest.unwrap().1, NEGATIVE_INFINITY),
            r matches Some(v) ==> exists|i: int| {
                &&& 0 <= i < self@.len()
                &&& (#[trigger] self@[i]).furthest is Some
                &&& self@[i].furthest.unwrap().0 == v
                &&& float_gt(self@[i].furthest.unwrap().1, NEGATIVE_INFINITY)
                &&& forall|j: int| 0 <= j < self@.len() && (#[trigger] self@[j]).furthest is Some
                    && float_gt(self@[j].furthest.unwrap().1, NEGATIVE_INFINITY) ==> !float_gt(
                    self@[j].furthest.unwrap().1,
                    self@[i].furthest.unwrap().1,
                )
                &&& forall|j: int| 0 <= j < i && (#[trigger] self@[j]).furthest is Some && float_gt(
                    self@[j].furthest.unwrap().1,
                    NEGATIVE_INFINITY,
                ) ==> float_gt(self@[i].furthest.unwrap().1, self@[j].furthest.unwrap().1)
            },
    {
        let n = self.hull_triangles.len();
        let mut best: Option<usize> = None;
        let mut candidate: Option<usize> = None;
        let mut best_dist: u32 = NEGATIVE_INFINITY;
        let mut k: usize = 0;
        while k < n
            invariant
                n == self@.len(),
                k <= n,
                best is None ==> candidate is None && best_dist == NEGATIVE_INFINITY && forall|j: int|
                    0 <= j < k ==> !has_candidate(#[trigger] self@[j]),
                best matches Some(i) ==> i < k && best_dist == self@[i as int].furthest.unwrap().1
                    && candidate == Some(self@[i as int].furthest.unwrap().0)
                    && is_best_triangle(self@.subrange(0, k as int), i as int),
            decreases n - k,
        {
            let ghost prefix = self@.subrange(0, k as int);
            let ghost next = self@.subrange(0, k + 1);
            let f = self.hull_triangles[k].furthest_vertex_and_dist();
            assert(f == self@[k as int].furthest);
            if let Some((vertex, dist)) = f {
                if bits_gt(dist, best_dist) {
                    proof {
                        assert forall|j: int| 0 <= j < next.len() && has_candidate(#[trigger] next[j])
                            implies !float_gt(next[j].furthest.unwrap().1, dist) by {
                            if j < k {
                                assert(next[j] == prefix[j]);
                            }
                        }
                        assert forall|j: int| 0 <= j < k && has_candidate(#[trigger] next[j])
                            implies float_gt(dist, next[j].furthest.unwrap().1) by {
                            assert(next[j] == prefix[j]);
                        }
                        assert(is_best_triangle(next, k as int));
                    }
                    best = Some(k);
                    candidate = Some(vertex);
                    best_dist = dist;
                    k += 1;
                    continue;
                }
            }
            proof {
                if let Some(i) = best {
                    assert forall|j: int| 0 <= j < next.len() && has_candidate(#[trigger] next[j])
                        implies !float_gt(next[j].furthest.unwrap().1, next[i as int].furthest.unwrap().1) by {
                        if j < k {
                            assert(next[j] == prefix[j]);
                        }
                    }
                    assert forall|j: int| 0 <= j < i && has_candidate(#[trigger] next[j])
                        implies float_gt(next[i as int].furthest.unwrap().1, next[j].furthest.unwrap().1) by {
                        assert(next[j] == prefix[j]);
                    }
                    assert(next[i as int] == prefix[i as int]);
                    assert(is_best_triangle(next, i as int));
                }
            }
            k += 1;
        }
        assert(self@.subrange(0, n as int) =~= self@);
        proof {
            match best {
                Some(i) => {
                    let c = choose|c: int| is_best_triangle(self@, c);
                    if c != i as int {
                        if c < i {
                            assert(float_gt(self@[i as int].furthest.unwrap().1, self@[c].furthest.unwrap().1));
                        } else {
                            assert(float_gt(self@[c].furthest.unwrap().1, self@[i as int].furthest.unwrap().1));
                        }
                    }
                },
                None => {
                    assert(!exists|i: int| is_best_triangle(self@, i));
                },
            }
            crate::hull_laws::lemma_best_vertex_exists(self@);
            crate::hull_laws::lemma_best_vertex_is_greatest(self@);
        }
        candidate
    }

    /// Assigns each listed vertex other than `exclusion` to the triangle from
    /// position `first` on that it lies furthest above, beyond the tolerance;
    /// `distances[k][j]` is the signed distance of `vertices[k]` to the triangle
    /// at `first + j`. Vertices above no triangle are dropped.
    pub fn assign_vertices_to_tris(
        &mut self,
        first: usize,
        vertices: &Vec<usize>,
        exclusion: usize,
        tolerance: u32,
        distances: &Vec<Vec<u32>>,
    )
        requires
            first <= old(self)@.len(),
            distances@.len() == vertices@.len(),
            forall|k: int|
                0 <= k < distances@.len() ==> (#[trigger] distances@[k])@.len() == old(self)@.len()
                    - first,
        ensures
            final(self)@ == assign_prefix(
                old(self)@,
                first as int,
                vertices@,
                exclusion,
                tolerance,
                distances@,
                vertices@.len(),
            ),
    {
        let n = vertices.len();
        let ghost orig = self@;
        let mut k: usize = 0;
        while k < n
            invariant
                n == vertices@.len(),
                n == distances@.len(),
                k <= n,
                first <= orig.len(),
                forall|q: int| 0 <= q < distances@.len() ==> (#[trigger] distances@[q])@.len() == orig.len() - first,
                self@.len() == orig.len(),
                self@ == assign_prefix(orig, first as int, vertices@, exclusion, tolerance, distances@, k as nat),
            decreases n - k,
        {
            let v = vertices[k];
            if v != exclusion {
                let row = &distances[k];
                match choose_triangle(row, tolerance) {
                    Some(j) => {
                        assert(is_first_greatest(row@, tolerance, j as int));
                        assert(j < row@.len());
                        assert(row@.len() == orig.len() - first);
                        let total = self.hull_triangles.len();
                        assert(first + j < total);
                        let idx = first + j;
                        let d = row[j];
                        let ghost before = self@;
                        let ghost tris = self.hull_triangles@;
                        self.hull_triangles[idx].assign_vertex(v, d);
                        proof {
                            assert(self.hull_triangles@.len() == tris.len());
                            assert forall|q: int| 0 <= q < tris.len() && q != idx implies
                                self.hull_triangles@[q] == tris[q] by {}
                            assert(self@ =~= before.update(idx as int, with_assigned(before[idx as int], v, d)));
                        }
                    },
                    None => {},
                }
            }
            k += 1;
        }
    }

    /// Removes, in descending order of position and by `swap_remove`, every
    /// triangle the new vertex lies strictly above (`distances[i]` is its signed
    /// distance to the triangle at `i`). Returns the vertices those triangles
    /// were responsible for, triangle after triangle in order of removal, and
    /// the seam of the removed triangles: each of their edges whose reverse is
    /// not among their edges, once, in the order in which the edge set is walked.
    pub fn remove_visible(&mut self, distances: &Vec<u32>) -> (r: (Vec<usize>, Vec<Edge>))
        requires
            distances@.len() == old(self)@.len(),
        ensures
            final(self)@ == sweep(old(self)@, visible_flags(distances@), old(self)@.len()),
            swept_out(old(self)@, visible_flags(distances@), old(self)@.len())
                == crate::topology::flagged_descending(old(self)@, visible_flags(distances@), old(self)@.len()),
            final(self)@.to_multiset().add(
                swept_out(old(self)@, visible_flags(distances@), old(self)@.len()).to_multiset(),
            ) == old(self)@.to_multiset(),
            r.0@ == gathered(swept_out(old(self)@, visible_flags(distances@), old(self)@.len())),
            pairs_of(r.1@).no_duplicates(),
            pairs_of(r.1@).to_set() == horizon(
                edge_multiset(
                    faces_of(swept_out(old(self)@, visible_flags(distances@), old(self)@.len())),
                ),
            ),
    {
        let n = self.hull_triangles.len();
        let ghost orig = self@;
        let ghost vis = visible_flags(distances@);
        let ghost mut out: Seq<TriangleView> = Seq::empty();
        let mut reassign: Vec<usize> = Vec::new();
        let mut all_edges = pair_set_new();
        let mut i: usize = n;
        proof {
            assert(edge_multiset(faces_of(out)) =~= Multiset::empty());
            assert(all_edges@ =~= edge_multiset(faces_of(out)).dom());
            assert(swept_out(orig, vis, n as nat) =~= out + swept_out(self@, vis, n as nat));
        }
        while i > 0
            invariant
                n == orig.len(),
                vis == visible_flags(distances@),
                distances@.len() == n,
                i <= n,
                i <= self@.len(),
                sweep(self@, vis, i as nat) == sweep(orig, vis, n as nat),
                swept_out(orig, vis, n as nat) == out + swept_out(self@, vis, i as nat),
                reassign@ == gathered(out),
                all_edges@ == edge_multiset(faces_of(out)).dom(),
            decreases i,
        {
            i -= 1;
            if bits_gt(distances[i], POSITIVE_ZERO) {
                let ghost cur = self@;
                let tri = self.hull_triangles.swap_remove(i);
                proof {
                    assert(self@ =~= swap_remove(cur, i as int));
                    assert(tri@ == cur[i as int]);
                    assert(vis[i as int]);
                }
                let assigned = tri.regarded_vertices();
                let m = assigned.len();
                let ghost start = reassign@;
                let mut q: usize = 0;
                while q < m
                    invariant
                        m == assigned@.len(),
                        q <= m,
                        reassign@ == start + assigned@.subrange(0, q as int),
                    decreases m - q,
                {
                    reassign.push(assigned[q]);
                    q += 1;
                    assert(reassign@ =~= start + assigned@.subrange(0, q as int));
                }
                let es = tri.edges();
                pair_set_insert(&mut all_edges, es[0].to_pair());
                pair_set_insert(&mut all_edges, es[1].to_pair());
                pair_set_insert(&mut all_edges, es[2].to_pair());
                proof {
                    let old_out = out;
                    out = out.push(tri@);
                    assert(out.drop_last() =~= old_out);
                    assert(assigned@.subrange(0, m as int) =~= assigned@);
                    assert(faces_of(out) =~= faces_of(old_out).push(tri@.indices));
                    assert(faces_of(out).drop_last() =~= faces_of(old_out));
                    let t = tri@.indices;
                    assert(edge_multiset(faces_of(out)) == edge_multiset(faces_of(old_out)).add(triangle_edges(t)));
                    assert(all_edges@ =~= edge_multiset(faces_of(out)).dom());
                    assert(swept_out(cur, vis, (i + 1) as nat) == seq![cur[i as int]] + swept_out(swap_remove(cur, i as int), vis, i as nat));
                    assert(swept_out(orig, vis, n as nat) =~= out + swept_out(self@, vis, i as nat));
                }
            } else {
                proof {
                    assert(!vis[i as int]);
                }
            }
        }
        let ghost gone = edge_multiset(faces_of(out));
        assert(swept_out(orig, vis, n as nat) =~= out);
        proof {
            crate::topology::lemma_sweep_removes_flagged(orig, vis, n as nat);
        }
        let elements = pair_set_elements(&all_edges);
        let mut seam: Vec<Edge> = Vec::new();
        let e_len = elements.len();
        let mut k: usize = 0;
        while k < e_len
            invariant
                e_len == elements@.len(),
                k <= e_len,
                elements@.no_duplicates(),
                elements@.to_set() == all_edges@,
                all_edges@ == gone.dom(),
                pairs_of(seam@).no_duplicates(),
                forall|x: (usize, usize)| #[trigger] pairs_of(seam@).contains(x) <==> (
                    elements@.subrange(0, k as int).contains(x) && !all_edges@.contains((x.1, x.0))),
            decreases e_len - k,
        {
            let p = elements[k];
            let ghost before = pairs_of(seam@);
            let ghost sub = elements@.subrange(0, k as int);
            let ghost sub1 = elements@.subrange(0, k + 1);
            proof {
                assert(sub1 =~= sub.push(p));
                assert(!sub.contains(p)) by {
                    if sub.contains(p) {
                        let w = choose|w: int| 0 <= w < sub.len() && #[trigger] sub[w] == p;
                        assert(elements@[w] == elements@[k as int]);
                    }
                }
            }
            if !pair_set_contains(&all_edges, (p.1, p.0)) {
                seam.push(Edge { start: p.0, end: p.1 });
                proof {
                    assert(pairs_of(seam@) =~= before.push(p));
                    assert(!before.contains(p));
                    assert forall|x: (usize, usize)| #[trigger] pairs_of(seam@).contains(x) <==> (
                        sub1.contains(x) && !all_edges@.contains((x.1, x.0))) by {
                        lemma_push_contains(before, p, x);
                        lemma_push_contains(sub, p, x);
                    }
                }
            } else {
                proof {
                    assert(pairs_of(seam@) =~= before);
                    assert forall|x: (usize, usize)| #[trigger] pairs_of(seam@).contains(x) <==> (
                        sub1.contains(x) && !all_edges@.contains((x.1, x.0))) by {
                        lemma_push_contains(sub, p, x);
                    }
                }
            }
            k += 1;
        }
        proof {
            assert(elements@.subrange(0, e_len as int) =~= elements@);
            assert forall|x: (usize, usize)| pairs_of(seam@).to_set().contains(x) <==> horizon(gone).contains(x) by {
                assert(elements@.to_set().contains(x) == elements@.contains(x));
                assert((x.1, x.0) == crate::edge::reverse_pair(x));
            }
            assert(pairs_of(seam@).to_set() =~= horizon(gone));
        }
        (reassign, seam)
    }

    /// Starts the construction: lays the initial tetrahedron over the four
    /// picks (flipped when `apex_distance`, the signed distance of the fourth
    /// pick to the triangle of the first three, is greater than zero) and
    /// assigns each listed vertex other than the first pick to the triangle it
    /// lies furthest above, beyond the tolerance; `distances[k][j]` is the
    /// signed distance of `vertex_list[k]` to triangle `j` of
    /// `tetrahedron_faces(picks, apex_distance)`. When the picks are distinct
    /// and the list repeats no vertex and holds no pick, the hull is closed, no
    /// vertex waits twice or on a corner, every triangle records its furthest
    /// vertex faithfully and at a distance beyond the tolerance, the four
    /// triangles have distinct corners, and F = 2V - 4 holds.
    pub fn start_construction(
        &mut self,
        picks: [usize; 4],
        apex_distance: u32,
        vertex_list: &Vec<usize>,
        tolerance: u32,
        distances: &Vec<Vec<u32>>,
    )
        requires
            old(self)@.len() == 0,
            distances@.len() == vertex_list@.len(),
            forall|k: int| 0 <= k < distances@.len() ==> (#[trigger] distances@[k])@.len() == 4,
        ensures
            final(self)@ == assign_prefix(
                tetrahedron(
                    picks@[0],
                    picks@[1],
                    picks@[2],
                    picks@[3],
                    float_gt(apex_distance, POSITIVE_ZERO),
                ),
                0,
                vertex_list@,
                picks@[0],
                tolerance,
                distances@,
                vertex_list@.len(),
            ),
            ({
                let p = picks@;
                (p[0] != p[1] && p[0] != p[2] && p[0] != p[3] && p[1] != p[2] && p[1] != p[3]
                    && p[2] != p[3] && vertex_list@.no_duplicates() && forall|k: int|
                    0 <= k < vertex_list@.len() ==> !p.contains(#[trigger] vertex_list@[k])) ==> {
                    &&& crate::topology::is_closed(edge_multiset(faces_of(final(self)@)))
                    &&& crate::hull_laws::waiting_is_sound(final(self)@)
                    &&& crate::hull_laws::all_furthest_recorded(final(self)@)
                    &&& crate::hull_laws::all_furthest_beyond(final(self)@, tolerance)
                    &&& crate::euler::satisfies_euler(faces_of(final(self)@))
                    &&& crate::euler::corners_distinct(faces_of(final(self)@))
                    &&& final(self)@.len() == 4
                }
            }),
    {
        self.build_initial_tetrahedron(picks, apex_distance);
        self.assign_vertices_to_tris(0, vertex_list, picks[0], tolerance, distances);
        proof {
            let p = picks@;
            if p[0] != p[1] && p[0] != p[2] && p[0] != p[3] && p[1] != p[2] && p[1] != p[3]
                && p[2] != p[3] && vertex_list@.no_duplicates() && forall|k: int|
                0 <= k < vertex_list@.len() ==> !p.contains(#[trigger] vertex_list@[k]) {
                let count: nat = usize::MAX as nat + 1;
                assert forall|k: int| 0 <= k < 4 implies #[trigger] p[k] < count by {}
                assert forall|k: int| 0 <= k < vertex_list@.len() implies #[trigger] vertex_list@[k] < count by {}
                crate::hull_laws::lemma_construction_start(
                    p,
                    float_gt(apex_distance, POSITIVE_ZERO),
                    vertex_list@,
                    tolerance,
                    distances@,
                    count,
                );
                let flip = float_gt(apex_distance, POSITIVE_ZERO);
                crate::hull_laws::lemma_tetrahedron_euler(p[0], p[1], p[2], p[3], flip);
                crate::hull_laws::lemma_assignment_keeps_faces(
                    tetrahedron(p[0], p[1], p[2], p[3], flip),
                    0,
                    vertex_list@,
                    p[0],
                    tolerance,
                    distances@,
                    vertex_list@.len(),
                );
            }
        }
    }

    /// The first phase of a step of the construction with `apex` as the new
    /// vertex: removes the triangles it lies strictly above (`distances[i]` is
    /// its signed distance to the triangle at `i`) and adds the cone from it
    /// over their seam. Returns the vertices the removed triangles were
    /// responsible for, in order of removal, and the position of the first cone
    /// triangle; the second phase assigns those vertices, the apex excluded, to
    /// the cone triangles with `assign_vertices_to_tris`.
    pub fn begin_step(&mut self, apex: usize, distances: &Vec<u32>) -> (r: (Vec<usize>, usize))
        requires
            distances@.len() == old(self)@.len(),
        ensures
            r.0@ == gathered(swept_out(old(self)@, visible_flags(distances@), old(self)@.len())),
            r.1 == sweep(old(self)@, visible_flags(distances@), old(self)@.len()).len(),
            exists|seam: Seq<Edge>|
                {
                    &&& pairs_of(seam).no_duplicates()
                    &&& pairs_of(seam).to_set() == horizon(
                        edge_multiset(
                            faces_of(swept_out(old(self)@, visible_flags(distances@), old(self)@.len())),
                        ),
                    )
                    &&& final(self)@ == sweep(old(self)@, visible_flags(distances@), old(self)@.len())
                        + cone_triangles(seam, apex)
                },
    {
        let (reassign, seam) = self.remove_visible(distances);
        let first = self.add_cone(&seam, apex);
        (reassign, first)
    }

    /// Appends the triangles joining each seam edge to the apex, in seam order,
    /// and returns the position of the first of them.
    pub fn add_cone(&mut self, seam: &Vec<Edge>, apex: usize) -> (first: usize)
        ensures
            first == old(self)@.len(),
            final(self)@ == old(self)@ + cone_triangles(seam@, apex),
    {
        let first = self.hull_triangles.len();
        let ghost orig = self@;
        let m = seam.len();
        let mut k: usize = 0;
        while k < m
            invariant
                m == seam@.len(),
                k <= m,
                self@ == orig + cone_triangles(seam@.subrange(0, k as int), apex),
            decreases m - k,
        {
            let t = Triangle::from_edge_and_points(&seam[k], apex);
            let ghost before = self@;
            self.hull_triangles.push(t);
            proof {
                assert(self@ =~= before.push(t@));
                assert(cone_triangles(seam@.subrange(0, k + 1), apex) =~= cone_triangles(
                    seam@.subrange(0, k as int),
                    apex,
                ).push(t@));
                assert(self@ =~= orig + cone_triangles(seam@.subrange(0, k + 1), apex));
            }
            k += 1;
        }
        assert(seam@.subrange(0, m as int) =~= seam@);
        first
    }

    /// The corner triples of all triangles, in order.
    pub fn triangle_indices(&self) -> (r: Vec<TriangleIndices>)
        ensures
            r@ == faces_of(self@),
    {
        let n = self.hull_triangles.len();
        let mut r: Vec<TriangleIndices> = Vec::new();
        let mut k: usize = 0;
        while k < n
            invariant
                n == self@.len(),
                k <= n,
                r@ == faces_of(self@).subrange(0, k as int),
            decreases n - k,
        {
            r.push(self.hull_triangles[k].get_triple_representation());
            k += 1;
            assert(r@ =~= faces_of(self@).subrange(0, k as int));
        }
        assert(faces_of(self@).subrange(0, n as int) =~= faces_of(self@));
        r
    }
}

} // verus!
