//! Laws of the hull construction: the surface stays closed, every step lowers
//! the number of vertices waiting for assignment, and the next vertex picked
//! is one of those waiting.

use vstd::prelude::*;
use vstd::multiset::Multiset;
use crate::edge::Edge;
use crate::float_order::{float_gt, float_le, NEGATIVE_INFINITY, POSITIVE_ZERO};
use crate::hull_construction::{
    assign_prefix, best_vertex, cone_triangles, faces_of, first_greatest, gathered,
    has_candidate, is_best_triangle, is_first_greatest, lemma_push_contains, pairs_of, tetrahedron,
    visible_flags,
};
use crate::topology::{cone, edge_multiset, horizon, is_closed, swap_remove, sweep, swept_out, triangle_edges};
use crate::triangle::{with_assigned, TriangleView};
use crate::triangle_indices::TriangleIndices;

verus! {

// ---------------------------------------------------------------------------
// Laws of the construction.
// ---------------------------------------------------------------------------

/// The corners of a concatenation are the corners of both parts.
pub proof fn lemma_faces_of_append(a: Seq<TriangleView>, b: Seq<TriangleView>)
    ensures
        faces_of(a + b) == faces_of(a) + faces_of(b),
{
    assert(faces_of(a + b) =~= faces_of(a) + faces_of(b));
}

/// Taking corners commutes with `sweep` and `swept_out`.
pub proof fn lemma_faces_of_sweep(ts: Seq<TriangleView>, flags: Seq<bool>, n: nat)
    requires
        n <= ts.len(),
        n <= flags.len(),
    ensures
        faces_of(sweep(ts, flags, n)) == sweep(faces_of(ts), flags, n),
        faces_of(swept_out(ts, flags, n)) == swept_out(faces_of(ts), flags, n),
    decreases n,
{
    if n > 0 {
        let i = (n - 1) as int;
        if flags[i] {
            let s2 = swap_remove(ts, i);
            assert(faces_of(s2) =~= swap_remove(faces_of(ts), i));
            lemma_faces_of_sweep(s2, flags, i as nat);
            lemma_faces_of_append(seq![ts[i]], swept_out(s2, flags, i as nat));
            assert(faces_of(seq![ts[i]]) =~= seq![faces_of(ts)[i]]);
        } else {
            lemma_faces_of_sweep(ts, flags, i as nat);
        }
    }
}

/// The corners of the cone triangles form the cone over the seam pairs.
pub proof fn lemma_faces_of_cone(seam: Seq<Edge>, apex: usize)
    ensures
        faces_of(cone_triangles(seam, apex)) == cone(pairs_of(seam), apex),
{
    assert(faces_of(cone_triangles(seam, apex)) =~= cone(pairs_of(seam), apex));
}

/// Assigning vertices leaves every triangle's corners as they were.
pub proof fn lemma_assignment_keeps_faces(
    ts: Seq<TriangleView>,
    first: int,
    vertices: Seq<usize>,
    exclusion: usize,
    tolerance: u32,
    distances: Seq<Vec<u32>>,
    k: nat,
)
    requires
        0 <= first <= ts.len(),
        k <= vertices.len(),
        k <= distances.len(),
        forall|q: int| 0 <= q < distances.len() ==> (#[trigger] distances[q])@.len() == ts.len() - first,
    ensures
        faces_of(assign_prefix(ts, first, vertices, exclusion, tolerance, distances, k)) == faces_of(ts),
        assign_prefix(ts, first, vertices, exclusion, tolerance, distances, k).len() == ts.len(),
    decreases k,
{
    if k > 0 {
        lemma_assignment_keeps_faces(ts, first, vertices, exclusion, tolerance, distances, (k - 1) as nat);
        let prev = assign_prefix(ts, first, vertices, exclusion, tolerance, distances, (k - 1) as nat);
        let v = vertices[k - 1];
        if v != exclusion {
            match first_greatest(distances[k - 1]@, tolerance) {
                Some(j) => {
                    let row = distances[k - 1]@;
                    assert(is_first_greatest(row, tolerance, j));
                    assert(0 <= j < row.len());
                    let next = prev.update(first + j, with_assigned(prev[first + j], v, distances[k - 1]@[j]));
                    assert(faces_of(next) =~= faces_of(prev)) by {
                        assert forall|q: int| 0 <= q < next.len() implies faces_of(next)[q] == faces_of(prev)[q] by {}
                    }
                },
                None => {},
            }
        }
    }
}

/// The initial tetrahedron over four distinct vertices is a closed surface, in
/// either winding.
pub proof fn lemma_tetrahedron_closed(i0: usize, i1: usize, i2: usize, i3: usize, flip: bool)
    requires
        i0 != i1,
        i0 != i2,
        i0 != i3,
        i1 != i2,
        i1 != i3,
        i2 != i3,
    ensures
        is_closed(edge_multiset(faces_of(tetrahedron(i0, i1, i2, i3, flip)))),
{
    let fs = faces_of(tetrahedron(i0, i1, i2, i3, flip));
    let f0 = fs[0];
    let f1 = fs[1];
    let f2 = fs[2];
    let f3 = fs[3];
    assert(fs =~= seq![f0, f1, f2, f3]);
    assert(fs.drop_last() =~= seq![f0, f1, f2]);
    assert(fs.drop_last().drop_last() =~= seq![f0, f1]);
    assert(fs.drop_last().drop_last().drop_last() =~= seq![f0]);
    assert(fs.drop_last().drop_last().drop_last().drop_last() =~= Seq::<TriangleIndices>::empty());
    let m = edge_multiset(fs);
    assert(m =~= triangle_edges(f0).add(triangle_edges(f1)).add(triangle_edges(f2)).add(
        triangle_edges(f3),
    )) by {
        let s3 = fs.drop_last();
        let s2 = s3.drop_last();
        let s1 = s2.drop_last();
        let s0 = s1.drop_last();
        assert(edge_multiset(s0) =~= Multiset::empty());
        assert(edge_multiset(s1) == edge_multiset(s0).add(triangle_edges(f0)));
        assert(edge_multiset(s2) == edge_multiset(s1).add(triangle_edges(f1)));
        assert(edge_multiset(s3) == edge_multiset(s2).add(triangle_edges(f2)));
        assert(edge_multiset(fs) == edge_multiset(s3).add(triangle_edges(f3)));
    }
    assert forall|e: (usize, usize)| #[trigger] m.count(e) > 0 implies m.count(e) == 1
        && m.count(crate::edge::reverse_pair(e)) == 1 by {}
}

/// The initial tetrahedron over four distinct vertices, in either winding, has
/// four triangles with three distinct corners each and satisfies F = 2V - 4.
pub proof fn lemma_tetrahedron_euler(i0: usize, i1: usize, i2: usize, i3: usize, flip: bool)
    requires
        i0 != i1,
        i0 != i2,
        i0 != i3,
        i1 != i2,
        i1 != i3,
        i2 != i3,
    ensures
        crate::euler::satisfies_euler(faces_of(tetrahedron(i0, i1, i2, i3, flip))),
        crate::euler::corners_distinct(faces_of(tetrahedron(i0, i1, i2, i3, flip))),
        faces_of(tetrahedron(i0, i1, i2, i3, flip)).len() == 4,
{
    let fs = faces_of(tetrahedron(i0, i1, i2, i3, flip));
    let four = set![i0, i1, i2, i3];
    assert(crate::consistency::used_vertices(fs) =~= four) by {
        assert forall|v: usize| #[trigger] crate::consistency::used_vertices(fs).contains(v)
            implies four.contains(v) by {
            let k = choose|k: int| 0 <= k < fs.len() && crate::topology::is_corner(#[trigger] fs[k], v);
        }
        assert(crate::topology::is_corner(fs[0], i0));
        assert(crate::topology::is_corner(fs[0], i1));
        assert(crate::topology::is_corner(fs[0], i2));
        assert(crate::topology::is_corner(fs[1], i3));
    }
    assert(set![i0].len() == 1);
    assert(set![i0, i1].len() == 2);
    assert(set![i0, i1, i2].len() == 3);
}

/// One step of the construction carries F = 2V - 4 over: removing the
/// triangles the apex sees and adding the cone from the apex over their seam
/// gives a surface that satisfies it again, when the hull is closed and
/// satisfies it, the apex is not yet a corner of the hull, the seam is not
/// empty, and the triangles the apex sees form a disk: their number plus two is
/// the length of the seam plus twice the number of vertices inside them. When
/// every triangle has three distinct corners, at least four triangles remain.
pub proof fn lemma_hull_step_keeps_euler(
    before: Seq<TriangleView>,
    distances: Seq<u32>,
    seam: Seq<Edge>,
    apex: usize,
)
    requires
        distances.len() == before.len(),
        is_closed(edge_multiset(faces_of(before))),
        crate::euler::satisfies_euler(faces_of(before)),
        !crate::topology::is_vertex_of(faces_of(before), apex),
        pairs_of(seam).to_set() == horizon(
            edge_multiset(faces_of(swept_out(before, visible_flags(distances), before.len()))),
        ),
        seam.len() > 0,
        swept_out(before, visible_flags(distances), before.len()).len() + 2 == seam.len() + 2
            * crate::euler::interior_vertices(faces_of(before), visible_flags(distances)).len(),
    ensures
        crate::euler::satisfies_euler(
            faces_of(sweep(before, visible_flags(distances), before.len()) + cone_triangles(seam, apex)),
        ),
        crate::euler::corners_distinct(faces_of(before)) ==> faces_of(
            sweep(before, visible_flags(distances), before.len()) + cone_triangles(seam, apex),
        ).len() >= 4,
{
    let vis = visible_flags(distances);
    let n = before.len();
    lemma_faces_of_sweep(before, vis, n);
    lemma_faces_of_append(sweep(before, vis, n), cone_triangles(seam, apex));
    lemma_faces_of_cone(seam, apex);
    assert(faces_of(before).len() == n);
    crate::euler::lemma_cone_replacement_keeps_euler(faces_of(before), vis, pairs_of(seam), apex);
}

/// One step of the construction keeps a closed hull closed: removing the
/// triangles the apex sees and adding the cone from the apex over their seam
/// gives a closed surface again, when the apex is not yet a corner of the hull
/// and the seam passes every vertex at most once.
pub proof fn lemma_hull_step_keeps_closed(
    before: Seq<TriangleView>,
    distances: Seq<u32>,
    seam: Seq<Edge>,
    apex: usize,
)
    requires
        distances.len() == before.len(),
        is_closed(edge_multiset(faces_of(before))),
        !crate::topology::is_vertex_of(faces_of(before), apex),
        pairs_of(seam).no_duplicates(),
        pairs_of(seam).to_set() == horizon(
            edge_multiset(faces_of(swept_out(before, visible_flags(distances), before.len()))),
        ),
        crate::topology::is_simple_seam(pairs_of(seam)),
    ensures
        is_closed(
            edge_multiset(
                faces_of(
                    sweep(before, visible_flags(distances), before.len()) + cone_triangles(seam, apex),
                ),
            ),
        ),
{
    let vis = visible_flags(distances);
    let n = before.len();
    lemma_faces_of_sweep(before, vis, n);
    lemma_faces_of_append(sweep(before, vis, n), cone_triangles(seam, apex));
    lemma_faces_of_cone(seam, apex);
    assert(faces_of(before).len() == n);
    crate::topology::lemma_cone_replacement_keeps_closed(faces_of(before), vis, pairs_of(seam), apex);
}


// ---------------------------------------------------------------------------
// Progress of the construction.
// ---------------------------------------------------------------------------

/// The number of vertices still waiting in the triangles' assignment lists.
pub open spec fn waiting(ts: Seq<TriangleView>) -> nat {
    gathered(ts).len()
}

/// How many of the first `k` listed vertices differ from `exclusion`.
pub open spec fn count_other(vertices: Seq<usize>, exclusion: usize, k: nat) -> nat
    decreases k,
{
    if k == 0 {
        0
    } else {
        count_other(vertices, exclusion, (k - 1) as nat) + if vertices[k - 1] != exclusion {
            1nat
        } else {
            0nat
        }
    }
}

/// The assigned vertices of a concatenation are those of both parts.
pub proof fn lemma_gathered_append(a: Seq<TriangleView>, b: Seq<TriangleView>)
    ensures
        gathered(a + b) == gathered(a) + gathered(b),
    decreases b.len(),
{
    if b.len() == 0 {
        assert(a + b =~= a);
        assert(gathered(a) + gathered(b) =~= gathered(a));
    } else {
        lemma_gathered_append(a, b.drop_last());
        assert((a + b).drop_last() =~= a + b.drop_last());
        assert(gathered(a + b) =~= gathered(a) + gathered(b));
    }
}

/// The assigned vertices of a single triangle.
proof fn lemma_gathered_single(t: TriangleView)
    ensures
        gathered(seq![t]) == t.assigned,
{
    let s = seq![t];
    assert(s.drop_last() =~= Seq::<TriangleView>::empty());
    assert(gathered(s.drop_last()) =~= Seq::<usize>::empty());
    assert(s.last() == t);
    assert(gathered(s) == gathered(s.drop_last()) + s.last().assigned);
    assert(gathered(s) =~= t.assigned);
}

/// Replacing the triangle at `i` changes the number waiting by the difference of
/// the two assignment lists.
proof fn lemma_waiting_update(s: Seq<TriangleView>, i: int, t: TriangleView)
    requires
        0 <= i < s.len(),
    ensures
        waiting(s.update(i, t)) + s[i].assigned.len() == waiting(s) + t.assigned.len(),
{
    let p = s.subrange(0, i);
    let q = s.subrange(i + 1, s.len() as int);
    assert(s =~= p + seq![s[i]] + q);
    assert(s.update(i, t) =~= p + seq![t] + q);
    lemma_gathered_append(p + seq![s[i]], q);
    lemma_gathered_append(p, seq![s[i]]);
    lemma_gathered_append(p + seq![t], q);
    lemma_gathered_append(p, seq![t]);
    lemma_gathered_single(s[i]);
    lemma_gathered_single(t);
}

/// `swap_remove` drops exactly the waiting vertices of the removed triangle.
proof fn lemma_waiting_swap_remove(s: Seq<TriangleView>, i: int)
    requires
        0 <= i < s.len(),
    ensures
        waiting(swap_remove(s, i)) + s[i].assigned.len() == waiting(s),
{
    let n = s.len() as int;
    let t = s.drop_last();
    assert(s =~= t + seq![s[n - 1]]);
    lemma_gathered_append(t, seq![s[n - 1]]);
    lemma_gathered_single(s[n - 1]);
    if i < n - 1 {
        assert(swap_remove(s, i) =~= t.update(i, s[n - 1]));
        lemma_waiting_update(t, i, s[n - 1]);
    } else {
        assert(swap_remove(s, i) =~= t);
    }
}

/// The waiting vertices are split between the triangles that stay and those
/// swept out.
pub proof fn lemma_waiting_sweep(s: Seq<TriangleView>, flags: Seq<bool>, n: nat)
    requires
        n <= s.len(),
        n <= flags.len(),
    ensures
        waiting(sweep(s, flags, n)) + waiting(swept_out(s, flags, n)) == waiting(s),
    decreases n,
{
    if n == 0 {
        assert(gathered(Seq::<TriangleView>::empty()) =~= Seq::<usize>::empty());
    } else {
        let i = (n - 1) as int;
        if flags[i] {
            let s2 = swap_remove(s, i);
            lemma_waiting_sweep(s2, flags, i as nat);
            lemma_waiting_swap_remove(s, i);
            lemma_gathered_append(seq![s[i]], swept_out(s2, flags, i as nat));
            lemma_gathered_single(s[i]);
        } else {
            lemma_waiting_sweep(s, flags, i as nat);
        }
    }
}

/// Every vertex assigned to one of the triangles is among their gathered
/// vertices.
proof fn lemma_gathered_contains(s: Seq<TriangleView>, k: int, v: usize)
    requires
        0 <= k < s.len(),
        s[k].assigned.contains(v),
    ensures
        gathered(s).contains(v),
    decreases s.len(),
{
    let init = s.drop_last();
    lemma_gathered_append(init, seq![s.last()]);
    lemma_gathered_single(s.last());
    assert(s =~= init + seq![s.last()]);
    assert(gathered(s) == gathered(init) + s.last().assigned);
    if k == s.len() - 1 {
        let w = choose|w: int| 0 <= w < s[k].assigned.len() && s[k].assigned[w] == v;
        assert(gathered(s)[gathered(init).len() + w] == v);
    } else {
        assert(init[k] == s[k]);
        lemma_gathered_contains(init, k, v);
        let w = choose|w: int| 0 <= w < gathered(init).len() && gathered(init)[w] == v;
        assert(gathered(s)[w] == v);
    }
}

/// A flagged element among the first `n` appears in the list of the flagged
/// elements from the highest position down.
proof fn lemma_flagged_descending_has(s: Seq<TriangleView>, flags: Seq<bool>, n: nat, i: int)
    requires
        n <= s.len(),
        n <= flags.len(),
        0 <= i < n,
        flags[i],
    ensures
        exists|k: int|
            0 <= k < crate::topology::flagged_descending(s, flags, n).len()
                && #[trigger] crate::topology::flagged_descending(s, flags, n)[k] == s[i],
    decreases n,
{
    let rest = crate::topology::flagged_descending(s, flags, (n - 1) as nat);
    if i == n - 1 {
        assert(crate::topology::flagged_descending(s, flags, n)[0] == s[i]);
    } else {
        lemma_flagged_descending_has(s, flags, (n - 1) as nat, i);
        let k = choose|k: int| 0 <= k < rest.len() && #[trigger] rest[k] == s[i];
        if flags[n - 1] {
            assert(crate::topology::flagged_descending(s, flags, n)[k + 1] == s[i]);
        } else {
            assert(crate::topology::flagged_descending(s, flags, n)[k] == s[i]);
        }
    }
}

/// Assigning the first `k` listed vertices adds at most one waiting vertex for
/// each of them other than the excluded one.
proof fn lemma_waiting_assign(
    ts: Seq<TriangleView>,
    first: int,
    vertices: Seq<usize>,
    exclusion: usize,
    tolerance: u32,
    distances: Seq<Vec<u32>>,
    k: nat,
)
    requires
        0 <= first <= ts.len(),
        k <= vertices.len(),
        k <= distances.len(),
        forall|q: int| 0 <= q < distances.len() ==> (#[trigger] distances[q])@.len() == ts.len() - first,
    ensures
        waiting(assign_prefix(ts, first, vertices, exclusion, tolerance, distances, k)) <= waiting(ts)
            + count_other(vertices, exclusion, k),
    decreases k,
{
    if k > 0 {
        lemma_waiting_assign(ts, first, vertices, exclusion, tolerance, distances, (k - 1) as nat);
        lemma_assignment_keeps_faces(ts, first, vertices, exclusion, tolerance, distances, (k - 1) as nat);
        let prev = assign_prefix(ts, first, vertices, exclusion, tolerance, distances, (k - 1) as nat);
        let v = vertices[k - 1];
        if v != exclusion {
            match first_greatest(distances[k - 1]@, tolerance) {
                Some(j) => {
                    let row = distances[k - 1]@;
                    assert(is_first_greatest(row, tolerance, j));
                    lemma_waiting_update(prev, first + j, with_assigned(prev[first + j], v, row[j]));
                },
                None => {},
            }
        }
    }
}

/// At most all listed vertices differ from the excluded one, and fewer when the
/// excluded one is listed.
proof fn lemma_count_other_bound(vertices: Seq<usize>, exclusion: usize, k: nat)
    requires
        k <= vertices.len(),
    ensures
        count_other(vertices, exclusion, k) <= k,
        vertices.subrange(0, k as int).contains(exclusion) ==> count_other(vertices, exclusion, k) < k,
    decreases k,
{
    if k > 0 {
        lemma_count_other_bound(vertices, exclusion, (k - 1) as nat);
        if vertices.subrange(0, k as int).contains(exclusion) && vertices[k - 1] != exclusion {
            let w = choose|w: int| 0 <= w < k && vertices.subrange(0, k as int)[w] == exclusion;
            assert(vertices.subrange(0, k - 1)[w] == exclusion);
        }
    }
}

/// Every step of the construction lowers the number of vertices waiting for
/// assignment, when the new vertex sees a triangle it is assigned to: the
/// triangles it sees are removed, their waiting vertices other than the new
/// one are reassigned to the cone over the seam, and the new one is not.
pub proof fn lemma_step_lowers_waiting(
    before: Seq<TriangleView>,
    distances: Seq<u32>,
    seam: Seq<Edge>,
    apex: usize,
    tolerance: u32,
    rows: Seq<Vec<u32>>,
    i: int,
)
    requires
        distances.len() == before.len(),
        0 <= i < before.len(),
        visible_flags(distances)[i],
        before[i].assigned.contains(apex),
        rows.len() == gathered(swept_out(before, visible_flags(distances), before.len())).len(),
        forall|q: int| 0 <= q < rows.len() ==> (#[trigger] rows[q])@.len() == seam.len(),
    ensures
        waiting(
            assign_prefix(
                sweep(before, visible_flags(distances), before.len()) + cone_triangles(seam, apex),
                sweep(before, visible_flags(distances), before.len()).len() as int,
                gathered(swept_out(before, visible_flags(distances), before.len())),
                apex,
                tolerance,
                rows,
                gathered(swept_out(before, visible_flags(distances), before.len())).len(),
            ),
        ) < waiting(before),
{
    let vis = visible_flags(distances);
    let n = before.len();
    let kept = sweep(before, vis, n);
    let out = swept_out(before, vis, n);
    let cone_ts = cone_triangles(seam, apex);
    let list = gathered(out);
    lemma_waiting_sweep(before, vis, n);
    lemma_gathered_append(kept, cone_ts);
    assert(gathered(cone_ts) =~= Seq::<usize>::empty()) by {
        lemma_cone_gathers_nothing(seam, apex);
    }
    assert(waiting(kept + cone_ts) == waiting(kept));
    crate::topology::lemma_sweep_removes_flagged(before, vis, n);
    lemma_flagged_descending_has(before, vis, n, i);
    let k = choose|k: int| 0 <= k < out.len() && #[trigger] out[k] == before[i];
    lemma_gathered_contains(out, k, apex);
    assert(list.subrange(0, list.len() as int) =~= list);
    lemma_count_other_bound(list, apex, list.len());
    lemma_waiting_assign(kept + cone_ts, kept.len() as int, list, apex, tolerance, rows, list.len());
}

/// The cone triangles wait for no vertex.
proof fn lemma_cone_gathers_nothing(seam: Seq<Edge>, apex: usize)
    ensures
        gathered(cone_triangles(seam, apex)) =~= Seq::<usize>::empty(),
    decreases seam.len(),
{
    if seam.len() > 0 {
        lemma_cone_gathers_nothing(seam.drop_last(), apex);
        assert(cone_triangles(seam, apex).drop_last() =~= cone_triangles(seam.drop_last(), apex));
    }
}


/// The triangle records its furthest vertex faithfully: the furthest vertex is
/// one of the vertices assigned to it, and a triangle with an assigned vertex
/// records one at a distance beyond negative infinity.
pub open spec fn furthest_is_recorded(t: TriangleView) -> bool {
    &&& t.furthest matches Some(f) ==> t.assigned.contains(f.0)
    &&& t.assigned.len() > 0 ==> has_candidate(t)
}

/// Every triangle records its furthest vertex faithfully.
pub open spec fn all_furthest_recorded(ts: Seq<TriangleView>) -> bool {
    forall|i: int| 0 <= i < ts.len() ==> furthest_is_recorded(#[trigger] ts[i])
}

/// A value beyond some value is beyond negative infinity.
proof fn lemma_beyond_floor_is_beyond_negative_infinity(d: u32, floor: u32)
    requires
        float_gt(d, floor),
    ensures
        float_gt(d, NEGATIVE_INFINITY),
{
}

/// Assigning a vertex keeps the furthest vertex recorded faithfully.
proof fn lemma_with_assigned_keeps_furthest(t: TriangleView, v: usize, d: u32)
    requires
        furthest_is_recorded(t),
        float_gt(d, NEGATIVE_INFINITY),
    ensures
        furthest_is_recorded(with_assigned(t, v, d)),
{
    lemma_push_contains(t.assigned, v, v);
    if let Some(f) = t.furthest {
        lemma_push_contains(t.assigned, v, f.0);
    }
}

/// Every element `sweep` keeps is an element of the sequence it sweeps.
proof fn lemma_sweep_elements<A>(s: Seq<A>, flags: Seq<bool>, n: nat, k: int)
    requires
        n <= s.len(),
        n <= flags.len(),
        0 <= k < sweep(s, flags, n).len(),
    ensures
        exists|j: int| 0 <= j < s.len() && #[trigger] s[j] == sweep(s, flags, n)[k],
    decreases n,
{
    crate::topology::lemma_sweep_removes_flagged(s, flags, n);
    if n == 0 {
        assert(s[k] == sweep(s, flags, n)[k]);
    } else {
        let i = (n - 1) as int;
        if flags[i] {
            let s2 = swap_remove(s, i);
            crate::topology::lemma_sweep_removes_flagged(s2, flags, i as nat);
            lemma_sweep_elements(s2, flags, i as nat, k);
            let j = choose|j: int| 0 <= j < s2.len() && #[trigger] s2[j] == sweep(s2, flags, i as nat)[k];
            if j == i {
                assert(s[s.len() - 1] == s2[j]);
            } else {
                assert(s[j] == s2[j]);
            }
        } else {
            lemma_sweep_elements(s, flags, i as nat, k);
        }
    }
}

/// The construction keeps every triangle's furthest vertex recorded faithfully:
/// the initial tetrahedron has no vertex assigned, assignment keeps it (a
/// vertex is assigned only beyond the tolerance), removing visible triangles
/// keeps it and the cone triangles have no vertex assigned.
pub proof fn lemma_construction_keeps_furthest_recorded(
    ts: Seq<TriangleView>,
    picks: Seq<usize>,
    flip: bool,
    first: int,
    vertices: Seq<usize>,
    exclusion: usize,
    tolerance: u32,
    rows: Seq<Vec<u32>>,
    distances: Seq<u32>,
    seam: Seq<Edge>,
    apex: usize,
)
    requires
        picks.len() == 4,
        all_furthest_recorded(ts),
    ensures
        all_furthest_recorded(tetrahedron(picks[0], picks[1], picks[2], picks[3], flip)),
        (0 <= first <= ts.len() && rows.len() == vertices.len() && forall|q: int|
            0 <= q < rows.len() ==> (#[trigger] rows[q])@.len() == ts.len() - first)
            ==> all_furthest_recorded(
            assign_prefix(ts, first, vertices, exclusion, tolerance, rows, vertices.len()),
        ),
        distances.len() == ts.len() ==> all_furthest_recorded(
            sweep(ts, visible_flags(distances), ts.len()),
        ),
        all_furthest_recorded(ts + cone_triangles(seam, apex)),
{
    let tet = tetrahedron(picks[0], picks[1], picks[2], picks[3], flip);
    assert forall|i: int| 0 <= i < tet.len() implies furthest_is_recorded(#[trigger] tet[i]) by {}
    if 0 <= first <= ts.len() && rows.len() == vertices.len() && forall|q: int|
        0 <= q < rows.len() ==> (#[trigger] rows[q])@.len() == ts.len() - first {
        lemma_assign_keeps_furthest(ts, first, vertices, exclusion, tolerance, rows, vertices.len());
    }
    if distances.len() == ts.len() {
        let vis = visible_flags(distances);
        let kept = sweep(ts, vis, ts.len());
        assert forall|k: int| 0 <= k < kept.len() implies furthest_is_recorded(#[trigger] kept[k]) by {
            lemma_sweep_elements(ts, vis, ts.len(), k);
        }
    }
    let all = ts + cone_triangles(seam, apex);
    assert forall|k: int| 0 <= k < all.len() implies furthest_is_recorded(#[trigger] all[k]) by {
        if k >= ts.len() {
            assert(all[k] == cone_triangles(seam, apex)[k - ts.len()]);
        }
    }
}

/// Assignment keeps every triangle's furthest vertex recorded faithfully.
proof fn lemma_assign_keeps_furthest(
    ts: Seq<TriangleView>,
    first: int,
    vertices: Seq<usize>,
    exclusion: usize,
    tolerance: u32,
    rows: Seq<Vec<u32>>,
    k: nat,
)
    requires
        all_furthest_recorded(ts),
        0 <= first <= ts.len(),
        k <= vertices.len(),
        k <= rows.len(),
        forall|q: int| 0 <= q < rows.len() ==> (#[trigger] rows[q])@.len() == ts.len() - first,
    ensures
        all_furthest_recorded(assign_prefix(ts, first, vertices, exclusion, tolerance, rows, k)),
    decreases k,
{
    if k > 0 {
        lemma_assign_keeps_furthest(ts, first, vertices, exclusion, tolerance, rows, (k - 1) as nat);
        lemma_assignment_keeps_faces(ts, first, vertices, exclusion, tolerance, rows, (k - 1) as nat);
        let prev = assign_prefix(ts, first, vertices, exclusion, tolerance, rows, (k - 1) as nat);
        let v = vertices[k - 1];
        if v != exclusion {
            match first_greatest(rows[k - 1]@, tolerance) {
                Some(j) => {
                    let row = rows[k - 1]@;
                    assert(is_first_greatest(row, tolerance, j));
                    let t2 = with_assigned(prev[first + j], v, row[j]);
                    lemma_beyond_floor_is_beyond_negative_infinity(row[j], tolerance);
                    lemma_with_assigned_keeps_furthest(prev[first + j], v, row[j]);
                    let next = prev.update(first + j, t2);
                    assert forall|q: int| 0 <= q < next.len() implies furthest_is_recorded(#[trigger] next[q]) by {
                        if q != first + j {
                            assert(next[q] == prev[q]);
                        }
                    }
                },
                None => {},
            }
        }
    }
}

/// Every furthest distance a triangle records lies beyond the tolerance.
pub open spec fn all_furthest_beyond(ts: Seq<TriangleView>, tolerance: u32) -> bool {
    forall|i: int| 0 <= i < ts.len() && (#[trigger] ts[i]).furthest is Some
        ==> float_gt(ts[i].furthest.unwrap().1, tolerance)
}

/// Assignment with a tolerance keeps every recorded furthest distance beyond it.
proof fn lemma_assign_keeps_beyond(
    ts: Seq<TriangleView>,
    first: int,
    vertices: Seq<usize>,
    exclusion: usize,
    tolerance: u32,
    rows: Seq<Vec<u32>>,
    k: nat,
)
    requires
        all_furthest_beyond(ts, tolerance),
        0 <= first <= ts.len(),
        k <= vertices.len(),
        k <= rows.len(),
        forall|q: int| 0 <= q < rows.len() ==> (#[trigger] rows[q])@.len() == ts.len() - first,
    ensures
        all_furthest_beyond(assign_prefix(ts, first, vertices, exclusion, tolerance, rows, k), tolerance),
    decreases k,
{
    if k > 0 {
        lemma_assign_keeps_beyond(ts, first, vertices, exclusion, tolerance, rows, (k - 1) as nat);
        lemma_assignment_keeps_faces(ts, first, vertices, exclusion, tolerance, rows, (k - 1) as nat);
        let prev = assign_prefix(ts, first, vertices, exclusion, tolerance, rows, (k - 1) as nat);
        let v = vertices[k - 1];
        if v != exclusion {
            match first_greatest(rows[k - 1]@, tolerance) {
                Some(j) => {
                    let row = rows[k - 1]@;
                    assert(is_first_greatest(row, tolerance, j));
                    let next = prev.update(first + j, with_assigned(prev[first + j], v, row[j]));
                    assert forall|q: int| 0 <= q < next.len() && (#[trigger] next[q]).furthest is Some
                        implies float_gt(next[q].furthest.unwrap().1, tolerance) by {
                        if q != first + j {
                            assert(next[q] == prev[q]);
                        }
                    }
                },
                None => {},
            }
        }
    }
}

/// The construction keeps every recorded furthest distance beyond the
/// tolerance it assigns with: the tetrahedron and the cone triangles record
/// none, assignment keeps it and removing visible triangles keeps it.
pub proof fn lemma_construction_keeps_furthest_beyond(
    ts: Seq<TriangleView>,
    picks: Seq<usize>,
    flip: bool,
    first: int,
    vertices: Seq<usize>,
    exclusion: usize,
    tolerance: u32,
    rows: Seq<Vec<u32>>,
    distances: Seq<u32>,
    seam: Seq<Edge>,
    apex: usize,
)
    requires
        picks.len() == 4,
        all_furthest_beyond(ts, tolerance),
    ensures
        all_furthest_beyond(tetrahedron(picks[0], picks[1], picks[2], picks[3], flip), tolerance),
        (0 <= first <= ts.len() && rows.len() == vertices.len() && forall|q: int|
            0 <= q < rows.len() ==> (#[trigger] rows[q])@.len() == ts.len() - first)
            ==> all_furthest_beyond(
            assign_prefix(ts, first, vertices, exclusion, tolerance, rows, vertices.len()),
            tolerance,
        ),
        distances.len() == ts.len() ==> all_furthest_beyond(
            sweep(ts, visible_flags(distances), ts.len()),
            tolerance,
        ),
        all_furthest_beyond(ts + cone_triangles(seam, apex), tolerance),
{
    if 0 <= first <= ts.len() && rows.len() == vertices.len() && forall|q: int|
        0 <= q < rows.len() ==> (#[trigger] rows[q])@.len() == ts.len() - first {
        lemma_assign_keeps_beyond(ts, first, vertices, exclusion, tolerance, rows, vertices.len());
    }
    if distances.len() == ts.len() {
        let vis = visible_flags(distances);
        let kept = sweep(ts, vis, ts.len());
        assert forall|k: int| 0 <= k < kept.len() && (#[trigger] kept[k]).furthest is Some
            implies float_gt(kept[k].furthest.unwrap().1, tolerance) by {
            lemma_sweep_elements(ts, vis, ts.len(), k);
        }
    }
    let all = ts + cone_triangles(seam, apex);
    assert forall|k: int| 0 <= k < all.len() && (#[trigger] all[k]).furthest is Some
        implies float_gt(all[k].furthest.unwrap().1, tolerance) by {
        if k >= ts.len() {
            assert(all[k] == cone_triangles(seam, apex)[k - ts.len()]);
        }
    }
}

/// The next vertex the construction picks is waiting in the assignment list of
/// a triangle whose furthest vertex it is.
pub proof fn lemma_next_vertex_is_waiting(ts: Seq<TriangleView>, v: usize)
    requires
        all_furthest_recorded(ts),
        best_vertex(ts) == Some(v),
    ensures
        exists|i: int|
            0 <= i < ts.len() && #[trigger] ts[i].assigned.contains(v) && ts[i].furthest is Some
                && ts[i].furthest.unwrap().0 == v,
{
    let i = choose|i: int| is_best_triangle(ts, i);
    assert(furthest_is_recorded(ts[i]));
}


/// Among the first `k` triangles, either none has a candidate, or one is the
/// best of them.
proof fn lemma_best_of_prefix(ts: Seq<TriangleView>, k: int)
    requires
        0 <= k <= ts.len(),
    ensures
        (forall|j: int| 0 <= j < k ==> !has_candidate(#[trigger] ts[j]))
            || exists|i: int| is_best_triangle(ts.subrange(0, k), i),
    decreases k,
{
    if k > 0 {
        lemma_best_of_prefix(ts, k - 1);
        let prefix = ts.subrange(0, k - 1);
        let next = ts.subrange(0, k);
        let last = k - 1;
        if exists|i: int| is_best_triangle(prefix, i) {
            let i = choose|i: int| is_best_triangle(prefix, i);
            if has_candidate(ts[last]) && float_gt(ts[last].furthest.unwrap().1, ts[i].furthest.unwrap().1) {
                assert forall|j: int| 0 <= j < next.len() && has_candidate(#[trigger] next[j])
                    implies !float_gt(next[j].furthest.unwrap().1, next[last].furthest.unwrap().1) by {
                    if j < last {
                        assert(next[j] == prefix[j]);
                    }
                }
                assert forall|j: int| 0 <= j < last && has_candidate(#[trigger] next[j])
                    implies float_gt(next[last].furthest.unwrap().1, next[j].furthest.unwrap().1) by {
                    assert(next[j] == prefix[j]);
                }
                assert(is_best_triangle(next, last));
            } else {
                assert forall|j: int| 0 <= j < next.len() && has_candidate(#[trigger] next[j])
                    implies !float_gt(next[j].furthest.unwrap().1, next[i].furthest.unwrap().1) by {
                    if j < last {
                        assert(next[j] == prefix[j]);
                    }
                }
                assert forall|j: int| 0 <= j < i && has_candidate(#[trigger] next[j])
                    implies float_gt(next[i].furthest.unwrap().1, next[j].furthest.unwrap().1) by {
                    assert(next[j] == prefix[j]);
                }
                assert(next[i] == prefix[i]);
                assert(is_best_triangle(next, i));
            }
        } else {
            assert forall|j: int| 0 <= j < last implies !has_candidate(#[trigger] ts[j]) by {
                assert(ts[j] == prefix[j]);
            }
            if has_candidate(ts[last]) {
                assert(is_best_triangle(next, last));
            }
        }
    }
}

/// There is a next vertex to pick exactly when some triangle records a furthest
/// vertex at a distance beyond negative infinity.
pub proof fn lemma_best_vertex_exists(ts: Seq<TriangleView>)
    ensures
        best_vertex(ts) is Some <==> exists|j: int| 0 <= j < ts.len() && has_candidate(#[trigger] ts[j]),
        best_vertex(ts) is Some <==> exists|j: int| 0 <= j < ts.len() && (#[trigger] ts[j]).furthest is Some
            && float_gt(ts[j].furthest.unwrap().1, NEGATIVE_INFINITY),
{
    lemma_best_of_prefix(ts, ts.len() as int);
    assert(ts.subrange(0, ts.len() as int) =~= ts);
}

/// The next vertex picked is the furthest vertex recorded by a triangle whose
/// furthest distance lies beyond negative infinity, no other triangle records a
/// greater distance, and every earlier triangle records a smaller one.
pub proof fn lemma_best_vertex_is_greatest(ts: Seq<TriangleView>)
    ensures
        best_vertex(ts) matches Some(v) ==> exists|i: int| {
            &&& 0 <= i < ts.len()
            &&& (#[trigger] ts[i]).furthest is Some
            &&& ts[i].furthest.unwrap().0 == v
            &&& float_gt(ts[i].furthest.unwrap().1, NEGATIVE_INFINITY)
            &&& forall|j: int| 0 <= j < ts.len() && (#[trigger] ts[j]).furthest is Some && float_gt(
                ts[j].furthest.unwrap().1,
                NEGATIVE_INFINITY,
            ) ==> !float_gt(ts[j].furthest.unwrap().1, ts[i].furthest.unwrap().1)
            &&& forall|j: int| 0 <= j < i && (#[trigger] ts[j]).furthest is Some && float_gt(
                ts[j].furthest.unwrap().1,
                NEGATIVE_INFINITY,
            ) ==> float_gt(ts[i].furthest.unwrap().1, ts[j].furthest.unwrap().1)
        },
{
    if best_vertex(ts) is Some {
        let i = choose|i: int| is_best_triangle(ts, i);
        assert forall|j: int| 0 <= j < ts.len() && (#[trigger] ts[j]).furthest is Some && float_gt(
            ts[j].furthest.unwrap().1,
            NEGATIVE_INFINITY,
        ) implies !float_gt(ts[j].furthest.unwrap().1, ts[i].furthest.unwrap().1) by {
            assert(has_candidate(ts[j]));
        }
        assert forall|j: int| 0 <= j < i && (#[trigger] ts[j]).furthest is Some && float_gt(
            ts[j].furthest.unwrap().1,
            NEGATIVE_INFINITY,
        ) implies float_gt(ts[i].furthest.unwrap().1, ts[j].furthest.unwrap().1) by {
            assert(has_candidate(ts[j]));
        }
    }
}

/// When the construction finds no next vertex, no vertex waits for assignment
/// in any triangle, provided every triangle records its furthest vertex
/// faithfully.
pub proof fn lemma_nothing_waits_at_end(ts: Seq<TriangleView>)
    requires
        all_furthest_recorded(ts),
        best_vertex(ts) is None,
    ensures
        waiting(ts) == 0,
{
    lemma_best_vertex_exists(ts);
    assert forall|i: int| 0 <= i < ts.len() implies (#[trigger] ts[i]).assigned.len() == 0 by {
        assert(furthest_is_recorded(ts[i]));
        if ts[i].assigned.len() > 0 {
            assert(has_candidate(ts[i]));
        }
    }
    lemma_gathered_nothing(ts);
}

// ---------------------------------------------------------------------------
// The vertices waiting for assignment.
// ---------------------------------------------------------------------------

/// The vertices waiting in the triangles' assignment lists, with multiplicity.
pub open spec fn waiting_multiset(ts: Seq<TriangleView>) -> Multiset<usize> {
    gathered(ts).to_multiset()
}

/// No vertex waits twice, and no waiting vertex is a corner of the hull.
pub open spec fn waiting_is_sound(ts: Seq<TriangleView>) -> bool {
    &&& forall|x: usize| #[trigger] waiting_multiset(ts).count(x) <= 1
    &&& forall|x: usize|
        #[trigger] waiting_multiset(ts).count(x) > 0 ==> !crate::topology::is_vertex_of(faces_of(ts), x)
}

/// Every corner and every waiting vertex is an index below `n`: the hull refers
/// only to the vertices handed over.
pub open spec fn refers_below(ts: Seq<TriangleView>, n: nat) -> bool {
    &&& forall|x: usize| #[trigger] crate::topology::is_vertex_of(faces_of(ts), x) ==> x < n
    &&& forall|x: usize| #[trigger] waiting_multiset(ts).count(x) > 0 ==> x < n
}

/// Triangles with empty assignment lists wait for no vertex.
proof fn lemma_gathered_nothing(ts: Seq<TriangleView>)
    requires
        forall|i: int| 0 <= i < ts.len() ==> (#[trigger] ts[i]).assigned.len() == 0,
    ensures
        gathered(ts) =~= Seq::<usize>::empty(),
    decreases ts.len(),
{
    if ts.len() > 0 {
        let init = ts.drop_last();
        assert forall|i: int| 0 <= i < init.len() implies (#[trigger] init[i]).assigned.len() == 0 by {
            assert(init[i] == ts[i]);
        }
        lemma_gathered_nothing(init);
        assert(ts.last() == ts[ts.len() - 1]);
    }
}

/// The waiting vertices of a concatenation, with multiplicity.
proof fn lemma_waiting_multiset_append(a: Seq<TriangleView>, b: Seq<TriangleView>)
    ensures
        waiting_multiset(a + b) == waiting_multiset(a).add(waiting_multiset(b)),
{
    lemma_gathered_append(a, b);
    vstd::seq_lib::lemma_multiset_commutative(gathered(a), gathered(b));
}

/// The waiting vertices of one triangle, with multiplicity.
proof fn lemma_waiting_multiset_single(t: TriangleView)
    ensures
        waiting_multiset(seq![t]) == t.assigned.to_multiset(),
{
    lemma_gathered_single(t);
}

/// Replacing one triangle exchanges its waiting vertices, with multiplicity.
proof fn lemma_waiting_multiset_update(s: Seq<TriangleView>, i: int, t: TriangleView)
    requires
        0 <= i < s.len(),
    ensures
        waiting_multiset(s.update(i, t)).add(s[i].assigned.to_multiset()) =~= waiting_multiset(s).add(
            t.assigned.to_multiset(),
        ),
{
    let p = s.subrange(0, i);
    let q = s.subrange(i + 1, s.len() as int);
    assert(s =~= p + seq![s[i]] + q);
    assert(s.update(i, t) =~= p + seq![t] + q);
    lemma_waiting_multiset_append(p + seq![s[i]], q);
    lemma_waiting_multiset_append(p, seq![s[i]]);
    lemma_waiting_multiset_append(p + seq![t], q);
    lemma_waiting_multiset_append(p, seq![t]);
    lemma_waiting_multiset_single(s[i]);
    lemma_waiting_multiset_single(t);
}

/// `swap_remove` drops the removed triangle's waiting vertices, with multiplicity.
proof fn lemma_waiting_multiset_swap_remove(s: Seq<TriangleView>, i: int)
    requires
        0 <= i < s.len(),
    ensures
        waiting_multiset(swap_remove(s, i)).add(s[i].assigned.to_multiset()) =~= waiting_multiset(s),
{
    let n = s.len() as int;
    let t = s.drop_last();
    assert(s =~= t + seq![s[n - 1]]);
    lemma_waiting_multiset_append(t, seq![s[n - 1]]);
    lemma_waiting_multiset_single(s[n - 1]);
    if i < n - 1 {
        assert(swap_remove(s, i) =~= t.update(i, s[n - 1]));
        lemma_waiting_multiset_update(t, i, s[n - 1]);
    } else {
        assert(swap_remove(s, i) =~= t);
    }
}

/// The waiting vertices are split, with multiplicity, between the triangles
/// that stay and those swept out.
pub proof fn lemma_waiting_multiset_sweep(s: Seq<TriangleView>, flags: Seq<bool>, n: nat)
    requires
        n <= s.len(),
        n <= flags.len(),
    ensures
        waiting_multiset(sweep(s, flags, n)).add(waiting_multiset(swept_out(s, flags, n)))
            =~= waiting_multiset(s),
    decreases n,
{
    broadcast use vstd::seq_lib::group_to_multiset_ensures;
    if n == 0 {
        assert(gathered(Seq::<TriangleView>::empty()) =~= Seq::<usize>::empty());
        assert(Seq::<usize>::empty().to_multiset().len() == 0);
    } else {
        let i = (n - 1) as int;
        if flags[i] {
            let s2 = swap_remove(s, i);
            lemma_waiting_multiset_sweep(s2, flags, i as nat);
            lemma_waiting_multiset_swap_remove(s, i);
            lemma_waiting_multiset_append(seq![s[i]], swept_out(s2, flags, i as nat));
            lemma_waiting_multiset_single(s[i]);
        } else {
            lemma_waiting_multiset_sweep(s, flags, i as nat);
        }
    }
}

/// Assignment adds to the waiting vertices only listed vertices other than the
/// excluded one, each at most as often as it is listed.
proof fn lemma_waiting_multiset_assign(
    ts: Seq<TriangleView>,
    first: int,
    vertices: Seq<usize>,
    exclusion: usize,
    tolerance: u32,
    rows: Seq<Vec<u32>>,
    k: nat,
    x: usize,
)
    requires
        0 <= first <= ts.len(),
        k <= vertices.len(),
        k <= rows.len(),
        forall|q: int| 0 <= q < rows.len() ==> (#[trigger] rows[q])@.len() == ts.len() - first,
    ensures
        waiting_multiset(assign_prefix(ts, first, vertices, exclusion, tolerance, rows, k)).count(x)
            <= waiting_multiset(ts).count(x) + if x == exclusion {
            0
        } else {
            vertices.subrange(0, k as int).to_multiset().count(x)
        },
    decreases k,
{
    broadcast use vstd::seq_lib::group_to_multiset_ensures;
    if k > 0 {
        lemma_waiting_multiset_assign(ts, first, vertices, exclusion, tolerance, rows, (k - 1) as nat, x);
        lemma_assignment_keeps_faces(ts, first, vertices, exclusion, tolerance, rows, (k - 1) as nat);
        assert(vertices.subrange(0, k as int) =~= vertices.subrange(0, k - 1).push(vertices[k - 1]));
        assert(vertices.subrange(0, k as int).to_multiset().count(x) == vertices.subrange(0, k - 1).to_multiset().count(x)
            + if vertices[k - 1] == x { 1nat } else { 0nat }) by {
            vstd::seq_lib::to_multiset_build(vertices.subrange(0, k - 1), vertices[k - 1]);
        }
        let prev = assign_prefix(ts, first, vertices, exclusion, tolerance, rows, (k - 1) as nat);
        let v = vertices[k - 1];
        if v != exclusion {
            match first_greatest(rows[k - 1]@, tolerance) {
                Some(j) => {
                    let row = rows[k - 1]@;
                    assert(is_first_greatest(row, tolerance, j));
                    let t2 = with_assigned(prev[first + j], v, row[j]);
                    lemma_waiting_multiset_update(prev, first + j, t2);
                    assert(t2.assigned.to_multiset() =~= prev[first + j].assigned.to_multiset().insert(v));
                    let next = prev.update(first + j, t2);
                    assert(assign_prefix(ts, first, vertices, exclusion, tolerance, rows, k) == next);
                    let lhs = waiting_multiset(next).add(prev[first + j].assigned.to_multiset());
                    let rhs = waiting_multiset(prev).add(t2.assigned.to_multiset());
                    assert(lhs == rhs);
                    assert(lhs.count(x) == rhs.count(x));
                    assert(waiting_multiset(next).count(x) + prev[first + j].assigned.to_multiset().count(x)
                        == waiting_multiset(prev).count(x) + t2.assigned.to_multiset().count(x));
                    assert(waiting_multiset(next).count(x) == waiting_multiset(prev).count(x)
                        + if x == v { 1nat } else { 0nat });
                },
                None => {
                    assert(assign_prefix(ts, first, vertices, exclusion, tolerance, rows, k) == prev);
                },
            }
        } else {
            assert(assign_prefix(ts, first, vertices, exclusion, tolerance, rows, k) == prev);
        }
    }
}

/// The start of the construction: the tetrahedron over four distinct picks,
/// with the listed vertices other than the first pick assigned to it, is a
/// closed surface whose waiting vertices are sound, when the list repeats no
/// vertex and holds none of the picks.
pub proof fn lemma_construction_start(
    picks: Seq<usize>,
    flip: bool,
    vertices: Seq<usize>,
    tolerance: u32,
    rows: Seq<Vec<u32>>,
    count: nat,
)
    requires
        forall|k: int| 0 <= k < 4 ==> #[trigger] picks[k] < count,
        forall|k: int| 0 <= k < vertices.len() ==> #[trigger] vertices[k] < count,
        picks.len() == 4,
        picks[0] != picks[1] && picks[0] != picks[2] && picks[0] != picks[3],
        picks[1] != picks[2] && picks[1] != picks[3] && picks[2] != picks[3],
        vertices.no_duplicates(),
        forall|k: int| 0 <= k < vertices.len() ==> !picks.contains(#[trigger] vertices[k]),
        rows.len() == vertices.len(),
        forall|q: int| 0 <= q < rows.len() ==> (#[trigger] rows[q])@.len() == 4,
    ensures
        ({
            let start = assign_prefix(
                tetrahedron(picks[0], picks[1], picks[2], picks[3], flip),
                0,
                vertices,
                picks[0],
                tolerance,
                rows,
                vertices.len(),
            );
            &&& is_closed(edge_multiset(faces_of(start)))
            &&& waiting_is_sound(start)
            &&& all_furthest_recorded(start)
            &&& all_furthest_beyond(start, tolerance)
            &&& refers_below(start, count)
        }),
{
    broadcast use vstd::seq_lib::group_to_multiset_ensures;
    let tet = tetrahedron(picks[0], picks[1], picks[2], picks[3], flip);
    let start = assign_prefix(tet, 0, vertices, picks[0], tolerance, rows, vertices.len());
    lemma_tetrahedron_closed(picks[0], picks[1], picks[2], picks[3], flip);
    lemma_assignment_keeps_faces(tet, 0, vertices, picks[0], tolerance, rows, vertices.len());
    lemma_construction_keeps_furthest_recorded(
        tet, picks, flip, 0, vertices, picks[0], tolerance, rows, Seq::empty(), Seq::empty(), 0,
    );
    lemma_construction_keeps_furthest_beyond(
        tet, picks, flip, 0, vertices, picks[0], tolerance, rows, Seq::empty(), Seq::empty(), 0,
    );
    assert(waiting_multiset(tet) =~= Multiset::empty()) by {
        lemma_gathered_nothing(tet);
        assert(gathered(tet).to_multiset().len() == 0);
    }
    assert(vertices.subrange(0, vertices.len() as int) =~= vertices);
    vertices.lemma_multiset_has_no_duplicates();
    assert forall|x: usize| #[trigger] waiting_multiset(start).count(x) <= 1 by {
        lemma_waiting_multiset_assign(tet, 0, vertices, picks[0], tolerance, rows, vertices.len(), x);
        if vertices.to_multiset().count(x) > 0 {
            assert(vertices.to_multiset().contains(x));
        }
    }
    assert forall|x: usize| #[trigger] waiting_multiset(start).count(x) > 0 implies
        !crate::topology::is_vertex_of(faces_of(start), x) by {
        lemma_waiting_multiset_assign(tet, 0, vertices, picks[0], tolerance, rows, vertices.len(), x);
        vstd::seq_lib::to_multiset_contains(vertices, x);
        let k = choose|k: int| 0 <= k < vertices.len() && vertices[k] == x;
        assert(!picks.contains(x));
        if crate::topology::is_vertex_of(faces_of(start), x) {
            let i = choose|i: int| 0 <= i < faces_of(tet).len() && crate::topology::is_corner(#[trigger] faces_of(tet)[i], x);
            assert(picks[0] == picks[0]);
            assert(picks.contains(picks[0]) && picks.contains(picks[1]) && picks.contains(picks[2]) && picks.contains(picks[3])) by {
                assert(picks[0] == picks[0]);
            }
        }
    }
    assert forall|x: usize| #[trigger] crate::topology::is_vertex_of(faces_of(start), x) implies x < count by {
        let i = choose|i: int| 0 <= i < faces_of(tet).len() && crate::topology::is_corner(#[trigger] faces_of(tet)[i], x);
        assert(picks[0] < count && picks[1] < count && picks[2] < count && picks[3] < count);
    }
    assert forall|x: usize| #[trigger] waiting_multiset(start).count(x) > 0 implies x < count by {
        lemma_waiting_multiset_assign(tet, 0, vertices, picks[0], tolerance, rows, vertices.len(), x);
        vstd::seq_lib::to_multiset_contains(vertices, x);
        let k = choose|k: int| 0 <= k < vertices.len() && vertices[k] == x;
    }
}


/// Every element of `flagged_descending` is an element of the sequence.
proof fn lemma_flagged_descending_elements(s: Seq<TriangleView>, flags: Seq<bool>, n: nat, k: int)
    requires
        n <= s.len(),
        0 <= k < crate::topology::flagged_descending(s, flags, n).len(),
    ensures
        exists|j: int| 0 <= j < s.len() && #[trigger] s[j] == crate::topology::flagged_descending(s, flags, n)[k],
    decreases n,
{
    let rest = crate::topology::flagged_descending(s, flags, (n - 1) as nat);
    if flags[n - 1] {
        if k == 0 {
            assert(s[n - 1] == crate::topology::flagged_descending(s, flags, n)[0]);
        } else {
            lemma_flagged_descending_elements(s, flags, (n - 1) as nat, k - 1);
        }
    } else {
        lemma_flagged_descending_elements(s, flags, (n - 1) as nat, k);
    }
}

/// Whether the triangle occurs in the sequence.
pub open spec fn occurs_in(whole: Seq<TriangleView>, t: TriangleView) -> bool {
    exists|j: int| 0 <= j < whole.len() && whole[j] == t
}

/// A corner of some of the elements is a corner of the whole when each element
/// occurs in the whole.
proof fn lemma_corner_of_part(part: Seq<TriangleView>, whole: Seq<TriangleView>, x: usize)
    requires
        crate::topology::is_vertex_of(faces_of(part), x),
        forall|k: int| 0 <= k < part.len() ==> occurs_in(whole, #[trigger] part[k]),
    ensures
        crate::topology::is_vertex_of(faces_of(whole), x),
{
    let k = choose|k: int| 0 <= k < faces_of(part).len() && crate::topology::is_corner(#[trigger] faces_of(part)[k], x);
    assert(occurs_in(whole, part[k]));
    let j = choose|j: int| 0 <= j < whole.len() && whole[j] == part[k];
    assert(faces_of(whole)[j] == faces_of(part)[k]);
}

/// One step of the construction keeps what the construction relies on and
/// makes progress. Suppose the hull is closed, its triangles have distinct
/// corners, no vertex waits twice or on the hull, every triangle records its
/// furthest vertex faithfully and at a distance beyond the tolerance (which is
/// not below zero), the new vertex is the next one picked, its distance to the
/// triangle that records it is the recorded one, and the seam of the triangles
/// it sees passes every vertex at most once. Then after the visible triangles
/// are replaced by the cone and their waiting vertices other than the new one
/// are reassigned with that tolerance, all of this holds again and fewer
/// vertices wait.
pub proof fn lemma_construction_step(
    before: Seq<TriangleView>,
    distances: Seq<u32>,
    seam: Seq<Edge>,
    apex: usize,
    tolerance: u32,
    rows: Seq<Vec<u32>>,
    count: nat,
)
    requires
        refers_below(before, count),
        distances.len() == before.len(),
        is_closed(edge_multiset(faces_of(before))),
        waiting_is_sound(before),
        all_furthest_recorded(before),
        best_vertex(before) == Some(apex),
        crate::euler::corners_distinct(faces_of(before)),
        float_le(POSITIVE_ZERO, tolerance),
        all_furthest_beyond(before, tolerance),
        forall|i: int| 0 <= i < before.len() && (#[trigger] before[i]).furthest is Some
            && before[i].furthest.unwrap().0 == apex ==> distances[i] == before[i].furthest.unwrap().1,
        pairs_of(seam).no_duplicates(),
        pairs_of(seam).to_set() == horizon(
            edge_multiset(faces_of(swept_out(before, visible_flags(distances), before.len()))),
        ),
        crate::topology::is_simple_seam(pairs_of(seam)),
        rows.len() == gathered(swept_out(before, visible_flags(distances), before.len())).len(),
        forall|q: int| 0 <= q < rows.len() ==> (#[trigger] rows[q])@.len() == seam.len(),
    ensures
        ({
            let vis = visible_flags(distances);
            let kept = sweep(before, vis, before.len());
            let list = gathered(swept_out(before, vis, before.len()));
            let after = assign_prefix(
                kept + cone_triangles(seam, apex),
                kept.len() as int,
                list,
                apex,
                tolerance,
                rows,
                list.len(),
            );
            &&& is_closed(edge_multiset(faces_of(after)))
            &&& waiting_is_sound(after)
            &&& all_furthest_recorded(after)
            &&& refers_below(after, count)
            &&& all_furthest_beyond(after, tolerance)
            &&& crate::euler::corners_distinct(faces_of(after))
            &&& waiting(after) < waiting(before)
        }),
{
    broadcast use vstd::seq_lib::group_to_multiset_ensures;
    let vis = visible_flags(distances);
    let n = before.len();
    let kept = sweep(before, vis, n);
    let out = swept_out(before, vis, n);
    let list = gathered(out);
    let cone_ts = cone_triangles(seam, apex);
    let base = kept + cone_ts;
    let after = assign_prefix(base, kept.len() as int, list, apex, tolerance, rows, list.len());
    crate::topology::lemma_sweep_removes_flagged(before, vis, n);
    // The apex waits in a visible triangle, so it is not on the hull.
    lemma_next_vertex_is_waiting(before, apex);
    let i = choose|i: int| 0 <= i < before.len() && #[trigger] before[i].assigned.contains(apex)
        && before[i].furthest is Some && before[i].furthest.unwrap().0 == apex;
    // The apex lies at its recorded distance above that triangle, beyond the
    // tolerance and so above zero: the triangle is visible.
    assert(distances[i] == before[i].furthest.unwrap().1);
    assert(vis[i]);
    lemma_gathered_contains(before, i, apex);
    vstd::seq_lib::to_multiset_contains(gathered(before), apex);
    assert(waiting_multiset(before).count(apex) > 0);
    assert(!crate::topology::is_vertex_of(faces_of(before), apex));
    // Closedness.
    lemma_hull_step_keeps_closed(before, distances, seam, apex);
    assert(list.len() == rows.len());
    assert forall|q: int| 0 <= q < rows.len() implies (#[trigger] rows[q])@.len() == base.len() - kept.len() by {}
    lemma_assignment_keeps_faces(base, kept.len() as int, list, apex, tolerance, rows, list.len());
    // Furthest vertices.
    lemma_construction_keeps_furthest_recorded(
        before, seq![0usize, 0, 0, 0], false, 0, Seq::empty(), apex, tolerance, Seq::empty(), distances,
        seam, apex,
    );
    lemma_construction_keeps_furthest_recorded(
        kept, seq![0usize, 0, 0, 0], false, kept.len() as int, list, apex, tolerance, rows, Seq::empty(),
        seam, apex,
    );
    lemma_construction_keeps_furthest_recorded(
        base, seq![0usize, 0, 0, 0], false, kept.len() as int, list, apex, tolerance, rows, Seq::empty(),
        Seq::empty(), apex,
    );
    lemma_construction_keeps_furthest_beyond(
        before, seq![0usize, 0, 0, 0], false, 0, Seq::empty(), apex, tolerance, Seq::empty(), distances,
        seam, apex,
    );
    lemma_construction_keeps_furthest_beyond(
        kept, seq![0usize, 0, 0, 0], false, kept.len() as int, list, apex, tolerance, rows, Seq::empty(),
        seam, apex,
    );
    lemma_construction_keeps_furthest_beyond(
        base, seq![0usize, 0, 0, 0], false, kept.len() as int, list, apex, tolerance, rows, Seq::empty(),
        Seq::empty(), apex,
    );
    // Distinct corners.
    lemma_faces_of_sweep(before, vis, n);
    lemma_faces_of_append(kept, cone_ts);
    lemma_faces_of_cone(seam, apex);
    crate::euler::lemma_cone_replacement_keeps_distinct_corners(faces_of(before), vis, pairs_of(seam), apex);
    // Progress.
    lemma_step_lowers_waiting(before, distances, seam, apex, tolerance, rows, i);
    // Soundness of the waiting vertices.
    lemma_waiting_multiset_sweep(before, vis, n);
    lemma_waiting_multiset_append(kept, cone_ts);
    lemma_cone_gathers_nothing(seam, apex);
    assert(waiting_multiset(cone_ts) =~= Multiset::empty()) by {
        assert(gathered(cone_ts).to_multiset().len() == 0);
    }
    assert(waiting_multiset(base) =~= waiting_multiset(kept));
    assert(list.subrange(0, list.len() as int) =~= list);
    lemma_flagged_descending_has(before, vis, n, i);
    let k = choose|k: int| 0 <= k < out.len() && #[trigger] out[k] == before[i];
    lemma_gathered_contains(out, k, apex);
    vstd::seq_lib::to_multiset_contains(list, apex);
    assert(waiting_multiset(kept).count(apex) == 0) by {
        assert(waiting_multiset(out).count(apex) > 0);
        assert(waiting_multiset(before).count(apex) <= 1);
    }
    assert forall|x: usize| #[trigger] waiting_multiset(after).count(x) <= 1 by {
        lemma_waiting_multiset_assign(base, kept.len() as int, list, apex, tolerance, rows, list.len(), x);
        assert(waiting_multiset(before).count(x) <= 1);
    }
    assert forall|k: int| 0 <= k < out.len() implies occurs_in(before, #[trigger] out[k]) by {
        lemma_flagged_descending_elements(before, vis, n, k);
    }
    assert forall|k: int| 0 <= k < kept.len() implies occurs_in(before, #[trigger] kept[k]) by {
        lemma_sweep_elements(before, vis, n, k);
    }
    assert forall|x: usize| #[trigger] waiting_multiset(after).count(x) > 0 implies
        !crate::topology::is_vertex_of(faces_of(after), x) by {
        lemma_waiting_multiset_assign(base, kept.len() as int, list, apex, tolerance, rows, list.len(), x);
        assert(x != apex);
        assert(waiting_multiset(before).count(x) > 0);
        assert(!crate::topology::is_vertex_of(faces_of(before), x));
        if crate::topology::is_vertex_of(faces_of(after), x) {
            assert(faces_of(after) == faces_of(base));
            lemma_faces_of_append(kept, cone_ts);
            let j = choose|j: int| 0 <= j < faces_of(base).len() && crate::topology::is_corner(#[trigger] faces_of(base)[j], x);
            if j < kept.len() {
                assert(faces_of(kept)[j] == faces_of(base)[j]);
                lemma_corner_of_part(kept, before, x);
            } else {
                let e = seam[j - kept.len()];
                assert(faces_of(base)[j] == TriangleIndices(e.start, e.end, apex));
                let p = pairs_of(seam)[j - kept.len()];
                assert(p == (e.start, e.end));
                assert(pairs_of(seam).to_set().contains(p));
                crate::topology::lemma_edge_joins_corners(faces_of(out), p);
                lemma_corner_of_part(out, before, x);
            }
        }
    }
    assert forall|x: usize| #[trigger] waiting_multiset(after).count(x) > 0 implies x < count by {
        lemma_waiting_multiset_assign(base, kept.len() as int, list, apex, tolerance, rows, list.len(), x);
        assert(waiting_multiset(before).count(x) > 0);
    }
    assert(apex < count);
    assert forall|x: usize| #[trigger] crate::topology::is_vertex_of(faces_of(after), x) implies x < count by {
        assert(faces_of(after) == faces_of(base));
        lemma_faces_of_append(kept, cone_ts);
        let j = choose|j: int| 0 <= j < faces_of(base).len() && crate::topology::is_corner(#[trigger] faces_of(base)[j], x);
        if j < kept.len() {
            assert(faces_of(kept)[j] == faces_of(base)[j]);
            lemma_corner_of_part(kept, before, x);
        } else if x != apex {
            let e = seam[j - kept.len()];
            assert(faces_of(base)[j] == TriangleIndices(e.start, e.end, apex));
            let p = pairs_of(seam)[j - kept.len()];
            assert(p == (e.start, e.end));
            assert(pairs_of(seam).to_set().contains(p));
            crate::topology::lemma_edge_joins_corners(faces_of(out), p);
            lemma_corner_of_part(out, before, x);
        }
    }
}

} // verus!
