//! The relation F = 2V - 4 between the triangles and the vertices of a closed
//! surface, triangles with three distinct corners, and how the replacement of
//! the triangles a new vertex sees by a cone over their seam carries both over.

use vstd::prelude::*;
use crate::consistency::used_vertices;
use crate::edge::reverse_pair;
use crate::topology::{
    cone, edge_multiset, horizon, is_closed, is_corner, is_vertex_of, lemma_edge_joins_corners,
    lemma_sweep_removes_flagged, lemma_sweep_splits_edges, sweep, swept_out,
};
use crate::triangle_indices::TriangleIndices;

verus! {

/// The number of triangles plus four is twice the number of vertices they use.
pub open spec fn satisfies_euler(faces: Seq<TriangleIndices>) -> bool {
    faces.len() + 4 == 2 * used_vertices(faces).len()
}

/// The corners of the triangles swept out that are no corner of a triangle that
/// stays: the vertices inside the region that is swept out.
pub open spec fn interior_vertices(faces: Seq<TriangleIndices>, visible: Seq<bool>) -> Set<usize> {
    used_vertices(swept_out(faces, visible, faces.len())).difference(
        used_vertices(sweep(faces, visible, faces.len())),
    )
}

/// Every triangle has three distinct corners.
pub open spec fn corners_distinct(faces: Seq<TriangleIndices>) -> bool {
    forall|i: int| 0 <= i < faces.len() ==> {
        let t = #[trigger] faces[i];
        t.0 != t.1 && t.1 != t.2 && t.0 != t.2
    }
}

/// When a sequence of triangles is split, as multisets, into two parts, every
/// triangle of a part is a triangle of the whole, so the parts keep distinct
/// corners.
proof fn lemma_split_keeps_distinct(whole: Seq<TriangleIndices>, a: Seq<TriangleIndices>, b: Seq<TriangleIndices>)
    requires
        a.to_multiset().add(b.to_multiset()) == whole.to_multiset(),
        corners_distinct(whole),
    ensures
        corners_distinct(a),
        corners_distinct(b),
{
    broadcast use vstd::seq_lib::group_to_multiset_ensures;
    broadcast use vstd::multiset::group_multiset_axioms;
    assert forall|i: int| 0 <= i < a.len() implies {
        let t = #[trigger] a[i];
        t.0 != t.1 && t.1 != t.2 && t.0 != t.2
    } by {
        let t = a[i];
        assert(a.contains(t));
        assert(a.to_multiset().count(t) > 0);
        assert(a.to_multiset().add(b.to_multiset()).count(t) > 0);
        assert(whole.contains(t));
        let j = choose|j: int| 0 <= j < whole.len() && whole[j] == t;
        assert(whole[j] == t);
    }
    assert forall|i: int| 0 <= i < b.len() implies {
        let t = #[trigger] b[i];
        t.0 != t.1 && t.1 != t.2 && t.0 != t.2
    } by {
        let t = b[i];
        assert(b.contains(t));
        assert(b.to_multiset().count(t) > 0);
        assert(a.to_multiset().add(b.to_multiset()).count(t) > 0);
        assert(whole.contains(t));
        let j = choose|j: int| 0 <= j < whole.len() && whole[j] == t;
        assert(whole[j] == t);
    }
}

/// An edge of triangles with distinct corners joins two different indices.
pub proof fn lemma_edge_of_distinct_corners(faces: Seq<TriangleIndices>, e: (usize, usize))
    requires
        corners_distinct(faces),
        edge_multiset(faces).count(e) > 0,
    ensures
        e.0 != e.1,
    decreases faces.len(),
{
    if faces.len() > 0 {
        let init = faces.drop_last();
        let t = faces.last();
        assert(faces[faces.len() - 1] == t);
        if edge_multiset(init).count(e) > 0 {
            assert forall|i: int| 0 <= i < init.len() implies {
                let u = #[trigger] init[i];
                u.0 != u.1 && u.1 != u.2 && u.0 != u.2
            } by {
                assert(init[i] == faces[i]);
            }
            lemma_edge_of_distinct_corners(init, e);
        } else {
            assert(crate::topology::triangle_edges(t).count(e) > 0);
        }
    }
}

/// Replacing the triangles a new vertex sees by the cone from that vertex over
/// their seam keeps every triangle's corners distinct, when the new vertex is
/// not yet on the surface.
pub proof fn lemma_cone_replacement_keeps_distinct_corners(
    faces: Seq<TriangleIndices>,
    visible: Seq<bool>,
    seam: Seq<(usize, usize)>,
    apex: usize,
)
    requires
        visible.len() == faces.len(),
        corners_distinct(faces),
        !is_vertex_of(faces, apex),
        seam.to_set() == horizon(edge_multiset(swept_out(faces, visible, faces.len()))),
    ensures
        corners_distinct(sweep(faces, visible, faces.len()) + cone(seam, apex)),
{
    let n = faces.len();
    let kept = sweep(faces, visible, n);
    let gone = swept_out(faces, visible, n);
    let added = cone(seam, apex);
    let result = kept + added;
    lemma_sweep_removes_flagged(faces, visible, n);
    lemma_split_keeps_distinct(faces, kept, gone);
    assert forall|i: int| 0 <= i < result.len() implies {
        let t = #[trigger] result[i];
        t.0 != t.1 && t.1 != t.2 && t.0 != t.2
    } by {
        if i < kept.len() {
            assert(result[i] == kept[i]);
        } else {
            let k = i - kept.len();
            let e = seam[k];
            assert(result[i] == TriangleIndices(e.0, e.1, apex));
            assert(seam.to_set().contains(e));
            assert(edge_multiset(gone).count(e) > 0);
            lemma_edge_of_distinct_corners(gone, e);
            lemma_edge_joins_corners(gone, e);
            lemma_vertex_of_split(faces, kept, gone, e.0);
            lemma_vertex_of_split(faces, kept, gone, e.1);
        }
    }
}

/// Finitely many indices are corners of a sequence of triangles.
pub proof fn lemma_used_vertices_finite(faces: Seq<TriangleIndices>)
    ensures
        used_vertices(faces).finite(),
    decreases faces.len(),
{
    if faces.len() == 0 {
        assert(used_vertices(faces) =~= Set::empty());
    } else {
        let init = faces.drop_last();
        let t = faces.last();
        lemma_used_vertices_finite(init);
        let corners = set![t.0, t.1, t.2];
        assert(used_vertices(faces) =~= used_vertices(init).union(corners)) by {
            assert forall|v: usize| used_vertices(faces).contains(v) implies
                #[trigger] used_vertices(init).union(corners).contains(v) by {
                let i = choose|i: int| 0 <= i < faces.len() && is_corner(#[trigger] faces[i], v);
                if i < init.len() {
                    assert(init[i] == faces[i]);
                }
            }
            assert forall|v: usize| #[trigger] used_vertices(init).union(corners).contains(v)
                implies used_vertices(faces).contains(v) by {
                if used_vertices(init).contains(v) {
                    let i = choose|i: int| 0 <= i < init.len() && is_corner(#[trigger] init[i], v);
                    assert(faces[i] == init[i]);
                } else {
                    assert(is_corner(faces[faces.len() - 1], v));
                }
            }
        }
    }
}

/// When a sequence of triangles is split, as multisets, into two parts, an index
/// is a corner of the whole exactly when it is a corner of one of the parts.
proof fn lemma_vertex_of_split(
    whole: Seq<TriangleIndices>,
    a: Seq<TriangleIndices>,
    b: Seq<TriangleIndices>,
    v: usize,
)
    requires
        a.to_multiset().add(b.to_multiset()) == whole.to_multiset(),
    ensures
        is_vertex_of(whole, v) <==> (is_vertex_of(a, v) || is_vertex_of(b, v)),
{
    broadcast use vstd::seq_lib::group_to_multiset_ensures;
    broadcast use vstd::multiset::group_multiset_axioms;
    assert forall|t: TriangleIndices| #[trigger] whole.to_multiset().count(t) == a.to_multiset().count(t)
        + b.to_multiset().count(t) by {
        assert(a.to_multiset().add(b.to_multiset()).count(t) == a.to_multiset().count(t)
            + b.to_multiset().count(t));
    }
    if is_vertex_of(whole, v) {
        let i = choose|i: int| 0 <= i < whole.len() && is_corner(#[trigger] whole[i], v);
        let t = whole[i];
        assert(whole.contains(t));
        assert(whole.to_multiset().count(t) > 0);
        if a.to_multiset().count(t) > 0 {
            assert(a.contains(t));
            let j = choose|j: int| 0 <= j < a.len() && a[j] == t;
            assert(is_corner(a[j], v));
        } else {
            assert(b.to_multiset().count(t) > 0);
            assert(b.contains(t));
            let j = choose|j: int| 0 <= j < b.len() && b[j] == t;
            assert(is_corner(b[j], v));
        }
    }
    if is_vertex_of(a, v) {
        let j = choose|j: int| 0 <= j < a.len() && is_corner(#[trigger] a[j], v);
        let t = a[j];
        assert(a.contains(t));
        assert(a.to_multiset().count(t) > 0);
        assert(whole.to_multiset().count(t) > 0);
        assert(whole.contains(t));
        let i = choose|i: int| 0 <= i < whole.len() && whole[i] == t;
        assert(is_corner(whole[i], v));
    }
    if is_vertex_of(b, v) {
        let j = choose|j: int| 0 <= j < b.len() && is_corner(#[trigger] b[j], v);
        let t = b[j];
        assert(b.contains(t));
        assert(b.to_multiset().count(t) > 0);
        assert(whole.to_multiset().count(t) > 0);
        assert(whole.contains(t));
        let i = choose|i: int| 0 <= i < whole.len() && whole[i] == t;
        assert(is_corner(whole[i], v));
    }
}

/// An index is a corner of a concatenation exactly when it is a corner of one
/// of the parts.
proof fn lemma_vertex_of_append(a: Seq<TriangleIndices>, b: Seq<TriangleIndices>, v: usize)
    ensures
        is_vertex_of(a + b, v) <==> (is_vertex_of(a, v) || is_vertex_of(b, v)),
{
    let ab = a + b;
    if is_vertex_of(ab, v) {
        let i = choose|i: int| 0 <= i < ab.len() && is_corner(#[trigger] ab[i], v);
        if i < a.len() {
            assert(is_corner(a[i], v));
        } else {
            assert(is_corner(b[i - a.len()], v));
        }
    }
    if is_vertex_of(a, v) {
        let j = choose|j: int| 0 <= j < a.len() && is_corner(#[trigger] a[j], v);
        assert(ab[j] == a[j]);
    }
    if is_vertex_of(b, v) {
        let j = choose|j: int| 0 <= j < b.len() && is_corner(#[trigger] b[j], v);
        assert(ab[a.len() + j] == b[j]);
    }
}

/// Replacing the triangles a new vertex sees by the cone from that vertex over
/// their seam carries F = 2V - 4 over to the new surface, when the surface is
/// closed, the new vertex is not yet on it, the seam is not empty, and the
/// triangles swept out form a disk: their number plus two is the length of the
/// seam plus twice the number of vertices inside them.
pub proof fn lemma_cone_replacement_keeps_euler(
    faces: Seq<TriangleIndices>,
    visible: Seq<bool>,
    seam: Seq<(usize, usize)>,
    apex: usize,
)
    requires
        visible.len() == faces.len(),
        is_closed(edge_multiset(faces)),
        !is_vertex_of(faces, apex),
        seam.to_set() == horizon(edge_multiset(swept_out(faces, visible, faces.len()))),
        seam.len() > 0,
        satisfies_euler(faces),
        swept_out(faces, visible, faces.len()).len() + 2 == seam.len() + 2 * interior_vertices(
            faces,
            visible,
        ).len(),
    ensures
        satisfies_euler(sweep(faces, visible, faces.len()) + cone(seam, apex)),
        corners_distinct(faces) ==> (sweep(faces, visible, faces.len()) + cone(seam, apex)).len() >= 4,
{
    let n = faces.len();
    let kept = sweep(faces, visible, n);
    let gone = swept_out(faces, visible, n);
    let added = cone(seam, apex);
    let result = kept + added;
    lemma_sweep_removes_flagged(faces, visible, n);
    lemma_sweep_splits_edges(faces, visible, n);
    lemma_used_vertices_finite(kept);
    lemma_used_vertices_finite(gone);
    let uk = used_vertices(kept);
    let inner = interior_vertices(faces, visible);
    // The vertices of the old surface: those of the kept triangles and the
    // interior ones.
    assert(used_vertices(faces) =~= uk + inner) by {
        assert forall|v: usize| #[trigger] used_vertices(faces).contains(v) == (uk + inner).contains(v) by {
            lemma_vertex_of_split(faces, kept, gone, v);
        }
    }
    assert(uk.disjoint(inner));
    vstd::set_lib::lemma_set_disjoint_lens(uk, inner);
    // Every seam vertex is a corner of a kept triangle.
    let all = edge_multiset(faces);
    let ke = edge_multiset(kept);
    let ge = edge_multiset(gone);
    assert forall|k: int| 0 <= k < seam.len() implies is_vertex_of(kept, (#[trigger] seam[k]).0)
        && is_vertex_of(kept, seam[k].1) && seam[k].0 != apex && seam[k].1 != apex by {
        let e = seam[k];
        assert(seam.to_set().contains(e));
        assert(ge.count(e) > 0 && ge.count(reverse_pair(e)) == 0);
        assert(all.count(e) > 0);
        assert(all.count(reverse_pair(e)) == 1);
        assert(ke.count(reverse_pair(e)) == 1);
        lemma_edge_joins_corners(kept, reverse_pair(e));
        lemma_vertex_of_split(faces, kept, gone, e.0);
        lemma_vertex_of_split(faces, kept, gone, e.1);
    }
    // The vertices of the new surface: those of the kept triangles and the apex.
    assert(used_vertices(result) =~= uk.insert(apex)) by {
        assert forall|v: usize| #[trigger] used_vertices(result).contains(v) == uk.insert(apex).contains(v) by {
            lemma_vertex_of_append(kept, added, v);
            if is_vertex_of(added, v) {
                let i = choose|i: int| 0 <= i < added.len() && is_corner(#[trigger] added[i], v);
                assert(added[i] == TriangleIndices(seam[i].0, seam[i].1, apex));
            }
            if v == apex {
                assert(added[0] == TriangleIndices(seam[0].0, seam[0].1, apex));
                assert(is_corner(added[0], v));
            }
        }
    }
    lemma_vertex_of_split(faces, kept, gone, apex);
    assert(!uk.contains(apex));
    assert(result.len() == kept.len() + seam.len());
    if corners_distinct(faces) {
        // A kept triangle exists (it holds the reverse of a seam edge) and has
        // three distinct corners, so the new surface has at least four vertices.
        lemma_split_keeps_distinct(faces, kept, gone);
        assert(is_vertex_of(kept, seam[0].0));
        assert(kept.len() > 0);
        let t = kept[0];
        assert(is_corner(kept[0], t.0) && is_corner(kept[0], t.1) && is_corner(kept[0], t.2));
        let three = set![t.0, t.1, t.2];
        assert(three.subset_of(uk));
        assert(set![t.0].len() == 1);
        assert(set![t.0, t.1].len() == 2);
        assert(three.len() == 3);
        vstd::set_lib::lemma_len_subset(three, uk);
        assert(used_vertices(result).len() == uk.len() + 1);
    }
}

} // verus!
