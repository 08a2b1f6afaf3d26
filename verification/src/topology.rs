//! The surface model of a hull: its triangles as index triples, the multiset of
//! their directed edges, closedness, and how a cone over the horizon replaces
//! the triangles that a new vertex sees.

use vstd::prelude::*;
use vstd::multiset::Multiset;
use crate::edge::reverse_pair;
use crate::seam::{ends_at, starts_at};
use crate::triangle_indices::TriangleIndices;

verus! {

/// The three directed edges of a triangle, in its winding order.
pub open spec fn triangle_edges(t: TriangleIndices) -> Multiset<(usize, usize)> {
    Multiset::empty().insert((t.0, t.1)).insert((t.1, t.2)).insert((t.2, t.0))
}

/// The multiset of the directed edges of all triangles.
pub open spec fn edge_multiset(faces: Seq<TriangleIndices>) -> Multiset<(usize, usize)>
    decreases faces.len(),
{
    if faces.len() == 0 {
        Multiset::empty()
    } else {
        edge_multiset(faces.drop_last()).add(triangle_edges(faces.last()))
    }
}

/// The directed edges of a triangle are the three pairs of consecutive corners
/// in winding order, each counted once; the edges of a sequence of triangles are
/// those of its triangles, with multiplicity, so appending a triangle adds its
/// three edges and no triangles have no edges.
pub proof fn lemma_edge_counts(faces: Seq<TriangleIndices>, t: TriangleIndices, e: (usize, usize))
    ensures
        triangle_edges(t).count(e) == (if e == (t.0, t.1) { 1int } else { 0int }) + (if e == (t.1, t.2) {
            1int
        } else {
            0int
        }) + (if e == (t.2, t.0) { 1int } else { 0int }),
        edge_multiset(faces.push(t)).count(e) == edge_multiset(faces).count(e) + triangle_edges(t).count(e),
        edge_multiset(Seq::<TriangleIndices>::empty()).count(e) == 0,
{
    broadcast use vstd::multiset::group_multiset_axioms;
    assert(faces.push(t).drop_last() =~= faces);
}

/// A surface is closed exactly when no directed edge occurs more than once and
/// every edge that occurs has its reverse occurring too.
pub proof fn lemma_closed_iff(edges: Multiset<(usize, usize)>)
    ensures
        is_closed(edges) <==> forall|e: (usize, usize)| #[trigger] edges.count(e) > 0 ==> edges.count(e) == 1
            && edges.count((e.1, e.0)) == 1,
        !is_closed(edges) <==> exists|e: (usize, usize)| #[trigger] edges.count(e) > 0 && (edges.count(e)
            != 1 || edges.count((e.1, e.0)) != 1),
{
}

/// A surface is closed when every directed edge it has occurs exactly once and
/// its reverse occurs exactly once too.
pub open spec fn is_closed(edges: Multiset<(usize, usize)>) -> bool {
    forall|e: (usize, usize)| #[trigger] edges.count(e) > 0 ==> edges.count(e) == 1
        && edges.count(reverse_pair(e)) == 1
}

/// Whether the index is a corner of some triangle.
pub open spec fn is_vertex_of(faces: Seq<TriangleIndices>, v: usize) -> bool {
    exists|i: int| 0 <= i < faces.len() && is_corner(#[trigger] faces[i], v)
}

/// Whether the index is a corner of the triangle.
pub open spec fn is_corner(t: TriangleIndices, v: usize) -> bool {
    t.0 == v || t.1 == v || t.2 == v
}

/// The sequence with the element at `i` replaced by the last one, and the last
/// position dropped.
pub open spec fn swap_remove<A>(s: Seq<A>, i: int) -> Seq<A> {
    s.update(i, s.last()).drop_last()
}

/// The elements left after removing, by `swap_remove` and in descending order of
/// position, every element among the first `n` whose flag is set.
pub open spec fn sweep<A>(s: Seq<A>, flags: Seq<bool>, n: nat) -> Seq<A>
    decreases n,
{
    if n == 0 {
        s
    } else {
        let i = n - 1;
        if flags[i] {
            sweep(swap_remove(s, i), flags, i as nat)
        } else {
            sweep(s, flags, i as nat)
        }
    }
}

/// The elements that `sweep` removes, in the order of removal (descending
/// position).
pub open spec fn swept_out<A>(s: Seq<A>, flags: Seq<bool>, n: nat) -> Seq<A>
    decreases n,
{
    if n == 0 {
        Seq::empty()
    } else {
        let i = n - 1;
        if flags[i] {
            seq![s[i]] + swept_out(swap_remove(s, i), flags, i as nat)
        } else {
            swept_out(s, flags, i as nat)
        }
    }
}

/// The elements among the first `n` whose flag is set, from the highest
/// position down.
pub open spec fn flagged_descending<A>(s: Seq<A>, flags: Seq<bool>, n: nat) -> Seq<A>
    decreases n,
{
    if n == 0 {
        Seq::empty()
    } else {
        let i = n - 1;
        let rest = flagged_descending(s, flags, i as nat);
        if flags[i] {
            seq![s[i]] + rest
        } else {
            rest
        }
    }
}

/// How removal works position by position. `swap_remove` moves the last
/// element into the removed position and keeps every other position; sweeping
/// the first `n` positions handles position `n - 1` first: a flagged one is
/// removed by `swap_remove` (and recorded as swept out first), an unflagged one
/// is kept; the flagged elements are listed from the highest position down.
/// With no flag set nothing is removed.
pub proof fn lemma_removal_rules<A>(s: Seq<A>, flags: Seq<bool>, n: nat, i: int)
    ensures
        0 <= i < s.len() ==> {
            &&& swap_remove(s, i).len() == s.len() - 1
            &&& i < s.len() - 1 ==> swap_remove(s, i)[i] == s[s.len() - 1]
            &&& forall|j: int| 0 <= j < s.len() - 1 && j != i ==> #[trigger] swap_remove(s, i)[j] == s[j]
        },
        sweep(s, flags, 0) == s,
        swept_out(s, flags, 0) == Seq::<A>::empty(),
        flagged_descending(s, flags, 0) == Seq::<A>::empty(),
        0 < n ==> sweep(s, flags, n) == (if flags[n - 1] {
            sweep(swap_remove(s, n - 1), flags, (n - 1) as nat)
        } else {
            sweep(s, flags, (n - 1) as nat)
        }),
        0 < n ==> swept_out(s, flags, n) == (if flags[n - 1] {
            seq![s[n - 1]] + swept_out(swap_remove(s, n - 1), flags, (n - 1) as nat)
        } else {
            swept_out(s, flags, (n - 1) as nat)
        }),
        0 < n ==> flagged_descending(s, flags, n) == (if flags[n - 1] {
            seq![s[n - 1]] + flagged_descending(s, flags, (n - 1) as nat)
        } else {
            flagged_descending(s, flags, (n - 1) as nat)
        }),
        (n <= s.len() && n <= flags.len() && forall|j: int| 0 <= j < n ==> !#[trigger] flags[j])
            ==> sweep(s, flags, n) == s && swept_out(s, flags, n) == Seq::<A>::empty(),
    decreases n,
{
    if n > 0 {
        lemma_removal_rules(s, flags, (n - 1) as nat, i);
    }
}

/// The seam of a set of triangles holds exactly the edges they have whose
/// reverse they do not have; the cone over a seam has one triangle per seam
/// edge, joining the edge's start and end to the apex in that order.
pub proof fn lemma_seam_and_cone(edges: Multiset<(usize, usize)>, e: (usize, usize), seam: Seq<(usize, usize)>, apex: usize)
    ensures
        horizon(edges).contains(e) <==> (edges.count(e) > 0 && edges.count((e.1, e.0)) == 0),
        cone(seam, apex).len() == seam.len(),
        forall|k: int| 0 <= k < seam.len() ==> #[trigger] cone(seam, apex)[k] == TriangleIndices(
            seam[k].0,
            seam[k].1,
            apex,
        ),
{
}

/// `flagged_descending` depends only on the first `n` elements.
proof fn lemma_flagged_descending_prefix<A>(s: Seq<A>, t: Seq<A>, flags: Seq<bool>, n: nat)
    requires
        n <= s.len(),
        n <= t.len(),
        forall|j: int| 0 <= j < n ==> s[j] == t[j],
    ensures
        flagged_descending(s, flags, n) == flagged_descending(t, flags, n),
    decreases n,
{
    if n > 0 {
        lemma_flagged_descending_prefix(s, t, flags, (n - 1) as nat);
    }
}

/// The multiset of a one-element sequence.
proof fn lemma_singleton_multiset<A>(x: A)
    ensures
        seq![x].to_multiset() =~= Multiset::empty().insert(x),
{
    broadcast use vstd::seq_lib::group_to_multiset_ensures;
    assert(seq![x] =~= Seq::<A>::empty().push(x));
    assert(Seq::<A>::empty().to_multiset().len() == 0);
    assert(Seq::<A>::empty().to_multiset() =~= Multiset::empty());
}

/// `swap_remove` loses exactly one occurrence of the removed element.
proof fn lemma_swap_remove_multiset<A>(s: Seq<A>, i: int)
    requires
        0 <= i < s.len(),
    ensures
        swap_remove(s, i).to_multiset().insert(s[i]) =~= s.to_multiset(),
{
    broadcast use vstd::seq_lib::group_to_multiset_ensures;
    let n = s.len() as int;
    if i == n - 1 {
        assert(s =~= swap_remove(s, i).push(s[i]));
    } else {
        let y = s[n - 1];
        let t = s.drop_last();
        assert(s =~= t.push(y));
        assert(swap_remove(s, i) =~= t.update(i, y));
        vstd::seq_lib::to_multiset_update(t, i, y);
        vstd::seq_lib::to_multiset_build(t, y);
        assert(t[i] == s[i]);
        assert(t.to_multiset().count(s[i]) > 0) by {
            vstd::seq_lib::to_multiset_contains(t, s[i]);
            assert(t.contains(s[i]));
        }
    }
}

/// `sweep` removes exactly the flagged elements among the first `n`, from the
/// highest position down, and keeps the others: as multisets, what stays and
/// what goes make up the whole.
pub proof fn lemma_sweep_removes_flagged<A>(s: Seq<A>, flags: Seq<bool>, n: nat)
    requires
        n <= s.len(),
        n <= flags.len(),
    ensures
        swept_out(s, flags, n) == flagged_descending(s, flags, n),
        sweep(s, flags, n).to_multiset().add(swept_out(s, flags, n).to_multiset())
            == s.to_multiset(),
        sweep(s, flags, n).len() + swept_out(s, flags, n).len() == s.len(),
    decreases n,
{
    broadcast use vstd::seq_lib::group_to_multiset_ensures;
    if n == 0 {
        assert(s.to_multiset().add(Seq::<A>::empty().to_multiset()) =~= s.to_multiset());
    } else {
        let i = (n - 1) as int;
        if flags[i] {
            let s2 = swap_remove(s, i);
            lemma_sweep_removes_flagged(s2, flags, i as nat);
            lemma_flagged_descending_prefix(s2, s, flags, i as nat);
            lemma_swap_remove_multiset(s, i);
            let x = s[i];
            let rest = swept_out(s2, flags, i as nat);
            assert(swept_out(s, flags, n) == seq![x] + rest);
            vstd::seq_lib::lemma_multiset_commutative(seq![x], rest);
            lemma_singleton_multiset(x);
            assert(sweep(s, flags, n).to_multiset().add(swept_out(s, flags, n).to_multiset())
                =~= s.to_multiset());
        } else {
            lemma_sweep_removes_flagged(s, flags, i as nat);
        }
    }
}

/// The edges of a set of triangles whose reverse is not among them: the seam
/// along which the triangles meet the rest of the surface.
pub open spec fn horizon(edges: Multiset<(usize, usize)>) -> Set<(usize, usize)> {
    Set::new(|e: (usize, usize)| edges.count(e) > 0 && edges.count(reverse_pair(e)) == 0)
}

/// The triangles joining each seam edge to the apex.
pub open spec fn cone(seam: Seq<(usize, usize)>, apex: usize) -> Seq<TriangleIndices> {
    seam.map_values(|e: (usize, usize)| TriangleIndices(e.0, e.1, apex))
}

/// A seam that passes through every vertex at most once: no vertex starts two
/// seam edges.
pub open spec fn is_simple_seam(seam: Seq<(usize, usize)>) -> bool {
    forall|v: usize| #[trigger] starts_at(seam, v) <= 1
}

/// The edges of a concatenation are the edges of both parts.
pub proof fn lemma_edge_multiset_append(a: Seq<TriangleIndices>, b: Seq<TriangleIndices>)
    ensures
        edge_multiset(a + b) == edge_multiset(a).add(edge_multiset(b)),
    decreases b.len(),
{
    if b.len() == 0 {
        assert(a + b =~= a);
        assert(edge_multiset(b) =~= Multiset::empty());
        assert(edge_multiset(a).add(edge_multiset(b)) =~= edge_multiset(a));
    } else {
        lemma_edge_multiset_append(a, b.drop_last());
        assert((a + b).drop_last() =~= a + b.drop_last());
        assert((a + b).last() == b.last());
        assert(edge_multiset(a + b) =~= edge_multiset(a).add(edge_multiset(b)));
    }
}

/// The edges of a single triangle.
pub proof fn lemma_edge_multiset_single(t: TriangleIndices)
    ensures
        edge_multiset(seq![t]) == triangle_edges(t),
{
    let s = seq![t];
    assert(s.drop_last() =~= Seq::<TriangleIndices>::empty());
    assert(edge_multiset(s.drop_last()) =~= Multiset::empty());
    assert(edge_multiset(s) =~= triangle_edges(t));
}

/// Removing position `i` by swapping in the last element loses exactly the
/// edges of the triangle at `i`.
pub proof fn lemma_edge_multiset_swap_remove(s: Seq<TriangleIndices>, i: int)
    requires
        0 <= i < s.len(),
    ensures
        edge_multiset(s) == edge_multiset(swap_remove(s, i)).add(triangle_edges(s[i])),
{
    let n = s.len() as int;
    if i == n - 1 {
        assert(swap_remove(s, i) =~= s.drop_last());
    } else {
        let p = s.subrange(0, i);
        let x = s[i];
        let q = s.subrange(i + 1, n - 1);
        let y = s[n - 1];
        assert(s =~= p + seq![x] + q + seq![y]);
        assert(swap_remove(s, i) =~= p + seq![y] + q);
        lemma_edge_multiset_append(p + seq![x] + q, seq![y]);
        lemma_edge_multiset_append(p + seq![x], q);
        lemma_edge_multiset_append(p, seq![x]);
        lemma_edge_multiset_append(p + seq![y], q);
        lemma_edge_multiset_append(p, seq![y]);
        lemma_edge_multiset_single(x);
        lemma_edge_multiset_single(y);
        assert(edge_multiset(s) =~= edge_multiset(swap_remove(s, i)).add(triangle_edges(x)));
    }
}

/// Sweeping out the flagged triangles splits the edges between the triangles
/// that stay and the triangles swept out.
pub proof fn lemma_sweep_splits_edges(s: Seq<TriangleIndices>, flags: Seq<bool>, n: nat)
    requires
        n <= s.len(),
        n <= flags.len(),
    ensures
        edge_multiset(s) == edge_multiset(sweep(s, flags, n)).add(
            edge_multiset(swept_out(s, flags, n)),
        ),
    decreases n,
{
    if n == 0 {
        assert(edge_multiset(Seq::<TriangleIndices>::empty()) =~= Multiset::empty());
        assert(edge_multiset(s).add(Multiset::empty()) =~= edge_multiset(s));
    } else {
        let i = (n - 1) as int;
        if flags[i] {
            let s2 = swap_remove(s, i);
            lemma_sweep_splits_edges(s2, flags, i as nat);
            lemma_edge_multiset_swap_remove(s, i);
            lemma_edge_multiset_append(seq![s[i]], swept_out(s2, flags, i as nat));
            lemma_edge_multiset_single(s[i]);
            assert(edge_multiset(s) =~= edge_multiset(sweep(s, flags, n)).add(
                edge_multiset(swept_out(s, flags, n)),
            ));
        } else {
            lemma_sweep_splits_edges(s, flags, i as nat);
        }
    }
}

/// An edge of a set of triangles joins two of their corners.
pub proof fn lemma_edge_joins_corners(faces: Seq<TriangleIndices>, e: (usize, usize))
    requires
        edge_multiset(faces).count(e) > 0,
    ensures
        is_vertex_of(faces, e.0),
        is_vertex_of(faces, e.1),
    decreases faces.len(),
{
    if faces.len() > 0 {
        let init = faces.drop_last();
        let t = faces.last();
        if edge_multiset(init).count(e) > 0 {
            lemma_edge_joins_corners(init, e);
            let i = choose|i: int| 0 <= i < init.len() && is_corner(#[trigger] init[i], e.0);
            assert(faces[i] == init[i]);
            let j = choose|j: int| 0 <= j < init.len() && is_corner(#[trigger] init[j], e.1);
            assert(faces[j] == init[j]);
        } else {
            assert(triangle_edges(t).count(e) > 0);
            assert(faces[faces.len() - 1] == t);
            assert(is_corner(faces[faces.len() - 1], e.0));
            assert(is_corner(faces[faces.len() - 1], e.1));
        }
    }
}

/// How often each directed edge occurs in the cone over a seam that avoids the
/// apex and repeats no edge.
pub proof fn lemma_cone_edge_count(seam: Seq<(usize, usize)>, apex: usize, e: (usize, usize))
    requires
        seam.no_duplicates(),
        forall|k: int| 0 <= k < seam.len() ==> (#[trigger] seam[k]).0 != apex && seam[k].1 != apex,
    ensures
        edge_multiset(cone(seam, apex)).count(e) == (if e.0 != apex && e.1 != apex {
            if seam.contains(e) { 1nat } else { 0nat }
        } else if e.0 != apex {
            ends_at(seam, e.0)
        } else if e.1 != apex {
            starts_at(seam, e.1)
        } else {
            0nat
        }),
    decreases seam.len(),
{
    if seam.len() == 0 {
        assert(cone(seam, apex) =~= Seq::<TriangleIndices>::empty());
        assert(!seam.contains(e));
    } else {
        let init = seam.drop_last();
        let last = seam.last();
        assert(init.no_duplicates()) by {
            assert forall|a: int, b: int| 0 <= a < init.len() && 0 <= b < init.len() && a != b
                implies init[a] != init[b] by {
                assert(init[a] == seam[a] && init[b] == seam[b]);
            }
        }
        assert forall|k: int| 0 <= k < init.len() implies (#[trigger] init[k]).0 != apex
            && init[k].1 != apex by {
            assert(init[k] == seam[k]);
        }
        lemma_cone_edge_count(init, apex, e);
        assert(cone(seam, apex).drop_last() =~= cone(init, apex));
        assert(cone(seam, apex).last() == TriangleIndices(last.0, last.1, apex));
        assert(seam[seam.len() - 1] == last);
        if e.0 != apex && e.1 != apex {
            if e == last {
                assert(seam.contains(e));
                assert(!init.contains(e)) by {
                    if init.contains(e) {
                        let k = choose|k: int| 0 <= k < init.len() && init[k] == e;
                        assert(seam[k] == seam[seam.len() - 1]);
                    }
                }
            } else {
                assert(seam.contains(e) == init.contains(e)) by {
                    if seam.contains(e) {
                        let k = choose|k: int| 0 <= k < seam.len() && seam[k] == e;
                        assert(k < seam.len() - 1);
                        assert(init[k] == e);
                    }
                    if init.contains(e) {
                        let k = choose|k: int| 0 <= k < init.len() && init[k] == e;
                        assert(seam[k] == e);
                    }
                }
            }
        }
    }
}

/// Replacing the triangles a new vertex sees by the cone from that vertex over
/// their seam keeps a closed surface closed, when the seam passes every vertex
/// at most once and the new vertex is not yet on the surface.
pub proof fn lemma_cone_replacement_keeps_closed(
    faces: Seq<TriangleIndices>,
    visible: Seq<bool>,
    seam: Seq<(usize, usize)>,
    apex: usize,
)
    requires
        visible.len() == faces.len(),
        is_closed(edge_multiset(faces)),
        !is_vertex_of(faces, apex),
        seam.no_duplicates(),
        seam.to_set() == horizon(edge_multiset(swept_out(faces, visible, faces.len()))),
        is_simple_seam(seam),
    ensures
        is_closed(edge_multiset(sweep(faces, visible, faces.len()) + cone(seam, apex))),
{
    lemma_sweep_splits_edges(faces, visible, faces.len());
    assert forall|e: (usize, usize)| #[trigger] edge_multiset(swept_out(faces, visible, faces.len())).count(e) <= 1 by {
        let all = edge_multiset(faces);
        if all.count(e) > 0 {
            assert(all.count(e) == 1);
        }
    }
    let n = faces.len();
    let all = edge_multiset(faces);
    let kept = edge_multiset(sweep(faces, visible, n));
    let gone = edge_multiset(swept_out(faces, visible, n));
    let added = edge_multiset(cone(seam, apex));
    let result = sweep(faces, visible, n) + cone(seam, apex);
    lemma_sweep_splits_edges(faces, visible, n);
    lemma_edge_multiset_append(sweep(faces, visible, n), cone(seam, apex));
    assert(edge_multiset(result) == kept.add(added));
    assert forall|k: int| 0 <= k < seam.len() implies (#[trigger] seam[k]).0 != apex
        && seam[k].1 != apex by {
        assert(seam.to_set().contains(seam[k]));
        assert(gone.count(seam[k]) > 0);
        assert(all.count(seam[k]) > 0);
        lemma_edge_joins_corners(faces, seam[k]);
    }
    assert forall|e: (usize, usize)| #[trigger] edge_multiset(result).count(e) > 0 implies
        edge_multiset(result).count(e) == 1 && edge_multiset(result).count(reverse_pair(e)) == 1 by {
        let r = reverse_pair(e);
        lemma_cone_edge_count(seam, apex, e);
        lemma_cone_edge_count(seam, apex, r);
        assert(seam.contains(e) == seam.to_set().contains(e));
        assert(seam.contains(r) == seam.to_set().contains(r));
        assert(all.count(e) == kept.count(e) + gone.count(e));
        assert(all.count(r) == kept.count(r) + gone.count(r));
        assert(reverse_pair(r) == e);
        if all.count(e) > 0 {
            assert(all.count(e) == 1);
        }
        if all.count(r) > 0 {
            assert(all.count(r) == 1);
        }
        if e.0 != apex && e.1 != apex {
            if all.count(e) == 0 {
                assert(kept.count(e) == 0);
                assert(gone.count(e) == 0);
                assert(!seam.to_set().contains(e));
            }
            assert(all.count(e) == 1);
            assert(all.count(r) == 1);
        } else {
            if all.count(e) > 0 {
                lemma_edge_joins_corners(faces, e);
            }
            if all.count(r) > 0 {
                lemma_edge_joins_corners(faces, r);
            }
            assert(kept.count(e) == 0);
            assert(kept.count(r) == 0);
            crate::seam::lemma_seam_balanced(swept_out(faces, visible, n), seam, e.0);
            crate::seam::lemma_seam_balanced(swept_out(faces, visible, n), seam, e.1);
            assert(starts_at(seam, e.0) <= 1 && starts_at(seam, e.0) == ends_at(seam, e.0));
            assert(starts_at(seam, e.1) <= 1 && starts_at(seam, e.1) == ends_at(seam, e.1));
        }
    }
}

} // verus!
