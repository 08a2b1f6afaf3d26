//! Counting the edges of a seam at each vertex. The seam of a set of triangles
//! with no repeated directed edge enters every vertex as often as it leaves it.

use vstd::prelude::*;
use crate::edge::reverse_pair;
use crate::topology::{edge_multiset, horizon, triangle_edges};
use crate::triangle_indices::TriangleIndices;

verus! {

/// Whether the edge starts (`at_start`) or ends (otherwise) at `v`.
pub open spec fn touches(e: (usize, usize), v: usize, at_start: bool) -> bool {
    if at_start {
        e.0 == v
    } else {
        e.1 == v
    }
}

/// How many edges of the sequence start (`at_start`) or end at `v`.
pub open spec fn incident(s: Seq<(usize, usize)>, v: usize, at_start: bool) -> nat
    decreases s.len(),
{
    if s.len() == 0 {
        0
    } else {
        incident(s.drop_last(), v, at_start) + if touches(s.last(), v, at_start) {
            1nat
        } else {
            0nat
        }
    }
}

/// How many edges start at `v`.
pub open spec fn starts_at(seam: Seq<(usize, usize)>, v: usize) -> nat {
    incident(seam, v, true)
}

/// How many edges end at `v`.
pub open spec fn ends_at(seam: Seq<(usize, usize)>, v: usize) -> nat {
    incident(seam, v, false)
}

/// The directed edges of the triangles, three per triangle in winding order.
pub open spec fn edge_list(faces: Seq<TriangleIndices>) -> Seq<(usize, usize)>
    decreases faces.len(),
{
    if faces.len() == 0 {
        Seq::empty()
    } else {
        let t = faces.last();
        edge_list(faces.drop_last()) + seq![(t.0, t.1), (t.1, t.2), (t.2, t.0)]
    }
}

/// The edges of the sequence whose reverse is (`want`) or is not in `all`, in order.
pub open spec fn keep(s: Seq<(usize, usize)>, all: Seq<(usize, usize)>, want: bool) -> Seq<(usize, usize)>
    decreases s.len(),
{
    if s.len() == 0 {
        Seq::empty()
    } else {
        let rest = keep(s.drop_last(), all, want);
        if all.contains(reverse_pair(s.last())) == want {
            rest.push(s.last())
        } else {
            rest
        }
    }
}

/// The count of a concatenation is the sum of the counts.
proof fn lemma_incident_append(a: Seq<(usize, usize)>, b: Seq<(usize, usize)>, v: usize, f: bool)
    ensures
        incident(a + b, v, f) == incident(a, v, f) + incident(b, v, f),
    decreases b.len(),
{
    if b.len() == 0 {
        assert(a + b =~= a);
    } else {
        lemma_incident_append(a, b.drop_last(), v, f);
        assert((a + b).drop_last() =~= a + b.drop_last());
    }
}

/// The count of a single edge.
proof fn lemma_incident_single(x: (usize, usize), v: usize, f: bool)
    ensures
        incident(seq![x], v, f) == if touches(x, v, f) { 1nat } else { 0nat },
{
    let s = seq![x];
    assert(s.drop_last() =~= Seq::<(usize, usize)>::empty());
    assert(incident(s.drop_last(), v, f) == 0);
    assert(s.last() == x);
}

/// Removing one edge removes its share of the count.
proof fn lemma_incident_remove(s: Seq<(usize, usize)>, j: int, v: usize, f: bool)
    requires
        0 <= j < s.len(),
    ensures
        incident(s, v, f) == incident(s.remove(j), v, f) + if touches(s[j], v, f) { 1nat } else { 0nat },
{
    let p = s.subrange(0, j);
    let q = s.subrange(j + 1, s.len() as int);
    assert(s =~= p + seq![s[j]] + q);
    assert(s.remove(j) =~= p + q);
    lemma_incident_append(p + seq![s[j]], q, v, f);
    lemma_incident_append(p, seq![s[j]], v, f);
    lemma_incident_append(p, q, v, f);
    lemma_incident_single(s[j], v, f);
}

/// Two sequences without repeats that hold the same edges count the same
/// edges at every vertex.
proof fn lemma_incident_same_set(s1: Seq<(usize, usize)>, s2: Seq<(usize, usize)>, v: usize, f: bool)
    requires
        s1.no_duplicates(),
        s2.no_duplicates(),
        s1.to_set() == s2.to_set(),
    ensures
        incident(s1, v, f) == incident(s2, v, f),
    decreases s1.len(),
{
    if s1.len() == 0 {
        if s2.len() > 0 {
            assert(s2.to_set().contains(s2[0]));
            assert(!s1.to_set().contains(s2[0]));
        }
    } else {
        let x = s1.last();
        let s1r = s1.drop_last();
        assert(s1.to_set().contains(x)) by {
            assert(s1[s1.len() - 1] == x);
        }
        assert(s2.to_set().contains(x));
        let j = choose|j: int| 0 <= j < s2.len() && s2[j] == x;
        let s2r = s2.remove(j);
        assert(s1r.no_duplicates()) by {
            assert forall|a: int, b: int| 0 <= a < s1r.len() && 0 <= b < s1r.len() && a != b
                implies s1r[a] != s1r[b] by {
                assert(s1r[a] == s1[a] && s1r[b] == s1[b]);
            }
        }
        assert(s2r.no_duplicates()) by {
            assert forall|a: int, b: int| 0 <= a < s2r.len() && 0 <= b < s2r.len() && a != b
                implies s2r[a] != s2r[b] by {
                let a2 = if a < j { a } else { a + 1 };
                let b2 = if b < j { b } else { b + 1 };
                assert(s2r[a] == s2[a2] && s2r[b] == s2[b2]);
            }
        }
        assert(s1r.to_set() =~= s2r.to_set()) by {
            assert forall|y: (usize, usize)| s1r.to_set().contains(y) <==> s2r.to_set().contains(y) by {
                if s1r.to_set().contains(y) {
                    let a = choose|a: int| 0 <= a < s1r.len() && s1r[a] == y;
                    assert(s1[a] == y);
                    assert(y != x) by {
                        assert(s1[s1.len() - 1] == x);
                    }
                    assert(s2.to_set().contains(y));
                    let b = choose|b: int| 0 <= b < s2.len() && s2[b] == y;
                    assert(b != j);
                    let b2 = if b < j { b } else { b - 1 };
                    assert(s2r[b2] == y);
                }
                if s2r.to_set().contains(y) {
                    let b = choose|b: int| 0 <= b < s2r.len() && s2r[b] == y;
                    let b2 = if b < j { b } else { b + 1 };
                    assert(s2[b2] == y);
                    assert(y != x);
                    assert(s1.to_set().contains(y));
                    let a = choose|a: int| 0 <= a < s1.len() && s1[a] == y;
                    assert(a != s1.len() - 1);
                    assert(s1r[a] == y);
                }
            }
        }
        lemma_incident_same_set(s1r, s2r, v, f);
        lemma_incident_remove(s2, j, v, f);
    }
}

/// Reversing every edge exchanges starts and ends.
proof fn lemma_incident_reversed(s: Seq<(usize, usize)>, v: usize, f: bool)
    ensures
        incident(s.map_values(|e: (usize, usize)| reverse_pair(e)), v, f) == incident(s, v, !f),
    decreases s.len(),
{
    if s.len() > 0 {
        lemma_incident_reversed(s.drop_last(), v, f);
        assert(s.map_values(|e: (usize, usize)| reverse_pair(e)).drop_last() =~= s.drop_last().map_values(
            |e: (usize, usize)| reverse_pair(e),
        ));
    }
}

/// Splitting by whether the reverse is present splits the count.
proof fn lemma_incident_keep(s: Seq<(usize, usize)>, all: Seq<(usize, usize)>, v: usize, f: bool)
    ensures
        incident(s, v, f) == incident(keep(s, all, true), v, f) + incident(keep(s, all, false), v, f),
    decreases s.len(),
{
    if s.len() > 0 {
        lemma_incident_keep(s.drop_last(), all, v, f);
        let r_t = keep(s.drop_last(), all, true);
        let r_f = keep(s.drop_last(), all, false);
        assert(r_t.push(s.last()).drop_last() =~= r_t);
        assert(r_f.push(s.last()).drop_last() =~= r_f);
    }
}

/// What `keep` holds, and that it repeats nothing when the sequence does not.
proof fn lemma_keep_contents(s: Seq<(usize, usize)>, all: Seq<(usize, usize)>, want: bool)
    ensures
        forall|e: (usize, usize)| #[trigger] keep(s, all, want).contains(e) <==> (s.contains(e) && all.contains(
            reverse_pair(e),
        ) == want),
        s.no_duplicates() ==> keep(s, all, want).no_duplicates(),
    decreases s.len(),
{
    if s.len() > 0 {
        let init = s.drop_last();
        let x = s.last();
        lemma_keep_contents(init, all, want);
        let rest = keep(init, all, want);
        assert forall|e: (usize, usize)| #[trigger] keep(s, all, want).contains(e) <==> (s.contains(e)
            && all.contains(reverse_pair(e)) == want) by {
            crate::hull_construction::lemma_push_contains(rest, x, e);
            crate::hull_construction::lemma_push_contains(init, x, e);
            assert(s =~= init.push(x));
        }
        if s.no_duplicates() {
            assert(init.no_duplicates()) by {
                assert forall|a: int, b: int| 0 <= a < init.len() && 0 <= b < init.len() && a != b
                    implies init[a] != init[b] by {
                    assert(init[a] == s[a] && init[b] == s[b]);
                }
            }
            if all.contains(reverse_pair(x)) == want {
                assert(!init.contains(x)) by {
                    if init.contains(x) {
                        let a = choose|a: int| 0 <= a < init.len() && init[a] == x;
                        assert(s[a] == s[s.len() - 1]);
                    }
                }
                assert(!rest.contains(x));
                assert(rest.push(x).no_duplicates()) by {
                    assert forall|a: int, b: int| 0 <= a < rest.push(x).len() && 0 <= b < rest.push(x).len()
                        && a != b implies rest.push(x)[a] != rest.push(x)[b] by {
                        if a < rest.len() && b < rest.len() {
                            assert(rest.push(x)[a] == rest[a] && rest.push(x)[b] == rest[b]);
                        } else if a < rest.len() {
                            assert(rest.push(x)[a] == rest[a]);
                        } else if b < rest.len() {
                            assert(rest.push(x)[b] == rest[b]);
                        }
                    }
                }
            }
        }
    }
}

/// The edge list holds the edges of the triangles: an edge occurs in the list
/// as often as in the edge multiset.
proof fn lemma_edge_list_multiset(faces: Seq<TriangleIndices>)
    ensures
        edge_list(faces).to_multiset() =~= edge_multiset(faces),
    decreases faces.len(),
{
    broadcast use vstd::seq_lib::group_to_multiset_ensures;
    if faces.len() == 0 {
        assert(edge_list(faces).to_multiset().len() == 0);
    } else {
        let t = faces.last();
        let three = seq![(t.0, t.1), (t.1, t.2), (t.2, t.0)];
        lemma_edge_list_multiset(faces.drop_last());
        vstd::seq_lib::lemma_multiset_commutative(edge_list(faces.drop_last()), three);
        assert(three =~= Seq::<(usize, usize)>::empty().push((t.0, t.1)).push((t.1, t.2)).push((t.2, t.0)));
        assert(Seq::<(usize, usize)>::empty().to_multiset().len() == 0);
        assert(three.to_multiset() =~= triangle_edges(t));
    }
}

/// Every triangle enters each of its corners as often as it leaves it, and so
/// does any run of triangles.
proof fn lemma_edge_list_balanced(faces: Seq<TriangleIndices>, v: usize)
    ensures
        incident(edge_list(faces), v, true) == incident(edge_list(faces), v, false),
    decreases faces.len(),
{
    if faces.len() > 0 {
        let t = faces.last();
        let three = seq![(t.0, t.1), (t.1, t.2), (t.2, t.0)];
        lemma_edge_list_balanced(faces.drop_last(), v);
        lemma_incident_append(edge_list(faces.drop_last()), three, v, true);
        lemma_incident_append(edge_list(faces.drop_last()), three, v, false);
        let a = seq![(t.0, t.1)];
        let b = seq![(t.1, t.2)];
        let c = seq![(t.2, t.0)];
        assert(three =~= a + b + c);
        lemma_incident_append(a + b, c, v, true);
        lemma_incident_append(a + b, c, v, false);
        lemma_incident_append(a, b, v, true);
        lemma_incident_append(a, b, v, false);
        lemma_incident_single((t.0, t.1), v, true);
        lemma_incident_single((t.0, t.1), v, false);
        lemma_incident_single((t.1, t.2), v, true);
        lemma_incident_single((t.1, t.2), v, false);
        lemma_incident_single((t.2, t.0), v, true);
        lemma_incident_single((t.2, t.0), v, false);
    }
}

/// The seam of triangles that repeat no directed edge enters every vertex as
/// often as it leaves it.
pub proof fn lemma_seam_balanced(removed: Seq<TriangleIndices>, seam: Seq<(usize, usize)>, v: usize)
    requires
        forall|e: (usize, usize)| #[trigger] edge_multiset(removed).count(e) <= 1,
        seam.no_duplicates(),
        seam.to_set() == horizon(edge_multiset(removed)),
    ensures
        starts_at(seam, v) == ends_at(seam, v),
{
    broadcast use vstd::seq_lib::group_to_multiset_ensures;
    let all = edge_list(removed);
    let m = edge_multiset(removed);
    lemma_edge_list_multiset(removed);
    assert(all.no_duplicates()) by {
        assert forall|x: (usize, usize)| all.to_multiset().contains(x) implies all.to_multiset().count(x) == 1 by {
            assert(m.count(x) <= 1);
        }
        all.lemma_multiset_has_no_duplicates_conv();
    }
    assert forall|e: (usize, usize)| #[trigger] all.contains(e) <==> m.count(e) > 0 by {
        vstd::seq_lib::to_multiset_contains(all, e);
    }
    let paired = keep(all, all, true);
    let open = keep(all, all, false);
    lemma_keep_contents(all, all, true);
    lemma_keep_contents(all, all, false);
    lemma_incident_keep(all, all, v, true);
    lemma_incident_keep(all, all, v, false);
    lemma_edge_list_balanced(removed, v);
    // The open edges are the seam.
    assert(open.to_set() =~= seam.to_set()) by {
        assert forall|e: (usize, usize)| open.to_set().contains(e) <==> seam.to_set().contains(e) by {
            assert(open.to_set().contains(e) == open.contains(e));
            assert(horizon(m).contains(e) == (m.count(e) > 0 && m.count(reverse_pair(e)) == 0));
        }
    }
    lemma_incident_same_set(seam, open, v, true);
    lemma_incident_same_set(seam, open, v, false);
    // The paired edges are their own reverses.
    let flipped = paired.map_values(|e: (usize, usize)| reverse_pair(e));
    paired.lemma_no_duplicates_injective(|e: (usize, usize)| reverse_pair(e));
    assert(flipped.to_set() =~= paired.to_set()) by {
        assert forall|e: (usize, usize)| flipped.to_set().contains(e) <==> paired.to_set().contains(e) by {
            if flipped.to_set().contains(e) {
                let a = choose|a: int| 0 <= a < flipped.len() && flipped[a] == e;
                assert(paired.contains(paired[a]));
                assert(reverse_pair(paired[a]) == e);
                assert(reverse_pair(e) == paired[a]);
                assert(paired.contains(e));
            }
            if paired.to_set().contains(e) {
                assert(paired.contains(reverse_pair(e)));
                let a = choose|a: int| 0 <= a < paired.len() && paired[a] == reverse_pair(e);
                assert(flipped[a] == e);
            }
        }
    }
    lemma_incident_same_set(flipped, paired, v, true);
    lemma_incident_reversed(paired, v, true);
}

} // verus!
