//! A triangle of the hull under construction, with the vertices it is
//! responsible for.

use vstd::prelude::*;
use crate::edge::Edge;
use crate::float_order::{bits_gt, float_gt};
use crate::triangle_indices::TriangleIndices;

verus! {

/// What a triangle holds: its corners in counterclockwise order seen from
/// outside, the vertices assigned to it in order of assignment, and the
/// assigned vertex furthest from its plane with that distance (as a
/// single-precision bit pattern).
pub struct TriangleView {
    pub indices: TriangleIndices,
    pub assigned: Seq<usize>,
    pub furthest: Option<(usize, u32)>,
}

/// A fresh triangle with the given corners and no assigned vertices.
pub open spec fn fresh_triangle(indices: TriangleIndices) -> TriangleView {
    TriangleView { indices, assigned: Seq::empty(), furthest: None }
}

/// The triangle after `v` at signed distance `d` is assigned to it: `v` is
/// appended, and becomes the furthest vertex when there was none or when `d`
/// is greater than the furthest distance so far.
pub open spec fn with_assigned(t: TriangleView, v: usize, d: u32) -> TriangleView {
    TriangleView {
        indices: t.indices,
        assigned: t.assigned.push(v),
        furthest: match t.furthest {
            Some(f) => if float_gt(d, f.1) { Some((v, d)) } else { Some(f) },
            None => Some((v, d)),
        },
    }
}

/// Assigning a vertex keeps the corners, appends the vertex to the assigned
/// ones, and makes it the furthest vertex exactly when there was none or its
/// distance exceeds the furthest distance so far; a fresh triangle has the
/// given corners and nothing assigned.
pub proof fn lemma_assignment_rule(t: TriangleView, v: usize, d: u32, indices: TriangleIndices)
    ensures
        with_assigned(t, v, d).indices == t.indices,
        with_assigned(t, v, d).assigned == t.assigned.push(v),
        with_assigned(t, v, d).assigned.len() == t.assigned.len() + 1,
        with_assigned(t, v, d).furthest == (if t.furthest is Some && !float_gt(d, t.furthest.unwrap().1) {
            t.furthest
        } else {
            Some((v, d))
        }),
        fresh_triangle(indices).indices == indices,
        fresh_triangle(indices).assigned.len() == 0,
        fresh_triangle(indices).furthest is None,
{
}

/// The three directed edges of the triangle with the given corners.
pub open spec fn corner_edges(t: TriangleIndices) -> Seq<Edge> {
    seq![Edge { start: t.0, end: t.1 }, Edge { start: t.1, end: t.2 }, Edge { start: t.2, end: t.0 }]
}

/// A triangle of the hull under construction.
pub struct Triangle {
    used_indices: TriangleIndices,
    assigned_vertices: Vec<usize>,
    furthest_vertex_and_dist: Option<(usize, u32)>,
}

impl View for Triangle {
    type V = TriangleView;

    closed spec fn view(&self) -> TriangleView {
        TriangleView {
            indices: self.used_indices,
            assigned: self.assigned_vertices@,
            furthest: self.furthest_vertex_and_dist,
        }
    }
}

impl Triangle {
    /// Creates a triangle from three indices given in counterclockwise order.
    pub fn new(indices: [usize; 3]) -> (r: Self)
        ensures
            r@ == fresh_triangle(TriangleIndices(indices@[0], indices@[1], indices@[2])),
            r@.indices == TriangleIndices(indices[0], indices[1], indices[2]),
            r@.assigned.len() == 0,
            r@.furthest is None,
    {
        Triangle {
            used_indices: TriangleIndices(indices[0], indices[1], indices[2]),
            assigned_vertices: Vec::new(),
            furthest_vertex_and_dist: None,
        }
    }

    /// Creates the triangle from the edge's start to its end to the new point.
    pub fn from_edge_and_points(edge: &Edge, new_point: usize) -> (r: Self)
        ensures
            r@ == fresh_triangle(TriangleIndices(edge.start, edge.end, new_point)),
            r@.indices == TriangleIndices(edge.start, edge.end, new_point),
            r@.assigned.len() == 0,
            r@.furthest is None,
    {
        Self::new([edge.start, edge.end, new_point])
    }

    /// The same corners in the opposite winding, with no assigned vertices.
    pub fn get_flipped_version(&self) -> (r: Self)
        ensures
            r@ == fresh_triangle(TriangleIndices(self@.indices.0, self@.indices.2, self@.indices.1)),
            r@.indices == TriangleIndices(self@.indices.0, self@.indices.2, self@.indices.1),
            r@.assigned.len() == 0,
            r@.furthest is None,
    {
        Self::new([self.used_indices.0, self.used_indices.2, self.used_indices.1])
    }

    /// The corner indices.
    pub fn get_triple_representation(&self) -> (r: TriangleIndices)
        ensures
            r == self@.indices,
    {
        self.used_indices
    }

    /// The furthest assigned vertex and its distance, if any vertex is assigned.
    pub fn furthest_vertex_and_dist(&self) -> (r: Option<(usize, u32)>)
        ensures
            r == self@.furthest,
    {
        self.furthest_vertex_and_dist
    }

    /// The vertices assigned to this triangle, in order of assignment.
    pub fn regarded_vertices(&self) -> (r: &Vec<usize>)
        ensures
            r@ == self@.assigned,
    {
        &self.assigned_vertices
    }

    /// Assigns a vertex at the given signed distance (a single-precision bit
    /// pattern) to this triangle.
    pub fn assign_vertex(&mut self, candidate: usize, dist: u32)
        ensures
            final(self)@ == with_assigned(old(self)@, candidate, dist),
            final(self)@.indices == old(self)@.indices,
            final(self)@.assigned == old(self)@.assigned.push(candidate),
            final(self)@.furthest == (if old(self)@.furthest is Some && !float_gt(
                dist,
                old(self)@.furthest.unwrap().1,
            ) {
                old(self)@.furthest
            } else {
                Some((candidate, dist))
            }),
    {
        self.assigned_vertices.push(candidate);
        match self.furthest_vertex_and_dist {
            Some((_, old_dist)) => {
                if bits_gt(dist, old_dist) {
                    self.furthest_vertex_and_dist = Some((candidate, dist));
                }
            },
            None => {
                self.furthest_vertex_and_dist = Some((candidate, dist));
            },
        }
    }

    /// The three directed edges, in winding order.
    pub fn edges(&self) -> (r: [Edge; 3])
        ensures
            r@ == corner_edges(self@.indices),
            r[0] == (Edge { start: self@.indices.0, end: self@.indices.1 }),
            r[1] == (Edge { start: self@.indices.1, end: self@.indices.2 }),
            r[2] == (Edge { start: self@.indices.2, end: self@.indices.0 }),
    {
        let t = self.used_indices;
        [Edge { start: t.0, end: t.1 }, Edge { start: t.1, end: t.2 }, Edge { start: t.2, end: t.0 }]
    }
}

} // verus!
