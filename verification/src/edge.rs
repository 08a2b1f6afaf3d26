//! Directed edges between vertex indices.

use vstd::prelude::*;

verus! {

/// A directed edge from `start` to `end`.
#[derive(Clone, Copy, PartialEq, Eq, Structural, Hash, Debug)]
pub struct Edge {
    /// The index of the first vertex.
    pub start: usize,
    /// The index of the second vertex.
    pub end: usize,
}

/// The edge in the opposite direction.
pub open spec fn reversed_edge(e: Edge) -> Edge {
    Edge { start: e.end, end: e.start }
}

/// The edge as a pair of indices.
pub open spec fn edge_pair(e: Edge) -> (usize, usize) {
    (e.start, e.end)
}

/// The pair with its two indices exchanged.
pub open spec fn reverse_pair(p: (usize, usize)) -> (usize, usize) {
    (p.1, p.0)
}

impl Edge {
    /// The edge in the opposite direction.
    pub fn reversed(&self) -> (r: Self)
        ensures
            r == reversed_edge(*self),
            r.start == self.end && r.end == self.start,
    {
        Self { start: self.end, end: self.start }
    }

    /// The edge as a pair of indices.
    pub fn to_pair(&self) -> (r: (usize, usize))
        ensures
            r == edge_pair(*self),
            r.0 == self.start && r.1 == self.end,
    {
        (self.start, self.end)
    }
}

/// Reversing an edge twice gives the edge back, and reversing an edge reverses
/// its pair of indices: the reversed edge starts where the edge ends and ends
/// where it starts.
pub proof fn lemma_reverse_involutive(e: Edge)
    ensures
        reversed_edge(e).start == e.end && reversed_edge(e).end == e.start,
        edge_pair(e).0 == e.start && edge_pair(e).1 == e.end,
        reverse_pair(edge_pair(e)).0 == e.end && reverse_pair(edge_pair(e)).1 == e.start,
        reversed_edge(reversed_edge(e)) == e,
        edge_pair(reversed_edge(e)) == reverse_pair(edge_pair(e)),
{
}

} // verus!
