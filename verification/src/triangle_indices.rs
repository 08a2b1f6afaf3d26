//! The index triple of one hull triangle.

use vstd::prelude::*;

verus! {

/// The three indices of a triangle, referring to the vertex slice that was
/// handed over. Triangles are given in counterclockwise order seen from outside.
#[derive(Clone, Copy, Debug, PartialEq, Eq, Structural, Hash, PartialOrd, Ord)]
pub struct TriangleIndices(pub usize, pub usize, pub usize);

/// The indices of a triangle as a sequence, in order.
pub open spec fn indices_seq(t: TriangleIndices) -> Seq<usize> {
    seq![t.0, t.1, t.2]
}

/// The triangle whose indices are the first three entries, in order.
pub open spec fn triangle_from_seq(s: Seq<usize>) -> TriangleIndices {
    TriangleIndices(s[0], s[1], s[2])
}

impl TriangleIndices {
    /// The indices as an array, in order.
    pub fn to_array(&self) -> (r: [usize; 3])
        ensures
            r@ == indices_seq(*self),
            r[0] == self.0 && r[1] == self.1 && r[2] == self.2,
    {
        [self.0, self.1, self.2]
    }

    /// The triangle whose indices are the array's entries, in order.
    pub fn from_array(indices: [usize; 3]) -> (r: Self)
        ensures
            r == triangle_from_seq(indices@),
            r.0 == indices[0] && r.1 == indices[1] && r.2 == indices[2],
    {
        TriangleIndices(indices[0], indices[1], indices[2])
    }
}

/// The sequence of a triangle's indices keeps their order, whatever their
/// values: position `k` holds index `k`, and the triangle read from a sequence
/// takes its first three entries in order.
pub proof fn lemma_indices_in_order(t: TriangleIndices, a: Seq<usize>)
    requires
        a.len() == 3,
    ensures
        indices_seq(t).len() == 3,
        indices_seq(t)[0] == t.0,
        indices_seq(t)[1] == t.1,
        indices_seq(t)[2] == t.2,
        triangle_from_seq(a).0 == a[0],
        triangle_from_seq(a).1 == a[1],
        triangle_from_seq(a).2 == a[2],
{
}

/// Converting a triangle to an array and back gives the same triangle, and
/// converting an array to a triangle and back gives the same array.
pub proof fn lemma_array_round_trip(t: TriangleIndices, a: Seq<usize>)
    requires
        a.len() == 3,
    ensures
        triangle_from_seq(indices_seq(t)) == t,
        indices_seq(triangle_from_seq(a)) == a,
{
    assert(indices_seq(triangle_from_seq(a)) =~= a);
}

} // verus!
