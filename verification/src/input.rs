//! Checks on the vertices handed over, before any hull is built.

use vstd::prelude::*;
use crate::errors::ConvexHullError;
use crate::float_order::{
    bits_is_finite, bits_le, bits_lt, float_le, float_lt, is_finite, ONE_MILLIONTH, POSITIVE_ZERO, SIGN_BIT,
};

verus! {

/// A vertex as the bit patterns of its three single-precision coordinates.
pub type VertexBits = [u32; 3];

/// Whether all three coordinates of the vertex are finite.
pub open spec fn vertex_is_finite(v: VertexBits) -> bool {
    is_finite(v[0]) && is_finite(v[1]) && is_finite(v[2])
}

/// The outcome of the input checks: too few vertices first, then the first
/// vertex with a non-finite coordinate.
pub open spec fn spec_validate_vertices(vertices: Seq<VertexBits>) -> Result<(), ConvexHullError> {
    if vertices.len() < 4 {
        Err(ConvexHullError::TooFewVertices { count: vertices.len() as usize })
    } else if exists|i: int| 0 <= i < vertices.len() && !vertex_is_finite(#[trigger] vertices[i]) {
        Err(
            ConvexHullError::NonFiniteVertex {
                index: (choose|i: int|
                    0 <= i < vertices.len() && !vertex_is_finite(#[trigger] vertices[i])
                    && forall|j: int| 0 <= j < i ==> vertex_is_finite(#[trigger] vertices[j])) as usize,
            },
        )
    } else {
        Ok(())
    }
}

/// A vertex is finite exactly when each of its three coordinates is: a NaN or
/// an infinity in any coordinate makes it non-finite.
pub proof fn lemma_vertex_finite_iff(v: VertexBits)
    ensures
        vertex_is_finite(v) <==> (forall|k: int| 0 <= k < 3 ==> is_finite(#[trigger] v[k])),
        forall|k: int| 0 <= k < 3 && !is_finite(#[trigger] v[k]) ==> !vertex_is_finite(v),
{
    if vertex_is_finite(v) {
        assert forall|k: int| 0 <= k < 3 implies is_finite(#[trigger] v[k]) by {
            if k == 0 {} else if k == 1 {} else {}
        }
    }
    if forall|k: int| 0 <= k < 3 ==> is_finite(#[trigger] v[k]) {
        assert(is_finite(v[0]) && is_finite(v[1]) && is_finite(v[2]));
    }
}

/// Whether all three coordinates of the vertex are finite.
pub fn is_vertex_finite(v: &VertexBits) -> (r: bool)
    ensures
        r == vertex_is_finite(*v),
        r == (is_finite(v[0]) && is_finite(v[1]) && is_finite(v[2])),
{
    bits_is_finite(v[0]) && bits_is_finite(v[1]) && bits_is_finite(v[2])
}

/// Checks the vertices handed over for hull construction: fewer than four
/// vertices give `TooFewVertices` with their count; otherwise the first
/// vertex with an infinite or NaN coordinate gives `NonFiniteVertex` with its
/// index; otherwise the check passes.
pub fn validate_vertices(vertices: &[VertexBits]) -> (r: Result<(), ConvexHullError>)
    ensures
        r == spec_validate_vertices(vertices@),
        r is Err ==> (r->Err_0 is TooFewVertices <==> vertices@.len() < 4),
        r matches Err(ConvexHullError::NonFiniteVertex { index }) ==> {
            &&& index < vertices@.len()
            &&& !vertex_is_finite(vertices@[index as int])
            &&& forall|j: int| 0 <= j < index ==> vertex_is_finite(#[trigger] vertices@[j])
        },
        r is Ok <==> (vertices@.len() >= 4 && forall|i: int|
            0 <= i < vertices@.len() ==> vertex_is_finite(#[trigger] vertices@[i])),
        !(r matches Err(ConvexHullError::DegenerateInput)),
        r is Ok <==> (vertices@.len() >= 4 && forall|i: int, k: int|
            0 <= i < vertices@.len() && 0 <= k < 3 ==> is_finite(#[trigger] vertices@[i][k])),
        r matches Err(ConvexHullError::NonFiniteVertex { index }) ==> {
            &&& exists|k: int| 0 <= k < 3 && !is_finite(#[trigger] vertices@[index as int][k])
            &&& forall|j: int, k: int| 0 <= j < index && 0 <= k < 3 ==> is_finite(#[trigger] vertices@[j][k])
        },
        vertices@.len() < 4 <==> r == Err::<(), ConvexHullError>(
            ConvexHullError::TooFewVertices { count: vertices@.len() as usize },
        ),
{
    let n = vertices.len();
    if n < 4 {
        return Err(ConvexHullError::TooFewVertices { count: n });
    }
    proof {
        assert forall|i: int| 0 <= i < vertices@.len() implies vertex_is_finite(#[trigger] vertices@[i])
            == (forall|k: int| 0 <= k < 3 ==> is_finite(#[trigger] vertices@[i][k])) by {
            lemma_vertex_finite_iff(vertices@[i]);
        }
    }
    let mut i: usize = 0;
    while i < n
        invariant
            n == vertices@.len(),
            n >= 4,
            i <= n,
            forall|j: int| 0 <= j < i ==> vertex_is_finite(#[trigger] vertices@[j]),
        decreases n - i,
    {
        if !is_vertex_finite(&vertices[i]) {
            proof {
                let w = i as int;
                assert(0 <= w < vertices@.len() && !vertex_is_finite(vertices@[w]));
                let c = choose|k: int|
                    0 <= k < vertices@.len() && !vertex_is_finite(#[trigger] vertices@[k])
                    && forall|j: int| 0 <= j < k ==> vertex_is_finite(#[trigger] vertices@[j]);
                assert(c == w) by {
                    if c < w {
                        assert(vertex_is_finite(vertices@[c]));
                    } else if c > w {
                        assert(vertex_is_finite(vertices@[w]));
                    }
                }
            }
            return Err(ConvexHullError::NonFiniteVertex { index: i });
        }
        i += 1;
    }
    Ok(())
}

/// The degeneracy test of the initial tetrahedron: the input is degenerate when
/// the product of its three edge lengths is at most zero, or when the triple
/// product divided by that product is below one millionth.
pub open spec fn spec_is_degenerate(volume_scale: u32, skew: u32) -> bool {
    float_le(volume_scale, POSITIVE_ZERO) || float_lt(skew, ONE_MILLIONTH)
}

/// Rejects a degenerate initial tetrahedron. `volume_scale` is the product of
/// the lengths of the three edges from the first vertex, `skew` the absolute
/// triple product of those edges divided by `volume_scale`.
pub fn check_degeneracy(volume_scale: u32, skew: u32) -> (r: Result<(), ConvexHullError>)
    ensures
        r == (if spec_is_degenerate(volume_scale, skew) {
            Err(ConvexHullError::DegenerateInput)
        } else {
            Ok(())
        }),
        r is Ok || r == Err::<(), ConvexHullError>(ConvexHullError::DegenerateInput),
        float_lt(skew, ONE_MILLIONTH) ==> r == Err::<(), ConvexHullError>(ConvexHullError::DegenerateInput),
        float_le(volume_scale, POSITIVE_ZERO) ==> r == Err::<(), ConvexHullError>(
            ConvexHullError::DegenerateInput,
        ),
        r is Ok <==> (!float_le(volume_scale, POSITIVE_ZERO) && !float_lt(skew, ONE_MILLIONTH)),
{
    if bits_le(volume_scale, POSITIVE_ZERO) || bits_lt(skew, ONE_MILLIONTH) {
        Err(ConvexHullError::DegenerateInput)
    } else {
        Ok(())
    }
}

/// The degeneracy test rejects every skew below one millionth, zero of either
/// sign included, and every volume scale at or below zero; it accepts exactly
/// the remaining pairs.
pub proof fn lemma_degeneracy_test(volume_scale: u32, skew: u32)
    ensures
        float_lt(skew, ONE_MILLIONTH) ==> spec_is_degenerate(volume_scale, skew),
        float_le(volume_scale, POSITIVE_ZERO) ==> spec_is_degenerate(volume_scale, skew),
        spec_is_degenerate(volume_scale, skew) ==> float_lt(skew, ONE_MILLIONTH) || float_le(
            volume_scale,
            POSITIVE_ZERO,
        ),
        skew == POSITIVE_ZERO || skew == SIGN_BIT ==> spec_is_degenerate(volume_scale, skew),
{
}

} // verus!
