//! Combinatorial core of a three-dimensional quickhull.
//!
//! Vertex coordinates and distances enter this library as the IEEE-754 bit
//! patterns of single-precision values; every decision the hull construction
//! takes on them (finiteness, comparisons, maxima) is taken here on those
//! patterns, and the surface the construction builds is modelled as the
//! multiset of directed edges of its triangles.
//!
//! - `float_order`: the order of single-precision values on their bit patterns.
//! - `input`: the checks on the vertices handed over and on the initial tetrahedron.
//! - `triangle_indices`, `edge`, `triangle`: the pieces of a hull.
//! - `hull_construction`: the steps of the construction.
//! - `hull_laws`: what the steps keep and how they progress.
//! - `topology`: closed surfaces and the cone that replaces visible triangles.
//! - `seam`: counting seam edges at each vertex.
//! - `euler`: how a step carries F = 2V - 4 over.
//! - `consistency`: the combinatorial checks on a finished hull.
//! - `hash_collections`: the fxhash sets and maps the library uses.

pub mod consistency;
pub mod edge;
pub mod errors;
pub mod euler;
pub mod float_order;
pub mod hash_collections;
pub mod hull_construction;
pub mod hull_laws;
pub mod input;
pub mod seam;
pub mod topology;
pub mod triangle;
pub mod triangle_indices;

pub use errors::{ConsistencyError, ConvexHullError};
pub use triangle_indices::TriangleIndices;
