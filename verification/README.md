# qhull_rayon

A quickhull in three dimensions whose combinatorial core is verified with Verus.

- `src/` is the verified library. It takes single-precision quantities as their
  bit patterns and takes every decision of the construction on them: which
  vertex is picked, which triangle a vertex is assigned to, which triangles a
  new vertex sees, how they are replaced by a cone over their seam, and the
  checks on a finished hull. Laws in `src/hull_laws.rs`, `src/topology.rs`,
  `src/seam.rs` and `src/euler.rs` state what the construction keeps:
  - the initial tetrahedron over four distinct vertices is a closed surface of
    four triangles with distinct corners, and the vertices assigned to it wait
    once each, are none of its corners, and are recorded beyond the tolerance;
  - a step keeps the surface closed and its corners distinct, keeps the waiting
    vertices sound and lowers their number, provided the new vertex is the next
    one picked, the tolerance is not below zero, the new vertex's distance to
    the triangle that records it is the recorded one, and the seam of the
    triangles it sees passes every vertex at most once;
  - the tetrahedron satisfies F = 2V - 4, and a step carries it over, leaving at
    least four triangles, when the seam is not empty and the triangles the new
    vertex sees form a disk (their number plus two is the seam length plus
    twice the number of vertices inside them), in `src/euler.rs`;
  - when no next vertex is found, no vertex waits for assignment.
  The side conditions on a step are geometric facts about the single-precision
  distances, which the library does not compute; they are stated, not proved.
- `app/` computes the single-precision geometry with glam (planes, distances,
  tolerances), drives the construction, and offers the API on `Vec3`, the
  vertex generators and the consistency check.
- `tests/` runs the library on small hand-made hulls and on generated point
  clouds.
