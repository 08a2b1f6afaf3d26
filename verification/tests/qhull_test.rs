//! Tests of the hull library: the error scenarios of hull construction, the
//! decisions on single-precision bit patterns, the hull steps, and whole hulls
//! built from generated point clouds.

use glam::Vec3;
use qhull_rayon::consistency::{check_consistency, check_hull_topology, first_outside_vertex};
use qhull_rayon::edge::Edge;
use qhull_rayon::errors::decimal_string;
use qhull_rayon::float_order::{
    bits_gt, bits_is_finite, bits_is_nan, bits_le, bits_lt, bits_total_key, bits_value_key,
};
use qhull_rayon::hull_construction::{
    choose_triangle, get_best_index_and_remove, initial_vertex_list, tetrahedron_faces,
    HullConstructor,
};
use qhull_rayon::input::{check_degeneracy, validate_vertices};
use qhull_rayon::triangle::Triangle;
use qhull_rayon::{ConsistencyError, ConvexHullError, TriangleIndices};
use rand::prelude::StdRng;
use rand::{RngExt, SeedableRng};

// ---------------------------------------------------------------------------
// A driver that computes the single-precision quantities with glam and hands
// their bit patterns to the library.
// ---------------------------------------------------------------------------

fn bits_of(vertices: &[Vec3]) -> Vec<[u32; 3]> {
    vertices
        .iter()
        .map(|v| [v.x.to_bits(), v.y.to_bits(), v.z.to_bits()])
        .collect()
}

fn tolerance_of(vertices: &[Vec3]) -> f32 {
    let (min, max) = vertices.iter().fold(
        (Vec3::INFINITY, Vec3::NEG_INFINITY),
        |(lo, hi), v| (lo.min(*v), hi.max(*v)),
    );
    (max - min).length() * 1e-5
}

fn distance(vertices: &[Vec3], t: TriangleIndices, p: Vec3) -> f32 {
    let base = vertices[t.0];
    let normal = (vertices[t.1] - base)
        .cross(vertices[t.2] - base)
        .normalize_or_zero();
    normal.dot(p - base)
}

fn take(list: &mut Vec<usize>, probe: impl Fn(usize) -> f32) -> usize {
    let probes: Vec<u32> = list.iter().map(|&i| probe(i).to_bits()).collect();
    get_best_index_and_remove(list, &probes)
}

fn assign(hull: &mut HullConstructor, v: &[Vec3], first: usize, list: &Vec<usize>, excl: usize, tol: f32) {
    let tris: Vec<TriangleIndices> = (first..hull.triangle_count())
        .map(|i| hull.triangle(i).get_triple_representation())
        .collect();
    let d: Vec<Vec<u32>> = list
        .iter()
        .map(|&p| tris.iter().map(|t| distance(v, *t, v[p]).to_bits()).collect())
        .collect();
    hull.assign_vertices_to_tris(first, list, excl, tol.to_bits(), &d);
}

fn hull_of(v: &[Vec3]) -> Result<Vec<TriangleIndices>, ConvexHullError> {
    Ok(finished_construction(v)?.triangle_indices())
}

fn finished_construction(v: &[Vec3]) -> Result<HullConstructor, ConvexHullError> {
    validate_vertices(&bits_of(v))?;
    let tol = tolerance_of(v);
    let mut list = initial_vertex_list(v.len());
    let i0 = take(&mut list, |i| v[i].x);
    let p0 = v[i0];
    let i1 = take(&mut list, |i| (v[i] - p0).length_squared());
    let a = v[i1] - p0;
    let da = a.normalize_or_zero();
    let i2 = take(&mut list, |i| {
        let on_line = p0 + (v[i] - p0).dot(da) * da;
        (v[i] - on_line).length_squared()
    });
    let b = v[i2] - p0;
    let db = (b - b.dot(da) * da).normalize_or_zero();
    let i3 = take(&mut list, |i| {
        let d = v[i] - p0;
        let on_plane = p0 + d.dot(da) * da + d.dot(db) * db;
        (v[i] - on_plane).length_squared()
    });
    let c = v[i3] - p0;
    let vs = a.length() * b.length() * c.length();
    check_degeneracy(vs.to_bits(), (a.cross(b).dot(c).abs() / vs).to_bits())?;
    let picks = [i0, i1, i2, i3];
    let apex = distance(v, TriangleIndices(i0, i1, i2), v[i3]).to_bits();
    let faces = tetrahedron_faces(picks, apex);
    let rows: Vec<Vec<u32>> = list
        .iter()
        .map(|&p| faces.iter().map(|t| distance(v, *t, v[p]).to_bits()).collect())
        .collect();
    let mut hull = HullConstructor::new();
    hull.start_construction(picks, apex, &list, tol.to_bits(), &rows);
    while let Some(next) = hull.get_best_vertex() {
        let d: Vec<u32> = (0..hull.triangle_count())
            .map(|i| distance(v, hull.triangle(i).get_triple_representation(), v[next]).to_bits())
            .collect();
        let (reassign, first) = hull.begin_step(next, &d);
        assign(&mut hull, v, first, &reassign, next, tol);
    }
    Ok(hull)
}

fn check(v: &[Vec3], hull: &[TriangleIndices]) -> Result<(), ConsistencyError> {
    let tol = tolerance_of(v).to_bits();
    let rows: Vec<Vec<u32>> = v
        .iter()
        .map(|p| hull.iter().map(|t| distance(v, *t, *p).to_bits()).collect())
        .collect();
    check_consistency(&rows, tol, hull)
}

fn cube(scale: f32, extra: usize, seed: u64) -> Vec<Vec3> {
    let mut r = Vec::new();
    let mut rng = StdRng::seed_from_u64(seed);
    for x in -1..=1 {
        for y in -1..=1 {
            for z in -1..=1 {
                r.push(Vec3::new(x as f32, y as f32, z as f32) * scale);
            }
        }
    }
    let s = scale * 0.95;
    for _ in 0..extra {
        r.push(Vec3::new(
            rng.random_range(-s..=s),
            rng.random_range(-s..=s),
            rng.random_range(-s..=s),
        ));
    }
    r
}

fn sphere(scale: f32, n: usize, seed: u64, hollow: bool) -> Vec<Vec3> {
    let mut rng = StdRng::seed_from_u64(seed);
    (0..n)
        .map(|_| {
            let d = Vec3::new(
                rng.random_range(-1.0..=1.0),
                rng.random_range(-1.0..=1.0),
                rng.random_range(-1.0..=1.0),
            )
            .normalize_or_zero();
            let r = if hollow { scale } else { rng.random_range(0.0f32..=1.0).cbrt() * scale };
            d * r
        })
        .collect()
}

// ---------------------------------------------------------------------------
// Error scenarios and small hulls.
// ---------------------------------------------------------------------------

#[test]
fn degenerate_convex_hull_test() {
    let vertices = [
        Vec3::new(0.0, 0.0, 0.0),
        Vec3::new(0.0, 0.0, 0.0),
        Vec3::new(0.0, 0.0, 0.0),
        Vec3::new(0.0, 0.0, 0.0),
    ];
    let hull = hull_of(&vertices);
    assert_eq!(
        hull,
        Err(ConvexHullError::DegenerateInput),
        "Degenerate convex hull expected"
    );
}

#[test]
fn too_few_vertices_test() {
    let vertices = [
        Vec3::new(0.0, 0.0, 0.0),
        Vec3::new(1.0, 0.0, 0.0),
        Vec3::new(0.0, 0.1, 0.0),
    ];
    let hull = hull_of(&vertices);
    assert_eq!(
        hull,
        Err(ConvexHullError::TooFewVertices { count: 3 }),
        "Too few vertices with 3 expected."
    );
}

#[test]
fn broken_vertex_test() {
    let vertices = [
        Vec3::new(0.0, 0.0, 0.0),
        Vec3::new(1.0, 0.0, 0.0),
        Vec3::new(0.0, 0.1, 0.0),
        Vec3::new(0.0, 0.0, f32::NAN),
    ];
    let hull = hull_of(&vertices);
    assert_eq!(
        hull,
        Err(ConvexHullError::NonFiniteVertex { index: 3 }),
        "Broken vertex at index 3 expected."
    );
}

#[test]
fn tetrahedron_example_test() {
    let positions = [
        Vec3::new(0.0, 0.0, 0.0),
        Vec3::new(1.0, 0.0, 0.0),
        Vec3::new(0.0, 1.0, 0.0),
        Vec3::new(0.0, 0.0, 1.0),
        Vec3::new(0.1, 0.1, 0.1),
    ];
    let result = hull_of(&positions).unwrap();
    assert_eq!(result.len(), 4, "We should get the four triangles of the outer tetrahedron");
    assert_eq!(check(&positions, &result), Ok(()));
    for t in &result {
        assert!(t.to_array().iter().all(|&i| i < 4));
    }
}

/// Parameters drawn from a seeded generator: a radius spread over the range
/// 0.0001 to 100000 on a logarithmic scale, a count below `max_count`, and a
/// seed; the two ends of the radius range come first.
fn drawn_cases(seed: u64, cases: usize, min_count: usize, max_count: usize) -> Vec<(f32, usize, u64)> {
    let mut rng = StdRng::seed_from_u64(seed);
    let mut r = vec![(0.0001f32, min_count, 1u64), (100_000.0f32, max_count - 1, 2u64)];
    for _ in 0..cases {
        let radius = 10f32.powf(rng.random_range(-4.0f32..5.0));
        r.push((radius, rng.random_range(min_count..max_count), rng.random_range(0..u64::MAX)));
    }
    r
}

#[test]
fn box_test() {
    for (scale, extra, seed) in drawn_cases(101, 8, 0, 3_000) {
        let v = cube(scale, extra, seed);
        let hull = hull_of(&v).unwrap();
        assert_eq!(check(&v, &hull), Ok(()), "radius {scale}, extra {extra}, seed {seed}");
    }
}

#[test]
fn sphere_test() {
    for (scale, n, seed) in drawn_cases(202, 10, 4, 2_000) {
        let v = sphere(scale, n, seed, false);
        match hull_of(&v) {
            Ok(hull) => assert_eq!(check(&v, &hull), Ok(()), "radius {scale}, n {n}, seed {seed}"),
            Err(ConvexHullError::DegenerateInput) => {}
            Err(e) => panic!("hull failed: {:?}", e),
        }
    }
}

#[test]
fn sphere_hull_test() {
    for (scale, n, seed) in drawn_cases(303, 12, 4, 400) {
        let v = sphere(scale, n, seed, true);
        match hull_of(&v) {
            Ok(hull) => assert_eq!(check(&v, &hull), Ok(()), "radius {scale}, n {n}, seed {seed}"),
            Err(ConvexHullError::DegenerateInput) => {}
            Err(e) => panic!("hull failed: {:?}", e),
        }
    }
}

// ---------------------------------------------------------------------------
// Comparisons on bit patterns agree with single-precision arithmetic.
// ---------------------------------------------------------------------------

fn samples() -> Vec<f32> {
    vec![
        0.0,
        -0.0,
        1.0,
        -1.0,
        1e-6,
        1e-5,
        2.5,
        -2.5,
        f32::MIN_POSITIVE,
        -f32::MIN_POSITIVE,
        1e-45,
        f32::MAX,
        f32::MIN,
        f32::INFINITY,
        f32::NEG_INFINITY,
        f32::NAN,
        -f32::NAN,
    ]
}

#[test]
fn comparisons_match_f32_test() {
    for a in samples() {
        for b in samples() {
            assert_eq!(bits_gt(a.to_bits(), b.to_bits()), a > b, "{a} > {b}");
            assert_eq!(bits_le(a.to_bits(), b.to_bits()), a <= b, "{a} <= {b}");
            assert_eq!(bits_lt(a.to_bits(), b.to_bits()), a < b, "{a} < {b}");
            assert_eq!(
                bits_total_key(a.to_bits()).cmp(&bits_total_key(b.to_bits())),
                a.total_cmp(&b),
                "total order of {a} and {b}"
            );
        }
        assert_eq!(bits_is_finite(a.to_bits()), a.is_finite());
        assert_eq!(bits_is_nan(a.to_bits()), a.is_nan());
    }
    assert_eq!(bits_value_key(0.0f32.to_bits()), bits_value_key((-0.0f32).to_bits()));
    assert_eq!(bits_total_key((-0.0f32).to_bits()), -1);
    assert_eq!(bits_total_key(0.0f32.to_bits()), 0);
}

#[test]
fn one_millionth_pattern_test() {
    assert_eq!(qhull_rayon::float_order::ONE_MILLIONTH, 1e-6f32.to_bits());
    assert_eq!(qhull_rayon::float_order::NEGATIVE_INFINITY, f32::NEG_INFINITY.to_bits());
}

// ---------------------------------------------------------------------------
// Input checks.
// ---------------------------------------------------------------------------

#[test]
fn validate_vertices_test() {
    let ok = bits_of(&[Vec3::ZERO, Vec3::X, Vec3::Y, Vec3::Z]);
    assert_eq!(validate_vertices(&ok), Ok(()));
    assert_eq!(
        validate_vertices(&[]),
        Err(ConvexHullError::TooFewVertices { count: 0 })
    );
    let mut two_bad = ok.clone();
    two_bad[1][2] = f32::INFINITY.to_bits();
    two_bad[3][0] = f32::NAN.to_bits();
    assert_eq!(
        validate_vertices(&two_bad),
        Err(ConvexHullError::NonFiniteVertex { index: 1 })
    );
    let mut three_bad = two_bad.clone();
    three_bad.truncate(3);
    assert_eq!(
        validate_vertices(&three_bad),
        Err(ConvexHullError::TooFewVertices { count: 3 })
    );
}

#[test]
fn check_degeneracy_test() {
    assert_eq!(check_degeneracy(1.0f32.to_bits(), 0.5f32.to_bits()), Ok(()));
    assert_eq!(
        check_degeneracy(0.0f32.to_bits(), 0.5f32.to_bits()),
        Err(ConvexHullError::DegenerateInput)
    );
    assert_eq!(
        check_degeneracy((-0.0f32).to_bits(), 0.5f32.to_bits()),
        Err(ConvexHullError::DegenerateInput)
    );
    assert_eq!(
        check_degeneracy(1.0f32.to_bits(), 1e-7f32.to_bits()),
        Err(ConvexHullError::DegenerateInput)
    );
    assert_eq!(check_degeneracy(1.0f32.to_bits(), 1e-6f32.to_bits()), Ok(()));
    // NaN compares false both ways, as single-precision `<=` and `<` do.
    assert_eq!(check_degeneracy(f32::NAN.to_bits(), f32::NAN.to_bits()), Ok(()));
}

// ---------------------------------------------------------------------------
// Small types.
// ---------------------------------------------------------------------------

#[test]
fn triangle_indices_array_test() {
    let a = TriangleIndices(0, 1, 2);
    assert_eq!(a.to_array(), [0, 1, 2]);
    let b = TriangleIndices::from_array([1, 2, 3]);
    assert_eq!(b, TriangleIndices(1, 2, 3));
    assert_eq!(TriangleIndices::from_array(b.to_array()), b);
}

#[test]
fn edge_reversed_test() {
    let e = Edge { start: 3, end: 7 };
    assert_eq!(e.reversed(), Edge { start: 7, end: 3 });
    assert_eq!(e.reversed().reversed(), e);
    assert_eq!(e.to_pair(), (3, 7));
}

#[test]
fn triangle_assign_test() {
    let mut t = Triangle::new([4, 5, 6]);
    assert_eq!(t.furthest_vertex_and_dist(), None);
    t.assign_vertex(10, 2.0f32.to_bits());
    t.assign_vertex(11, 1.0f32.to_bits());
    t.assign_vertex(12, 2.0f32.to_bits());
    assert_eq!(t.furthest_vertex_and_dist(), Some((10, 2.0f32.to_bits())));
    t.assign_vertex(13, 3.0f32.to_bits());
    assert_eq!(t.furthest_vertex_and_dist(), Some((13, 3.0f32.to_bits())));
    assert_eq!(t.regarded_vertices(), &vec![10, 11, 12, 13]);
    let f = t.get_flipped_version();
    assert_eq!(f.get_triple_representation(), TriangleIndices(4, 6, 5));
    assert!(f.regarded_vertices().is_empty());
    let e = t.edges();
    assert_eq!(e[0], Edge { start: 4, end: 5 });
    assert_eq!(e[2], Edge { start: 6, end: 4 });
    let g = Triangle::from_edge_and_points(&Edge { start: 1, end: 2 }, 9);
    assert_eq!(g.get_triple_representation(), TriangleIndices(1, 2, 9));
}

// ---------------------------------------------------------------------------
// Selection.
// ---------------------------------------------------------------------------

#[test]
fn best_index_takes_last_maximum_test() {
    let mut list = initial_vertex_list(5);
    assert_eq!(list, vec![0, 1, 2, 3, 4]);
    let probes: Vec<u32> = [1.0f32, 3.0, -0.0, 3.0, 2.0].iter().map(|x| x.to_bits()).collect();
    let r = get_best_index_and_remove(&mut list, &probes);
    assert_eq!(r, 3);
    assert_eq!(list, vec![0, 1, 2, 4]);
    let probes: Vec<u32> = [-0.0f32, 0.0, -1.0, -0.0].iter().map(|x| x.to_bits()).collect();
    let r = get_best_index_and_remove(&mut list, &probes);
    // The total order puts positive zero above negative zero.
    assert_eq!(r, 1);
    assert_eq!(list, vec![0, 4, 2]);
}

#[test]
fn choose_triangle_test() {
    let d = |xs: &[f32]| xs.iter().map(|x| x.to_bits()).collect::<Vec<u32>>();
    assert_eq!(choose_triangle(&d(&[0.5, 2.0, 2.0, 1.0]), 0.1f32.to_bits()), Some(1));
    assert_eq!(choose_triangle(&d(&[0.05, 0.1, -3.0]), 0.1f32.to_bits()), None);
    assert_eq!(choose_triangle(&d(&[f32::NAN, 0.2]), 0.1f32.to_bits()), Some(1));
    assert_eq!(choose_triangle(&d(&[]), 0.0f32.to_bits()), None);
}

// ---------------------------------------------------------------------------
// Hull steps.
// ---------------------------------------------------------------------------

#[test]
fn initial_tetrahedron_test() {
    let mut h = HullConstructor::new();
    h.build_initial_tetrahedron([0, 1, 2, 3], (-1.0f32).to_bits());
    assert_eq!(
        h.triangle_indices(),
        vec![
            TriangleIndices(0, 1, 2),
            TriangleIndices(1, 0, 3),
            TriangleIndices(2, 1, 3),
            TriangleIndices(3, 0, 2)
        ]
    );
    assert_eq!(check_hull_topology(&h.triangle_indices()), Ok(()));
    let mut g = HullConstructor::new();
    g.build_initial_tetrahedron([0, 1, 2, 3], 1.0f32.to_bits());
    assert_eq!(
        g.triangle_indices(),
        vec![
            TriangleIndices(0, 2, 1),
            TriangleIndices(1, 3, 0),
            TriangleIndices(2, 3, 1),
            TriangleIndices(3, 2, 0)
        ]
    );
    assert_eq!(check_hull_topology(&g.triangle_indices()), Ok(()));
}

#[test]
fn hull_step_test() {
    let mut h = HullConstructor::new();
    h.build_initial_tetrahedron([0, 1, 2, 3], (-1.0f32).to_bits());
    assert_eq!(h.get_best_vertex(), None);
    // Vertex 4 lies above triangle 1 only, vertex 5 above triangles 1 and 2.
    let rows: Vec<Vec<u32>> = vec![
        [-1.0f32, 2.0, -1.0, -1.0].iter().map(|x| x.to_bits()).collect(),
        [-1.0f32, 0.5, 0.7, -1.0].iter().map(|x| x.to_bits()).collect(),
    ];
    h.assign_vertices_to_tris(0, &vec![4, 5], 99, 0.0f32.to_bits(), &rows);
    assert_eq!(h.triangle(1).regarded_vertices(), &vec![4]);
    assert_eq!(h.triangle(2).regarded_vertices(), &vec![5]);
    assert_eq!(h.get_best_vertex(), Some(4));

    // Vertex 4 sees triangle 1 only.
    let d: Vec<u32> = [-1.0f32, 2.0, -0.5, 0.0].iter().map(|x| x.to_bits()).collect();
    let (reassign, seam) = h.remove_visible(&d);
    assert_eq!(reassign, vec![4]);
    assert_eq!(h.triangle_count(), 3);
    // Triangle 1 was replaced by the last one.
    assert_eq!(h.triangle(1).get_triple_representation(), TriangleIndices(3, 0, 2));
    let mut seam_pairs: Vec<(usize, usize)> = seam.iter().map(|e| e.to_pair()).collect();
    seam_pairs.sort();
    assert_eq!(seam_pairs, vec![(0, 3), (1, 0), (3, 1)]);
    let first = h.add_cone(&seam, 4);
    assert_eq!(first, 3);
    assert_eq!(h.triangle_count(), 6);
    assert_eq!(check_hull_topology(&h.triangle_indices()), Ok(()));
    // The new vertex is excluded from reassignment: one vertex fewer waits.
    let rows: Vec<Vec<u32>> = vec![[1.0f32, 1.0, 1.0].iter().map(|x| x.to_bits()).collect()];
    h.assign_vertices_to_tris(first, &reassign, 4, 0.0f32.to_bits(), &rows);
    let waiting: usize = (0..h.triangle_count())
        .map(|i| h.triangle(i).regarded_vertices().len())
        .sum();
    assert_eq!(waiting, 1);
    assert_eq!(h.get_best_vertex(), Some(5));
}

#[test]
fn topology_errors_test() {
    let open = vec![TriangleIndices(0, 1, 2), TriangleIndices(1, 0, 3)];
    assert_eq!(check_hull_topology(&open), Err(ConsistencyError::HullNotClosed));
    let tet = |o: usize| {
        vec![
            TriangleIndices(o, o + 1, o + 2),
            TriangleIndices(o + 1, o, o + 3),
            TriangleIndices(o + 2, o + 1, o + 3),
            TriangleIndices(o + 3, o, o + 2),
        ]
    };
    let mut two = tet(0);
    two.extend(tet(4));
    assert_eq!(check_hull_topology(&two), Err(ConsistencyError::EulerRelationError));
    let mut doubled = tet(0);
    doubled.extend(tet(0));
    assert_eq!(check_hull_topology(&doubled), Err(ConsistencyError::HullNotClosed));
    assert_eq!(check_hull_topology(&tet(0)), Ok(()));
    let inside = |xs: &[f32]| xs.iter().map(|x| x.to_bits()).collect::<Vec<u32>>();
    let rows = vec![
        inside(&[-1.0, 0.0, 0.05, -2.0]),
        inside(&[-1.0, 0.2, f32::NAN, -2.0]),
        inside(&[0.5, -1.0, -1.0, -1.0]),
    ];
    let tol = 0.1f32.to_bits();
    assert_eq!(first_outside_vertex(&rows, tol), Some(1));
    assert_eq!(
        check_consistency(&rows, tol, &tet(0)),
        Err(ConsistencyError::PointOutsideConvexHull(1))
    );
    let quiet = vec![inside(&[-1.0, 0.1, f32::NAN, 0.0])];
    assert_eq!(first_outside_vertex(&quiet, tol), None);
    assert_eq!(check_consistency(&quiet, tol, &open), Err(ConsistencyError::HullNotClosed));
    assert_eq!(check_consistency(&quiet, tol, &tet(0)), Ok(()));
    assert_eq!(check_hull_topology(&[]), Err(ConsistencyError::EulerRelationError));
}

#[test]
fn cube_example_test() {
    let v = cube(100.0, 10_000, 42);
    let hull = hull_of(&v).unwrap();
    assert_eq!(check(&v, &hull), Ok(()));
}

#[test]
fn sphere_example_test() {
    let v = sphere(100.0, 10_000, 42, false);
    let hull = hull_of(&v).unwrap();
    assert_eq!(check(&v, &hull), Ok(()));
}

#[test]
fn sphere_hull_example_test() {
    let v = sphere(100.0, 1_000, 42, true);
    let hull = hull_of(&v).unwrap();
    assert_eq!(check(&v, &hull), Ok(()));
}

#[test]
fn start_and_step_test() {
    let bits = |xs: &[f32]| xs.iter().map(|x| x.to_bits()).collect::<Vec<u32>>();
    assert_eq!(
        tetrahedron_faces([0, 1, 2, 3], 1.0f32.to_bits()),
        vec![
            TriangleIndices(0, 2, 1),
            TriangleIndices(1, 3, 0),
            TriangleIndices(2, 3, 1),
            TriangleIndices(3, 2, 0)
        ]
    );
    let mut h = HullConstructor::new();
    let rows = vec![bits(&[-1.0, 2.0, -1.0, -1.0]), bits(&[-1.0, 0.5, 0.7, -1.0]), bits(&[0.0, 0.05, 0.0, 0.0])];
    h.start_construction([0, 1, 2, 3], (-1.0f32).to_bits(), &vec![4, 5, 6], 0.1f32.to_bits(), &rows);
    assert_eq!(h.triangle(1).regarded_vertices(), &vec![4]);
    assert_eq!(h.triangle(2).regarded_vertices(), &vec![5]);
    assert!(h.triangle(0).regarded_vertices().is_empty());
    assert_eq!(h.get_best_vertex(), Some(4));
    let (reassign, first) = h.begin_step(4, &bits(&[-1.0, 2.0, -0.5, 0.0]));
    assert_eq!(reassign, vec![4]);
    assert_eq!(first, 3);
    assert_eq!(h.triangle_count(), 6);
    assert_eq!(check_hull_topology(&h.triangle_indices()), Ok(()));
}

#[test]
fn error_messages_test() {
    assert_eq!(
        ConvexHullError::TooFewVertices { count: 3 }.message(),
        "Too few vertices: 3"
    );
    assert_eq!(
        ConvexHullError::TooFewVertices { count: 0 }.message(),
        "Too few vertices: 0"
    );
    assert_eq!(
        ConvexHullError::DegenerateInput.message(),
        "All vertices are coplanar"
    );
    assert_eq!(
        ConvexHullError::NonFiniteVertex { index: 1024 }.message(),
        "Non finite vertex: 1024"
    );
    assert_eq!(
        ConsistencyError::PointOutsideConvexHull(12).message(),
        "Point outside convex hull at index 12"
    );
    assert_eq!(ConsistencyError::HullNotClosed.message(), "Hull not closed");
    assert_eq!(
        ConsistencyError::EulerRelationError.message(),
        "Euler relation between triangles and vertices not given. F = 2 * V - 4"
    );
    assert_eq!(
        ConsistencyError::PointOutsideConvexHull(usize::MAX).message(),
        format!("Point outside convex hull at index {}", usize::MAX)
    );
}

#[test]
fn nothing_waits_at_end_test() {
    for v in [cube(1.0, 200, 7), sphere(3.0, 300, 11, false), sphere(1.0, 100, 5, true)] {
        let hull = finished_construction(&v).unwrap();
        assert_eq!(hull.get_best_vertex(), None);
        for i in 0..hull.triangle_count() {
            assert!(hull.triangle(i).regarded_vertices().is_empty());
            assert_eq!(hull.triangle(i).furthest_vertex_and_dist(), None);
        }
    }
}

#[test]
fn euler_relation_after_every_step_test() {
    let v = sphere(2.0, 120, 23, false);
    let tol = tolerance_of(&v);
    let mut list = initial_vertex_list(v.len());
    let i0 = take(&mut list, |i| v[i].x);
    let p0 = v[i0];
    let i1 = take(&mut list, |i| (v[i] - p0).length_squared());
    let da = (v[i1] - p0).normalize_or_zero();
    let i2 = take(&mut list, |i| {
        let on_line = p0 + (v[i] - p0).dot(da) * da;
        (v[i] - on_line).length_squared()
    });
    let b = v[i2] - p0;
    let db = (b - b.dot(da) * da).normalize_or_zero();
    let i3 = take(&mut list, |i| {
        let d = v[i] - p0;
        let on_plane = p0 + d.dot(da) * da + d.dot(db) * db;
        (v[i] - on_plane).length_squared()
    });
    let picks = [i0, i1, i2, i3];
    let apex = distance(&v, TriangleIndices(i0, i1, i2), v[i3]).to_bits();
    let faces = tetrahedron_faces(picks, apex);
    let rows: Vec<Vec<u32>> = list
        .iter()
        .map(|&p| faces.iter().map(|t| distance(&v, *t, v[p]).to_bits()).collect())
        .collect();
    let mut hull = HullConstructor::new();
    hull.start_construction(picks, apex, &list, tol.to_bits(), &rows);
    assert_eq!(check_hull_topology(&hull.triangle_indices()), Ok(()));
    let mut steps = 0;
    let distinct_and_four = |faces: &[TriangleIndices]| {
        faces.len() >= 4 && faces.iter().all(|t| t.0 != t.1 && t.1 != t.2 && t.0 != t.2)
    };
    assert!(distinct_and_four(&hull.triangle_indices()));
    while let Some(next) = hull.get_best_vertex() {
        let d: Vec<u32> = (0..hull.triangle_count())
            .map(|i| distance(&v, hull.triangle(i).get_triple_representation(), v[next]).to_bits())
            .collect();
        // The new vertex lies at its recorded distance, beyond the tolerance,
        // above the triangle that records it, so that triangle is removed.
        let holder = (0..hull.triangle_count())
            .find(|&i| matches!(hull.triangle(i).furthest_vertex_and_dist(), Some((w, _)) if w == next))
            .unwrap();
        let (_, recorded) = hull.triangle(holder).furthest_vertex_and_dist().unwrap();
        assert_eq!(recorded, d[holder]);
        assert!(bits_gt(d[holder], tol.to_bits()));
        assert!(bits_gt(d[holder], 0));
        let before = hull.triangle_count();
        let (reassign, first) = hull.begin_step(next, &d);
        assert!(first < before);
        assign(&mut hull, &v, first, &reassign, next, tol);
        assert_eq!(check_hull_topology(&hull.triangle_indices()), Ok(()));
        assert!(distinct_and_four(&hull.triangle_indices()));
        steps += 1;
    }
    assert!(steps > 0);
}

#[test]
fn decimal_string_test() {
    for n in [0usize, 7, 9, 10, 11, 99, 100, 1234567890, usize::MAX] {
        assert_eq!(decimal_string(n), format!("{}", n));
    }
    assert_eq!(decimal_string(42), "42");
}
