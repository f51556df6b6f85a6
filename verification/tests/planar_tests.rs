use brepper::growth::RegionGrowth;
use brepper::topology::{
    validate_and_populate_topology, MeshFace, MeshValidationStats, UNDEDUCED_CONICAL_HYPOTHESIS,
    UNDEDUCED_CYLINDRICAL_HYPOTHESIS, UNDEDUCED_PLANAR_HYPOTHESIS, UNDEDUCED_SPHERICAL_HYPOTHESIS,
    UNDEDUCED_TOROIDAL_HYPOTHESIS,
};
use std::collections::BTreeSet;

type Point = [f64; 3];

fn tri(t: [usize; 3]) -> MeshFace {
    MeshFace {
        vertex_count: 3,
        vertex_indices: [t[0], t[1], t[2], 0],
        neighbors: [-1, -1, -1, -1],
        planar_hypothesis: UNDEDUCED_PLANAR_HYPOTHESIS,
        cylindrical_hypothesis: UNDEDUCED_CYLINDRICAL_HYPOTHESIS,
        spherical_hypothesis: UNDEDUCED_SPHERICAL_HYPOTHESIS,
        conical_hypothesis: UNDEDUCED_CONICAL_HYPOTHESIS,
        toroidal_hypothesis: UNDEDUCED_TOROIDAL_HYPOTHESIS,
    }
}

fn sub(a: &Point, b: &Point) -> Point {
    [a[0] - b[0], a[1] - b[1], a[2] - b[2]]
}

fn cross(a: &Point, b: &Point) -> Point {
    [a[1] * b[2] - a[2] * b[1], a[2] * b[0] - a[0] * b[2], a[0] * b[1] - a[1] * b[0]]
}

fn dot(a: &Point, b: &Point) -> f64 {
    a[0] * b[0] + a[1] * b[1] + a[2] * b[2]
}

/// Unit Newell normal of a triangle or quad.
fn face_normal(face: &MeshFace, v: &[Point]) -> Point {
    let vc = face.vertex_count as usize;
    let mut n = [0.0_f64; 3];
    for i in 0..vc {
        let c = v[face.vertex_indices[i]];
        let m = v[face.vertex_indices[(i + 1) % vc]];
        n[0] += (c[1] - m[1]) * (c[2] + m[2]);
        n[1] += (c[2] - m[2]) * (c[0] + m[0]);
        n[2] += (c[0] - m[0]) * (c[1] + m[1]);
    }
    let l = dot(&n, &n).sqrt();
    [n[0] / l, n[1] / l, n[2] / l]
}

fn face_area(face: &MeshFace, v: &[Point]) -> f64 {
    let v0 = v[face.vertex_indices[0]];
    let c = cross(&sub(&v[face.vertex_indices[1]], &v0), &sub(&v[face.vertex_indices[2]], &v0));
    0.5 * dot(&c, &c).sqrt()
}

/// Area-weighted mean normal of the faces, and the mean offset of the vertices.
fn fit_plane(face_list: &[usize], vertex_list: &[usize], faces: &[MeshFace], v: &[Point]) -> (Point, f64) {
    let mut sum = [0.0_f64; 3];
    for &fi in face_list {
        let n = face_normal(&faces[fi], v);
        let a = face_area(&faces[fi], v);
        for k in 0..3 {
            sum[k] += n[k] * a;
        }
    }
    let l = dot(&sum, &sum).sqrt();
    let n = [sum[0] / l, sum[1] / l, sum[2] / l];
    let d = vertex_list.iter().map(|&vi| dot(&n, &v[vi])).sum::<f64>() / vertex_list.len() as f64;
    (n, d)
}

struct Plane {
    faces: Vec<usize>,
    vertices: BTreeSet<usize>,
    error_max: f64,
    error_min: f64,
}

fn build_mesh(verts: &[Point], tris: &[[usize; 3]]) -> Vec<MeshFace> {
    let mut faces: Vec<MeshFace> = tris.iter().map(|t| tri(*t)).collect();
    let mut stats = MeshValidationStats::default();
    let normals = vec![true; faces.len()];
    validate_and_populate_topology(&mut faces, verts.len(), &normals, &mut stats);
    faces
}

/// A vertex farther than this many tolerances from the current plane is not tried.
const REFIT_SKIP_MULTIPLIER: f64 = 2.0;

/// Planar hypotheses grown breadth-first from each face not yet in one: a neighbor whose
/// corners all lie within `tol` of the current plane joins; one with a corner beyond twice
/// `tol` is skipped; otherwise the plane is refitted with it and it joins when every vertex
/// lies within `tol` of the refitted plane.
fn deduce_planes(faces: &mut Vec<MeshFace>, verts: &[Point], tol: f64) -> Vec<Plane> {
    let mut planes = Vec::new();
    for fi in 0..faces.len() {
        if faces[fi].planar_hypothesis != UNDEDUCED_PLANAR_HYPOTHESIS {
            continue;
        }
        let seed = faces[fi];
        let seed_corners = &seed.vertex_indices[..seed.vertex_count as usize];
        let mut n = face_normal(&seed, verts);
        let mut d = seed_corners.iter().map(|&vi| dot(&n, &verts[vi])).sum::<f64>() / seed.vertex_count as f64;
        let available: Vec<bool> = faces.iter().map(|f| f.planar_hypothesis == UNDEDUCED_PLANAR_HYPOTHESIS).collect();
        let mut growth = RegionGrowth::new(&vec![fi], faces, &available);
        let mut vertices: BTreeSet<usize> = seed_corners.iter().copied().collect();
        while let Some(c) = growth.next_candidate(faces) {
            let face = faces[c];
            let corners = &face.vertex_indices[..face.vertex_count as usize];
            let dists: Vec<f64> = corners.iter().map(|&vi| (dot(&n, &verts[vi]) - d).abs()).collect();
            if dists.iter().any(|&x| x > REFIT_SKIP_MULTIPLIER * tol) {
                continue;
            }
            if dists.iter().any(|&x| x > tol) {
                let mut trial_vertices = vertices.clone();
                trial_vertices.extend(corners.iter().copied());
                let mut trial_faces = growth.members().clone();
                trial_faces.push(c);
                let trial_list: Vec<usize> = trial_vertices.iter().copied().collect();
                let (n2, d2) = fit_plane(&trial_faces, &trial_list, faces, verts);
                if trial_list.iter().any(|&vi| (dot(&n2, &verts[vi]) - d2).abs() > tol) {
                    continue;
                }
                n = n2;
                d = d2;
            }
            vertices.extend(corners.iter().copied());
            growth.accept();
        }
        let members = growth.members().clone();
        let hi = planes.len() as i32;
        for &f in &members {
            faces[f].planar_hypothesis = hi;
        }
        let vertex_list: Vec<usize> = vertices.iter().copied().collect();
        let (fn_, fd) = fit_plane(&members, &vertex_list, faces, verts);
        let errs: Vec<f64> = vertex_list.iter().map(|&vi| dot(&fn_, &verts[vi]) - fd).collect();
        planes.push(Plane {
            faces: members,
            error_max: errs.iter().copied().fold(f64::NEG_INFINITY, f64::max),
            error_min: errs.iter().copied().fold(f64::INFINITY, f64::min),
            vertices,
        });
    }
    planes
}

#[test]
fn cube_gets_six_planar_hypotheses() {
    let verts: Vec<Point> = vec![
        [0.0, 0.0, 0.0],
        [1.0, 0.0, 0.0],
        [1.0, 1.0, 0.0],
        [0.0, 1.0, 0.0],
        [0.0, 0.0, 1.0],
        [1.0, 0.0, 1.0],
        [1.0, 1.0, 1.0],
        [0.0, 1.0, 1.0],
    ];
    let tris = [
        [0, 2, 1],
        [0, 3, 2],
        [4, 5, 6],
        [4, 6, 7],
        [0, 1, 5],
        [0, 5, 4],
        [3, 7, 6],
        [3, 6, 2],
        [0, 4, 7],
        [0, 7, 3],
        [1, 2, 6],
        [1, 6, 5],
    ];
    let mut faces = build_mesh(&verts, &tris);
    let hypotheses = deduce_planes(&mut faces, &verts, 1e-5);
    assert_eq!(faces.len(), 12);
    assert_eq!(hypotheses.len(), 6);
    for h in &hypotheses {
        assert_eq!(h.faces.len(), 2);
        assert!(h.error_max.abs() < 1e-12);
        assert!(h.error_min.abs() < 1e-12);
    }
    let total: usize = hypotheses.iter().map(|h| h.faces.len()).sum();
    assert_eq!(total, 12);
}

#[test]
fn two_perpendicular_triangles_get_separate_hypotheses() {
    let verts: Vec<Point> = vec![[0.0, 0.0, 0.0], [1.0, 0.0, 0.0], [0.0, 1.0, 0.0], [0.0, 0.0, 1.0]];
    let mut faces = build_mesh(&verts, &[[0, 1, 2], [0, 3, 1]]);
    let hypotheses = deduce_planes(&mut faces, &verts, 1e-5);
    assert_eq!(hypotheses.len(), 2);
}

#[test]
fn coplanar_triangles_get_one_hypothesis() {
    let verts: Vec<Point> = vec![[0.0, 0.0, 0.0], [1.0, 0.0, 0.0], [1.0, 1.0, 0.0], [0.0, 1.0, 0.0]];
    let mut faces = build_mesh(&verts, &[[0, 1, 2], [0, 2, 3]]);
    let hypotheses = deduce_planes(&mut faces, &verts, 1e-5);
    assert_eq!(hypotheses.len(), 1);
    assert_eq!(hypotheses[0].faces.len(), 2);
    assert_eq!(hypotheses[0].vertices.len(), 4);
}

#[test]
fn slightly_bent_pair_joins_after_a_plane_refit() {
    let verts: Vec<Point> = vec![[0.0, 0.0, 0.0], [1.0, 0.0, 0.0], [1.0, 1.0, 0.0], [0.0, 1.0, 1.5e-3]];
    let mut faces = build_mesh(&verts, &[[0, 1, 2], [0, 2, 3]]);
    let hypotheses = deduce_planes(&mut faces, &verts, 1e-3);
    assert_eq!(hypotheses.len(), 1);
    assert_eq!(hypotheses[0].faces, vec![0, 1]);
    assert!(hypotheses[0].error_max <= 1e-3 && hypotheses[0].error_min >= -1e-3);
}

#[test]
fn face_with_a_far_corner_is_skipped_without_refit() {
    let verts: Vec<Point> = vec![[0.0, 0.0, 0.0], [1.0, 0.0, 0.0], [1.0, 1.0, 0.0], [0.0, 1.0, 3e-3]];
    let mut faces = build_mesh(&verts, &[[0, 1, 2], [0, 2, 3]]);
    let hypotheses = deduce_planes(&mut faces, &verts, 1e-3);
    assert_eq!(hypotheses.len(), 2);
    assert_eq!(faces[0].planar_hypothesis, 0);
    assert_eq!(faces[1].planar_hypothesis, 1);
}
