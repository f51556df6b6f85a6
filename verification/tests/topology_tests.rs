use brepper::topology::{
    validate_and_populate_topology, EdgeKey, validation_outcome, MeshFace, MeshValidationError,
    MeshValidationStats, UNDEDUCED_CONICAL_HYPOTHESIS, UNDEDUCED_CYLINDRICAL_HYPOTHESIS,
    UNDEDUCED_PLANAR_HYPOTHESIS, UNDEDUCED_SPHERICAL_HYPOTHESIS, UNDEDUCED_TOROIDAL_HYPOTHESIS,
};

fn make_triangle_face(a: usize, b: usize, c: usize) -> MeshFace {
    MeshFace {
        vertex_count: 3,
        vertex_indices: [a, b, c, 0],
        neighbors: [-1, -1, -1, -1],
        planar_hypothesis: UNDEDUCED_PLANAR_HYPOTHESIS,
        cylindrical_hypothesis: UNDEDUCED_CYLINDRICAL_HYPOTHESIS,
        spherical_hypothesis: UNDEDUCED_SPHERICAL_HYPOTHESIS,
        conical_hypothesis: UNDEDUCED_CONICAL_HYPOTHESIS,
        toroidal_hypothesis: UNDEDUCED_TOROIDAL_HYPOTHESIS,
    }
}

/// Unit cube vertices, welded: index i is the corner given by the bits (x, y, z) of the
/// table below.
fn cube_vertices() -> Vec<[f64; 3]> {
    vec![
        [0.0, 0.0, 0.0],
        [1.0, 0.0, 0.0],
        [1.0, 1.0, 0.0],
        [0.0, 1.0, 0.0],
        [0.0, 0.0, 1.0],
        [1.0, 0.0, 1.0],
        [1.0, 1.0, 1.0],
        [0.0, 1.0, 1.0],
    ]
}

/// The twelve outward-wound triangles of the unit cube, two per side.
fn cube_faces() -> Vec<MeshFace> {
    vec![
        make_triangle_face(0, 2, 1),
        make_triangle_face(0, 3, 2),
        make_triangle_face(4, 5, 6),
        make_triangle_face(4, 6, 7),
        make_triangle_face(0, 1, 5),
        make_triangle_face(0, 5, 4),
        make_triangle_face(3, 7, 6),
        make_triangle_face(3, 6, 2),
        make_triangle_face(0, 4, 7),
        make_triangle_face(0, 7, 3),
        make_triangle_face(1, 2, 6),
        make_triangle_face(1, 6, 5),
    ]
}

/// Newell normal length test: whether a face has a computable normal.
fn has_normal(face: &MeshFace, vertices: &[[f64; 3]]) -> bool {
    let vc = face.vertex_count as usize;
    if !(3..=4).contains(&vc) {
        return false;
    }
    let (mut nx, mut ny, mut nz) = (0.0f64, 0.0f64, 0.0f64);
    for i in 0..vc {
        let c = vertices[face.vertex_indices[i]];
        let n = vertices[face.vertex_indices[(i + 1) % vc]];
        nx += (c[1] - n[1]) * (c[2] + n[2]);
        ny += (c[2] - n[2]) * (c[0] + n[0]);
        nz += (c[0] - n[0]) * (c[1] + n[1]);
    }
    nx * nx + ny * ny + nz * nz > 1.0e-24
}

/// Signed volume of the faces of one shell (sum of tetrahedra with the origin).
fn shell_signed_volume(faces: &[MeshFace], vertices: &[[f64; 3]], component: &[usize], shell: usize) -> f64 {
    let mut vol = 0.0f64;
    for (fi, face) in faces.iter().enumerate() {
        if component[fi] != shell {
            continue;
        }
        let v0 = vertices[face.vertex_indices[0]];
        let v1 = vertices[face.vertex_indices[1]];
        let v2 = vertices[face.vertex_indices[2]];
        let cx = v1[1] * v2[2] - v1[2] * v2[1];
        let cy = v1[2] * v2[0] - v1[0] * v2[2];
        let cz = v1[0] * v2[1] - v1[1] * v2[0];
        vol += v0[0] * cx + v0[1] * cy + v0[2] * cz;
    }
    vol / 6.0
}

/// Validate a mesh as stage 1.2 does: topology, then the verdict.
fn validate(
    faces: &mut Vec<MeshFace>,
    vertices: &[[f64; 3]],
    stats: &mut MeshValidationStats,
) -> Result<(), MeshValidationError> {
    let normals: Vec<bool> = faces.iter().map(|f| has_normal(f, vertices)).collect();
    let analysis = validate_and_populate_topology(faces, vertices.len(), &normals, stats);
    let inverted: Vec<bool> = (0..analysis.component_closed.len())
        .map(|c| {
            analysis.component_closed[c]
                && shell_signed_volume(faces, vertices, &analysis.face_component, c) < 0.0
        })
        .collect();
    validation_outcome(analysis.degenerate_faces, &analysis.component_closed, &inverted, stats)
}

fn non_manifold_mesh() -> (Vec<MeshFace>, Vec<[f64; 3]>) {
    let vertices = vec![
        [0.0, 0.0, 0.0],
        [1.0, 0.0, 0.0],
        [0.0, 1.0, 0.0],
        [0.0, 0.0, 1.0],
        [0.0, -1.0, 0.0],
    ];
    let faces = vec![
        make_triangle_face(0, 1, 2),
        make_triangle_face(1, 0, 3),
        make_triangle_face(0, 1, 4),
    ];
    (faces, vertices)
}

#[test]
fn mesh_detects_non_manifold_edge() {
    let (mut faces, vertices) = non_manifold_mesh();
    let mut stats = MeshValidationStats::default();
    let err = validate(&mut faces, &vertices, &mut stats).expect_err("edge (0,1) has 3 incident triangles");
    assert!(matches!(err, MeshValidationError::NonManifoldEdges { edge_count: 1 }));
    assert_eq!(stats.mesh_edges_non_manifold, 1);
}

#[test]
fn stage1_detects_non_manifold_edge() {
    let (mut faces, vertices) = non_manifold_mesh();
    let mut stats = MeshValidationStats::default();
    let err = validate(&mut faces, &vertices, &mut stats).expect_err("edge (0,1) has 3 incident triangles");
    assert!(matches!(err, MeshValidationError::NonManifoldEdges { edge_count: 1 }));
    assert_eq!(stats.mesh_edges_non_manifold, 1);
}

fn check_cube_topology() {
    let vertices = cube_vertices();
    let mut faces = cube_faces();
    let mut stats = MeshValidationStats::default();
    validate(&mut faces, &vertices, &mut stats).expect("cube should be a valid closed manifold");

    assert_eq!(stats.mesh_faces, 12);
    assert_eq!(stats.mesh_vertices, 8);
    assert_eq!(stats.mesh_edges_open, 0);
    assert_eq!(stats.mesh_edges_non_manifold, 0);
    assert_eq!(stats.mesh_edges_inconsistent_orientation, 0);
    assert_eq!(stats.mesh_faces_degenerate, 0);
    assert_eq!(stats.connected_shells, 1);
    assert_eq!(stats.solids, 1);
    assert_eq!(stats.voids_within_solids, 0);

    for face in &faces {
        assert!(has_normal(face, &vertices));
        for edge_idx in 0..(face.vertex_count as usize) {
            assert!(face.neighbors[edge_idx] >= 0);
        }
    }
}

#[test]
fn mesh_validates_cube_mesh_topology() {
    check_cube_topology();
}

#[test]
fn stage1_validates_cube_mesh_topology() {
    check_cube_topology();
}

#[test]
fn detects_inverted_normals() {
    // Tetrahedron vertices: 0=(0,0,0), 1=(1,0,0), 2=(0,1,0), 3=(0,0,1), every face wound inward.
    let vertices = vec![[0.0, 0.0, 0.0], [1.0, 0.0, 0.0], [0.0, 1.0, 0.0], [0.0, 0.0, 1.0]];
    let mut faces = vec![
        make_triangle_face(0, 1, 2),
        make_triangle_face(0, 3, 1),
        make_triangle_face(1, 3, 2),
        make_triangle_face(0, 2, 3),
    ];
    let mut stats = MeshValidationStats::default();
    let err = validate(&mut faces, &vertices, &mut stats).expect_err("inverted tetrahedron should fail validation");
    assert!(matches!(err, MeshValidationError::InvertedNormals { shell_index: 0 }));
}

#[test]
fn cube_neighbors_are_mutual() {
    let vertices = cube_vertices();
    let mut faces = cube_faces();
    let mut stats = MeshValidationStats::default();
    validate(&mut faces, &vertices, &mut stats).unwrap();
    // Face 0 (0,2,1): edge 0 (0->2) is shared with face 1, edge 1 (2->1) with face 10,
    // edge 2 (1->0) with face 4.
    assert_eq!(&faces[0].neighbors[..3], &[1, 10, 4]);
    for (fi, face) in faces.iter().enumerate() {
        for e in 0..3 {
            let n = face.neighbors[e] as usize;
            assert!(faces[n].neighbors[..3].contains(&(fi as i32)));
        }
        assert_eq!(face.neighbors[3], -1);
    }
}

#[test]
fn open_triangle_has_three_open_edges_and_no_solid() {
    let vertices = vec![[0.0, 0.0, 0.0], [1.0, 0.0, 0.0], [0.0, 1.0, 0.0]];
    let mut faces = vec![make_triangle_face(0, 1, 2)];
    let mut stats = MeshValidationStats::default();
    assert!(validate(&mut faces, &vertices, &mut stats).is_ok());
    assert_eq!(stats.mesh_edges_open, 3);
    assert_eq!(stats.connected_shells, 1);
    assert_eq!(stats.solids, 0);
    assert_eq!(faces[0].neighbors, [-1, -1, -1, -1]);
}

#[test]
fn same_direction_neighbors_are_inconsistently_oriented() {
    let vertices = vec![[0.0, 0.0, 0.0], [1.0, 0.0, 0.0], [0.0, 1.0, 0.0], [1.0, 1.0, 0.0]];
    // Both triangles traverse edge 0->1 in the same direction.
    let mut faces = vec![make_triangle_face(0, 1, 2), make_triangle_face(0, 1, 3)];
    let mut stats = MeshValidationStats::default();
    let err = validate(&mut faces, &vertices, &mut stats).unwrap_err();
    assert!(matches!(err, MeshValidationError::InconsistentOrientation { edge_count: 1 }));
    assert_eq!(faces[0].neighbors[0], 1);
    assert_eq!(faces[1].neighbors[0], 0);
}

#[test]
fn degenerate_faces_are_reported_first_among_non_volume_errors() {
    // A collinear triangle (no normal) sharing a non-manifold edge.
    let vertices = vec![[0.0, 0.0, 0.0], [1.0, 0.0, 0.0], [2.0, 0.0, 0.0], [0.0, 1.0, 0.0], [0.0, -1.0, 0.0]];
    let mut faces = vec![
        make_triangle_face(0, 1, 2),
        make_triangle_face(0, 1, 3),
        make_triangle_face(1, 0, 4),
        make_triangle_face(0, 1, 4),
    ];
    let mut stats = MeshValidationStats::default();
    let err = validate(&mut faces, &vertices, &mut stats).unwrap_err();
    match err {
        MeshValidationError::DegenerateFaces { face_indices } => assert_eq!(face_indices, vec![0]),
        other => panic!("unexpected error {:?}", other),
    }
    assert_eq!(stats.mesh_faces_degenerate, 1);
    assert_eq!(stats.mesh_edges_non_manifold, 1);
}

#[test]
fn two_separate_triangles_form_two_shells() {
    let vertices = vec![[0.0, 0.0, 0.0], [1.0, 0.0, 0.0], [0.0, 1.0, 0.0], [5.0, 0.0, 0.0], [6.0, 0.0, 0.0], [5.0, 1.0, 0.0]];
    let mut faces = vec![make_triangle_face(3, 4, 5), make_triangle_face(0, 1, 2)];
    let mut stats = MeshValidationStats::default();
    let normals = vec![true, true];
    let analysis = validate_and_populate_topology(&mut faces, vertices.len(), &normals, &mut stats);
    assert_eq!(stats.connected_shells, 2);
    assert_eq!(analysis.face_component, vec![0, 1]);
    assert_eq!(analysis.component_closed, vec![false, false]);
}

#[test]
fn edge_key_puts_smaller_vertex_first() {
    assert_eq!(EdgeKey::new(7, 3), EdgeKey { lo: 3, hi: 7 });
    assert_eq!(EdgeKey::new(3, 7), EdgeKey { lo: 3, hi: 7 });
    assert_eq!(EdgeKey::new(4, 4), EdgeKey { lo: 4, hi: 4 });
}

/// Start and end vertex of edge `k` of a face.
fn edge_ends(face: &MeshFace, k: usize) -> (usize, usize) {
    let vc = face.vertex_count as usize;
    (face.vertex_indices[k], face.vertex_indices[(k + 1) % vc])
}

#[test]
fn validated_cube_neighbors_run_shared_edges_the_other_way() {
    let vertices = cube_vertices();
    let mut faces = cube_faces();
    let mut stats = MeshValidationStats::default();
    validate(&mut faces, &vertices, &mut stats).unwrap();
    for (fi, face) in faces.iter().enumerate() {
        assert!((3..=4).contains(&face.vertex_count));
        for k in 0..face.vertex_count as usize {
            let n = face.neighbors[k];
            assert!(n >= 0);
            let other = &faces[n as usize];
            let (a, b) = edge_ends(face, k);
            let back = (0..other.vertex_count as usize).find(|&k2| edge_ends(other, k2) == (b, a));
            let k2 = back.expect("the neighbor runs the edge the other way");
            assert_eq!(other.neighbors[k2], fi as i32);
        }
    }
}

#[test]
fn validated_open_pair_has_a_neighbor_only_across_the_shared_edge() {
    let vertices = vec![[0.0, 0.0, 0.0], [1.0, 0.0, 0.0], [1.0, 1.0, 0.0], [0.0, 1.0, 0.0]];
    let mut faces = vec![make_triangle_face(0, 1, 2), make_triangle_face(0, 2, 3)];
    let mut stats = MeshValidationStats::default();
    validate(&mut faces, &vertices, &mut stats).unwrap();
    // Edge 2->0 of face 0 is edge 0->2 of face 1; every other edge is used once.
    assert_eq!(faces[0].neighbors, [-1, -1, 1, -1]);
    assert_eq!(faces[1].neighbors, [0, -1, -1, -1]);
    assert_eq!(edge_ends(&faces[0], 2), (2, 0));
    assert_eq!(edge_ends(&faces[1], 0), (0, 2));
    assert_eq!(stats.mesh_edges_open, 4);
}
