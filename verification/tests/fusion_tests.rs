use brepper::fusion::{back_edge, fuse_coplanar_triangles};
use brepper::topology::{
    validate_and_populate_topology, MeshFace, MeshValidationStats, UNDEDUCED_CONICAL_HYPOTHESIS,
    UNDEDUCED_CYLINDRICAL_HYPOTHESIS, UNDEDUCED_PLANAR_HYPOTHESIS, UNDEDUCED_SPHERICAL_HYPOTHESIS,
    UNDEDUCED_TOROIDAL_HYPOTHESIS,
};

fn tri(a: usize, b: usize, c: usize) -> MeshFace {
    MeshFace {
        vertex_count: 3,
        vertex_indices: [a, b, c, 0],
        neighbors: [-1, -1, -1, -1],
        planar_hypothesis: UNDEDUCED_PLANAR_HYPOTHESIS,
        cylindrical_hypothesis: UNDEDUCED_CYLINDRICAL_HYPOTHESIS,
        spherical_hypothesis: UNDEDUCED_SPHERICAL_HYPOTHESIS,
        conical_hypothesis: UNDEDUCED_CONICAL_HYPOTHESIS,
        toroidal_hypothesis: UNDEDUCED_TOROIDAL_HYPOTHESIS,
    }
}

fn connect(faces: &mut Vec<MeshFace>, num_vertices: usize) -> MeshValidationStats {
    let mut stats = MeshValidationStats::default();
    let normals = vec![true; faces.len()];
    validate_and_populate_topology(faces, num_vertices, &normals, &mut stats);
    stats
}

#[test]
fn back_edge_finds_the_edge_pointing_back() {
    let mut faces = vec![tri(0, 1, 2), tri(0, 2, 3)];
    connect(&mut faces, 4);
    assert_eq!(back_edge(&faces, 1, 0), Some(0));
    assert_eq!(back_edge(&faces, 0, 1), Some(2));
    assert_eq!(back_edge(&faces, 0, 0), None);
}

#[test]
fn square_of_two_triangles_fuses_into_one_quad() {
    // Unit square split along the diagonal 0-2.
    let mut faces = vec![tri(0, 1, 2), tri(0, 2, 3)];
    let mut stats = connect(&mut faces, 4);
    let merge_ok = vec![[true, true, true], [true, true, true]];
    fuse_coplanar_triangles(&mut faces, &merge_ok, &mut stats);
    assert_eq!(faces.len(), 1);
    assert_eq!(faces[0].vertex_count, 4);
    assert_eq!(faces[0].vertex_indices, [0, 1, 2, 3]);
    assert_eq!(faces[0].neighbors, [-1, -1, -1, -1]);
    assert_eq!(stats.mesh_faces, 1);
    assert_eq!(stats.mesh_quads, 1);
}

#[test]
fn refused_merge_leaves_mesh_unchanged() {
    let mut faces = vec![tri(0, 1, 2), tri(0, 2, 3)];
    let mut stats = connect(&mut faces, 4);
    let before = faces.clone();
    let before_stats = stats;
    let merge_ok = vec![[false, false, false], [false, false, false]];
    fuse_coplanar_triangles(&mut faces, &merge_ok, &mut stats);
    assert_eq!(faces.len(), 2);
    for (a, b) in faces.iter().zip(before.iter()) {
        assert_eq!(a.vertex_indices, b.vertex_indices);
        assert_eq!(a.neighbors, b.neighbors);
        assert_eq!(a.vertex_count, b.vertex_count);
    }
    assert_eq!(stats, before_stats);
}

#[test]
fn strip_of_four_triangles_fuses_greedily_and_renumbers_neighbors() {
    // Vertices along a strip: 0-1-2 on the bottom, 3-4-5 on top.
    //  3---4---5
    //  | \ | \ |
    //  0---1---2
    let mut faces = vec![tri(0, 1, 3), tri(1, 4, 3), tri(1, 2, 4), tri(2, 5, 4)];
    let mut stats = connect(&mut faces, 6);
    let merge_ok = vec![[true; 3]; 4];
    fuse_coplanar_triangles(&mut faces, &merge_ok, &mut stats);
    // Triangle 0 merges with 1 (its only neighbor), triangle 2 with 3.
    assert_eq!(faces.len(), 2);
    assert_eq!(stats.mesh_quads, 2);
    assert_eq!(stats.mesh_faces, 2);
    assert!(faces.iter().all(|f| f.vertex_count == 4));
    assert_eq!(faces[0].vertex_indices, [3, 0, 1, 4]);
    assert_eq!(faces[1].vertex_indices, [4, 1, 2, 5]);
    // The two quads share the edge 1-4 and point at each other.
    assert_eq!(faces[0].neighbors, [-1, -1, 1, -1]);
    assert_eq!(faces[1].neighbors, [0, -1, -1, -1]);
}

#[test]
fn odd_strip_leaves_one_triangle_and_no_triangle_merges_twice() {
    //  3---4---5
    //  | \ | \
    //  0---1---2
    let mut faces = vec![tri(0, 1, 3), tri(1, 4, 3), tri(1, 2, 4)];
    let mut stats = connect(&mut faces, 6);
    let merge_ok = vec![[true; 3]; 3];
    fuse_coplanar_triangles(&mut faces, &merge_ok, &mut stats);
    // Triangle 0 takes 1; triangle 2's only neighbor is taken, so it stays a triangle.
    assert_eq!(faces.len(), 3 - stats.mesh_quads);
    assert_eq!(stats.mesh_quads, 1);
    assert!(faces.iter().all(|f| (3..=4).contains(&f.vertex_count)));
    assert_eq!(faces[0].vertex_count, 4);
    assert_eq!(faces[1].vertex_count, 3);
    assert_eq!(faces[1].vertex_indices[..3], [1, 2, 4]);
    for f in &faces {
        for k in 0..f.vertex_count as usize {
            assert!(f.neighbors[k] < faces.len() as i32);
        }
    }
    // The quad and the triangle still point at each other across edge 1-4.
    assert!(faces[0].neighbors[..4].contains(&1));
    assert!(faces[1].neighbors[..3].contains(&0));
}

#[test]
fn nothing_to_merge_returns_before_compaction() {
    // When no pair merges, fusion stops before compacting: an emptied face stays and the
    // statistics keep their earlier counts.
    let mut faces = vec![tri(0, 1, 2), tri(3, 4, 5)];
    faces[1].vertex_count = 0;
    let mut stats = MeshValidationStats::default();
    stats.mesh_faces = 2;
    stats.mesh_quads = 5;
    let merge_ok = vec![[true; 3]; 2];
    fuse_coplanar_triangles(&mut faces, &merge_ok, &mut stats);
    assert_eq!(faces.len(), 2);
    assert_eq!(faces[1].vertex_count, 0);
    assert_eq!(stats.mesh_faces, 2);
    assert_eq!(stats.mesh_quads, 5);
}

#[test]
fn each_quad_of_a_strip_is_one_merge() {
    let mut faces = vec![tri(0, 1, 3), tri(1, 4, 3), tri(1, 2, 4), tri(2, 5, 4)];
    let mut stats = connect(&mut faces, 6);
    fuse_coplanar_triangles(&mut faces, &vec![[true; 3]; 4], &mut stats);
    let quads = faces.iter().filter(|f| f.vertex_count == 4).count();
    assert_eq!(quads, stats.mesh_quads);
    assert_eq!(quads, 2);
}
