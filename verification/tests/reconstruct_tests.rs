use brepper::adjacency::{
    build_face_to_surface_map, collect_boundary_edges, find_corner_vertices, first_unassigned_face,
    SurfacePair, UndirectedEdge,
};
use brepper::chains::chain_boundary_edges;
use brepper::reconstruct::{build_surfaces_and_adjacency, AdjacencyError};
use brepper::topology::{
    validate_and_populate_topology, MeshFace, MeshValidationStats, UNDEDUCED_CONICAL_HYPOTHESIS,
    UNDEDUCED_CYLINDRICAL_HYPOTHESIS, UNDEDUCED_PLANAR_HYPOTHESIS, UNDEDUCED_SPHERICAL_HYPOTHESIS,
    UNDEDUCED_TOROIDAL_HYPOTHESIS,
};
use brepper::wires::group_edges_into_wires;

fn tri(a: usize, b: usize, c: usize) -> MeshFace {
    MeshFace {
        vertex_count: 3,
        vertex_indices: [a, b, c, 0],
        neighbors: [-1, -1, -1, -1],
        planar_hypothesis: UNDEDUCED_PLANAR_HYPOTHESIS,
        cylindrical_hypothesis: UNDEDUCED_CYLINDRICAL_HYPOTHESIS,
        spherical_hypothesis: UNDEDUCED_SPHERICAL_HYPOTHESIS,
        conical_hypothesis: UNDEDUCED_CONICAL_HYPOTHESIS,
        toroidal_hypothesis: UNDEDUCED_TOROIDAL_HYPOTHESIS,
    }
}

/// The unit cube, two outward triangles per side, with neighbors filled in.
/// Sides: bottom (faces 0, 1), top (2, 3), front (4, 5), back (6, 7), left (8, 9), right (10, 11).
fn cube() -> Vec<MeshFace> {
    let mut faces = vec![
        tri(0, 2, 1),
        tri(0, 3, 2),
        tri(4, 5, 6),
        tri(4, 6, 7),
        tri(0, 1, 5),
        tri(0, 5, 4),
        tri(3, 7, 6),
        tri(3, 6, 2),
        tri(0, 4, 7),
        tri(0, 7, 3),
        tri(1, 2, 6),
        tri(1, 6, 5),
    ];
    let mut stats = MeshValidationStats::default();
    let normals = vec![true; faces.len()];
    validate_and_populate_topology(&mut faces, 8, &normals, &mut stats);
    faces
}

fn cube_sides() -> Vec<Vec<usize>> {
    vec![vec![0, 1], vec![2, 3], vec![4, 5], vec![6, 7], vec![8, 9], vec![10, 11]]
}

#[test]
fn face_to_surface_map_assigns_listed_faces() {
    let map = build_face_to_surface_map(5, &vec![vec![0, 3], vec![1]]);
    assert_eq!(map, vec![0, 1, usize::MAX, 0, usize::MAX]);
    assert_eq!(first_unassigned_face(&map), Some(2));
    assert_eq!(first_unassigned_face(&vec![0, 1]), None);
}

#[test]
fn face_listed_twice_belongs_to_the_later_surface() {
    let map = build_face_to_surface_map(2, &vec![vec![0, 1], vec![1]]);
    assert_eq!(map, vec![0, 1]);
}

#[test]
fn undirected_edge_and_surface_pair_put_smaller_first() {
    assert_eq!(UndirectedEdge::new(5, 2), UndirectedEdge(2, 5));
    assert_eq!(UndirectedEdge::new(2, 5), UndirectedEdge(2, 5));
    assert_eq!(SurfacePair::new(3, 1), SurfacePair(1, 3));
    assert_eq!(SurfacePair::new(1, 1), SurfacePair(1, 1));
}

#[test]
fn cube_boundary_edges_grouped_by_ascending_pair() {
    let faces = cube();
    let map = build_face_to_surface_map(12, &cube_sides());
    let groups = collect_boundary_edges(&faces, &map);
    let pairs: Vec<SurfacePair> = groups.iter().map(|g| g.pair).collect();
    assert_eq!(
        pairs,
        vec![
            SurfacePair(0, 2),
            SurfacePair(0, 3),
            SurfacePair(0, 4),
            SurfacePair(0, 5),
            SurfacePair(1, 2),
            SurfacePair(1, 3),
            SurfacePair(1, 4),
            SurfacePair(1, 5),
            SurfacePair(2, 4),
            SurfacePair(2, 5),
            SurfacePair(3, 4),
            SurfacePair(3, 5),
        ]
    );
    assert_eq!(groups[0].edges, vec![UndirectedEdge(0, 1)]);
    assert_eq!(groups[1].edges, vec![UndirectedEdge(2, 3)]);
    assert_eq!(groups[11].edges, vec![UndirectedEdge(2, 6)]);
}

#[test]
fn cube_corners_are_all_vertices() {
    let faces = cube();
    let map = build_face_to_surface_map(12, &cube_sides());
    let corners = find_corner_vertices(&faces, &map, 8);
    assert_eq!(corners.len(), 8);
    for (i, c) in corners.iter().enumerate() {
        assert_eq!(c.vertex, i);
        assert_eq!(c.surfaces.len(), 3);
    }
    assert_eq!(corners[0].surfaces, vec![0, 2, 4]);
    assert_eq!(corners[6].surfaces, vec![1, 3, 5]);
}

#[test]
fn two_surfaces_have_no_corner() {
    let faces = cube();
    // Bottom alone, everything else one surface: only two surfaces meet anywhere.
    let map = build_face_to_surface_map(12, &vec![vec![0, 1], vec![2, 3, 4, 5, 6, 7, 8, 9, 10, 11]]);
    assert!(find_corner_vertices(&faces, &map, 8).is_empty());
}

#[test]
fn chain_of_a_path_starts_at_its_smaller_endpoint() {
    let edges = vec![UndirectedEdge(2, 3), UndirectedEdge(1, 2), UndirectedEdge(3, 7)];
    assert_eq!(chain_boundary_edges(&edges), vec![vec![1, 2, 3, 7]]);
}

#[test]
fn chain_of_a_closed_loop_does_not_repeat_its_start() {
    let edges = vec![UndirectedEdge(0, 1), UndirectedEdge(1, 2), UndirectedEdge(0, 2)];
    assert_eq!(chain_boundary_edges(&edges), vec![vec![0, 1, 2]]);
}

#[test]
fn chains_of_two_separate_paths() {
    let edges = vec![UndirectedEdge(5, 6), UndirectedEdge(0, 1)];
    assert_eq!(chain_boundary_edges(&edges), vec![vec![0, 1], vec![5, 6]]);
    assert!(chain_boundary_edges(&Vec::new()).is_empty());
}

#[test]
fn bridge_between_two_loops_is_left_out_of_every_chain() {
    let edges = vec![
        UndirectedEdge(0, 1),
        UndirectedEdge(1, 2),
        UndirectedEdge(0, 2),
        UndirectedEdge(5, 6),
        UndirectedEdge(6, 7),
        UndirectedEdge(5, 7),
        UndirectedEdge(0, 5),
    ];
    let chains = chain_boundary_edges(&edges);
    assert_eq!(chains, vec![vec![0, 1, 2], vec![5, 6, 7]]);
    // Both ends of the bridge still lie on chains.
    assert!(chains.iter().any(|c| c.contains(&0)));
    assert!(chains.iter().any(|c| c.contains(&5)));
}

#[test]
fn chain_links_are_all_different_edges() {
    let edges = vec![
        UndirectedEdge(0, 1),
        UndirectedEdge(1, 2),
        UndirectedEdge(2, 3),
        UndirectedEdge(1, 4),
        UndirectedEdge(4, 5),
    ];
    let chains = chain_boundary_edges(&edges);
    let mut links = Vec::new();
    for c in &chains {
        for w in c.windows(2) {
            links.push(UndirectedEdge::new(w[0], w[1]));
        }
    }
    let n = links.len();
    links.sort_by_key(|e| (e.0, e.1));
    links.dedup();
    assert_eq!(links.len(), n);
    for v in 0..6 {
        assert!(chains.iter().any(|c| c.contains(&v)));
    }
}

#[test]
fn cube_adjacency_has_twelve_edges_and_eight_vertices() {
    let faces = cube();
    let adj = build_surfaces_and_adjacency(&faces, &cube_sides(), 8).expect("every face belongs to a side");
    assert_eq!(adj.edges.len(), 12);
    assert_eq!(adj.vertices.len(), 8);
    assert_eq!(adj.face_descriptors.len(), 6);

    // Edge 0 separates bottom and front along mesh edge 0-1.
    assert_eq!(adj.edges[0].face_indices, [0, 2]);
    assert_eq!(adj.edges[0].vertex_indices, [0, 1]);
    assert_eq!(adj.edges[0].mesh_boundary_vertices, vec![0, 1]);
    assert!(!adj.edges[0].tangent);
    assert_eq!(adj.edges[11].face_indices, [3, 5]);
    assert_eq!(adj.edges[11].mesh_boundary_vertices, vec![2, 6]);

    // Vertex 0: bottom, front and left meet; edges 0 (0-1), 2 (0-3), 8 (0-4) end there.
    assert_eq!(adj.vertices[0].mesh_vertex, 0);
    assert_eq!(adj.vertices[0].adjacent_faces, vec![0, 2, 4]);
    assert_eq!(adj.vertices[0].adjacent_edges, vec![0, 2, 8]);
    for v in &adj.vertices {
        assert_eq!(v.adjacent_faces.len(), 3);
        assert_eq!(v.adjacent_edges.len(), 3);
    }

    // The bottom walks 0-1, 0-3, 2-3, 1-2 around its boundary.
    let bottom = &adj.face_descriptors[0];
    assert_eq!(bottom.selected_surface_idx, 0);
    assert_eq!(bottom.edge_indices, vec![0, 2, 1, 3]);
    assert_eq!(bottom.adjacent_faces, vec![2, 4, 3, 5]);
    assert_eq!(bottom.vertex_indices, vec![0, 3, 2, 1]);
    for (si, fd) in adj.face_descriptors.iter().enumerate() {
        assert_eq!(fd.edge_indices.len(), 4);
        for (i, &ei) in fd.edge_indices.iter().enumerate() {
            let e = &adj.edges[ei];
            assert!(e.face_indices.contains(&si));
            let other = if e.face_indices[0] == si { e.face_indices[1] } else { e.face_indices[0] };
            assert_eq!(fd.adjacent_faces[i], other);
        }
    }
}

#[test]
fn unassigned_face_is_refused() {
    let faces = cube();
    let mut sides = cube_sides();
    sides[5] = vec![10];
    let err = build_surfaces_and_adjacency(&faces, &sides, 8).unwrap_err();
    assert_eq!(err, AdjacencyError::UnassignedFace { face: 11 });
}

#[test]
fn cube_side_is_one_wire() {
    let faces = cube();
    let adj = build_surfaces_and_adjacency(&faces, &cube_sides(), 8).unwrap();
    let wires = group_edges_into_wires(&adj.face_descriptors[0], &adj.edges);
    assert_eq!(wires, vec![vec![0, 2, 1, 3]]);
    for fd in &adj.face_descriptors {
        let w = group_edges_into_wires(fd, &adj.edges);
        assert_eq!(w.len(), 1);
        assert_eq!(w[0].len(), 4);
    }
}

#[test]
fn two_loops_make_two_wires() {
    // A face with an outer loop of two chains and a separate closed-loop edge (a hole).
    let faces = cube();
    let mut adj = build_surfaces_and_adjacency(&faces, &cube_sides(), 8).unwrap();
    // Turn edge 1 into a closed loop without vertices.
    adj.edges[1].vertex_indices = [usize::MAX, usize::MAX];
    let wires = group_edges_into_wires(&adj.face_descriptors[0], &adj.edges);
    // Edge 0 (0-1), edge 2 (0-3) and edge 3 (1-2) share vertices; edge 1 stands alone.
    assert_eq!(wires, vec![vec![0, 2, 3], vec![1]]);
}

#[test]
fn wires_merge_groups_joined_by_a_later_edge() {
    let faces = cube();
    let mut adj = build_surfaces_and_adjacency(&faces, &cube_sides(), 8).unwrap();
    // Order the bottom's edges so that the first two share no vertex.
    adj.face_descriptors[0].edge_indices = vec![0, 1, 2, 3];
    let wires = group_edges_into_wires(&adj.face_descriptors[0], &adj.edges);
    // 0 (0-1) and 1 (2-3) start two groups; 2 (0-3) joins them into the first; 3 (1-2) follows.
    assert_eq!(wires, vec![vec![0, 2, 1, 3]]);
}
