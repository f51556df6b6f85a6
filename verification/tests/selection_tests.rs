use brepper::growth::RegionGrowth;
use brepper::selection::{
    build_vertex_to_faces_map, push_candidates, selected_face_lists, surface_faces, surface_of,
    vertices_of_faces, Candidate, HypothesisFaces, SelectedSurface, SurfaceKind, SurfaceSelection,
};
use brepper::topology::{
    validate_and_populate_topology, MeshFace, MeshValidationStats, UNDEDUCED_CONICAL_HYPOTHESIS,
    UNDEDUCED_CYLINDRICAL_HYPOTHESIS, UNDEDUCED_SPHERICAL_HYPOTHESIS, UNDEDUCED_TOROIDAL_HYPOTHESIS,
};

fn tri(a: usize, b: usize, c: usize, planar: i32) -> MeshFace {
    MeshFace {
        vertex_count: 3,
        vertex_indices: [a, b, c, 0],
        neighbors: [-1, -1, -1, -1],
        planar_hypothesis: planar,
        cylindrical_hypothesis: UNDEDUCED_CYLINDRICAL_HYPOTHESIS,
        spherical_hypothesis: UNDEDUCED_SPHERICAL_HYPOTHESIS,
        conical_hypothesis: UNDEDUCED_CONICAL_HYPOTHESIS,
        toroidal_hypothesis: UNDEDUCED_TOROIDAL_HYPOTHESIS,
    }
}

fn cube() -> Vec<MeshFace> {
    let mut faces = vec![
        tri(0, 2, 1, 0),
        tri(0, 3, 2, 0),
        tri(4, 5, 6, 1),
        tri(4, 6, 7, 1),
        tri(0, 1, 5, 2),
        tri(0, 5, 4, 2),
        tri(3, 7, 6, 3),
        tri(3, 6, 2, 3),
        tri(0, 4, 7, 4),
        tri(0, 7, 3, 4),
        tri(1, 2, 6, 5),
        tri(1, 6, 5, 5),
    ];
    let mut stats = MeshValidationStats::default();
    let normals = vec![true; faces.len()];
    validate_and_populate_topology(&mut faces, 8, &normals, &mut stats);
    faces
}

#[test]
fn planar_candidates_need_more_than_one_face() {
    let mut out: Vec<Candidate> = Vec::new();
    push_candidates(&mut out, SurfaceKind::Planar, &vec![vec![0, 1], vec![2], vec![3, 4, 5]]);
    assert_eq!(out.len(), 2);
    assert_eq!(out[0].hypothesis_index, 0);
    assert_eq!(out[1].hypothesis_index, 2);
    assert_eq!(out[1].faces, vec![3, 4, 5]);
    push_candidates(&mut out, SurfaceKind::Cylindrical, &vec![vec![7]]);
    assert_eq!(out.len(), 3);
    assert_eq!(out[2].kind, SurfaceKind::Cylindrical);
    assert_eq!(out[2].faces, vec![7]);
}

#[test]
fn selection_takes_unassigned_faces_and_falls_back_to_planes() {
    let mesh = cube();
    let mut sel = SurfaceSelection::new(mesh.len());
    let first = Candidate { kind: SurfaceKind::Cylindrical, hypothesis_index: 0, faces: vec![0, 1, 4] };
    let taken = sel.take(&first, &mesh);
    assert_eq!(taken.faces, vec![0, 1, 4]);
    assert_eq!(taken.vertices, vec![0, 1, 2, 3, 5]);
    let second = Candidate { kind: SurfaceKind::Planar, hypothesis_index: 2, faces: vec![4, 5] };
    let taken = sel.take(&second, &mesh);
    assert_eq!(taken.faces, vec![5]);
    assert_eq!(taken.vertices, vec![0, 4, 5]);
    assert!(sel.assigned[0] && sel.assigned[5] && !sel.assigned[6]);
    let selected = sel.finish(&mesh);
    assert_eq!(selected.len(), 2 + 8);
    assert_eq!(selected[0], SelectedSurface::Cylindrical(0));
    assert_eq!(selected[1], SelectedSurface::Planar(2));
    assert_eq!(selected[2], SelectedSurface::Planar(1));
    assert_eq!(selected[9], SelectedSurface::Planar(5));
}

#[test]
fn vertices_of_faces_are_sorted_and_distinct() {
    let mesh = cube();
    assert_eq!(vertices_of_faces(&mesh, &vec![2, 3]), vec![4, 5, 6, 7]);
    assert_eq!(vertices_of_faces(&mesh, &Vec::new()), Vec::<usize>::new());
}

#[test]
fn surface_of_and_surface_faces() {
    assert_eq!(surface_of(SurfaceKind::Toroidal, 3), SelectedSurface::Toroidal(3));
    let hyps = HypothesisFaces {
        planar: vec![vec![0, 1], vec![2, 3]],
        cylindrical: vec![vec![4, 5, 6]],
        spherical: Vec::new(),
        conical: vec![vec![7]],
        toroidal: Vec::new(),
    };
    assert_eq!(surface_faces(SelectedSurface::Planar(1), &hyps), &vec![2, 3]);
    assert_eq!(surface_faces(SelectedSurface::Cylindrical(0), &hyps), &vec![4, 5, 6]);
    let lists = selected_face_lists(&vec![SelectedSurface::Conical(0), SelectedSurface::Planar(0)], &hyps);
    assert_eq!(lists, vec![vec![7], vec![0, 1]]);
}

#[test]
fn vertex_to_faces_map_of_cube() {
    let mesh = cube();
    let vtf = build_vertex_to_faces_map(&mesh, 8);
    assert_eq!(vtf.len(), 8);
    assert_eq!(vtf[0], vec![0, 1, 4, 5, 8, 9]);
    assert_eq!(vtf[6], vec![2, 3, 6, 7, 10, 11]);
}

#[test]
fn region_growth_offers_neighbors_breadth_first() {
    let mesh = cube();
    let available = vec![true; mesh.len()];
    let mut growth = RegionGrowth::new(&vec![0], &mesh, &available);
    // Face 0 (bottom) touches 1 (bottom), 10 (right), 4 (front) across its edges.
    assert_eq!(growth.next_candidate(&mesh), Some(1));
    growth.accept();
    assert_eq!(growth.next_candidate(&mesh), Some(10));
    assert_eq!(growth.next_candidate(&mesh), Some(4));
    // Face 1 touches 9 (left), 7 (back) and 0 (already in the region).
    assert_eq!(growth.next_candidate(&mesh), Some(9));
    assert_eq!(growth.next_candidate(&mesh), Some(7));
    assert_eq!(growth.next_candidate(&mesh), None);
    assert_eq!(growth.members(), &vec![0, 1]);
}

#[test]
fn region_growth_skips_unavailable_faces() {
    let mesh = cube();
    let mut available = vec![true; mesh.len()];
    available[1] = false;
    available[10] = false;
    let mut growth = RegionGrowth::new(&vec![0], &mesh, &available);
    assert_eq!(growth.next_candidate(&mesh), Some(4));
    growth.accept();
    // Face 4 (0,1,5) touches 0 (in the region), 11 (right), 5 (front).
    assert_eq!(growth.next_candidate(&mesh), Some(11));
    assert_eq!(growth.next_candidate(&mesh), Some(5));
    growth.accept();
    assert_eq!(growth.members(), &vec![0, 4, 5]);
}

#[test]
fn region_growth_with_every_face_accepted_takes_the_whole_cube() {
    let mesh = cube();
    let available = vec![true; mesh.len()];
    let mut growth = RegionGrowth::new(&vec![3], &mesh, &available);
    while growth.next_candidate(&mesh).is_some() {
        growth.accept();
    }
    let mut members = growth.members().clone();
    assert_eq!(members[0], 3);
    members.sort();
    assert_eq!(members, (0..12).collect::<Vec<usize>>());
}
