//! Reconstructed B-Rep topology (stage 3.1): one face per selected surface, one edge per
//! boundary chain between two surfaces, one vertex per mesh vertex where three or more
//! surfaces meet, and each face's edges ordered around its boundary.

use vstd::prelude::*;
use crate::topology::MeshFace;
use crate::adjacency::{
    UndirectedEdge, SurfacePair, PairEdges, CornerVertex, groups_view, strictly_increasing,
    lemma_ascending_unique, owner_of, lists_view, surface_at_vertex, is_corner_vertex,
    neighbors_well_formed, corners_in_range, mesh_pair_groups, build_face_to_surface_map, pair_of_owners,
    edges_of_pair, mesh_boundary_records,
    first_unassigned_face, collect_boundary_edges, find_corner_vertices,
};
use crate::chains::{
    spec_chain_boundary_edges, chain_boundary_edges, lemma_chains_have_two_vertices, is_edge_path,
    lemma_chains_are_edge_paths,
};

verus! {

/// Vertex where three or more reconstructed faces meet.
#[derive(Debug)]
pub struct BRepVertex {
    /// Indices of the adjacent faces (selected surfaces), ascending.
    pub adjacent_faces: Vec<usize>,
    /// Indices of the edges ending at this vertex, ascending.
    pub adjacent_edges: Vec<usize>,
    /// The mesh vertex this vertex sits on.
    pub mesh_vertex: usize,
}

/// An edge (boundary segment) between two adjacent reconstructed faces.
#[derive(Debug)]
pub struct ReconEdge {
    /// Indices of the two adjacent faces, smaller first.
    pub face_indices: [usize; 2],
    /// Indices of the vertices at the two ends; `usize::MAX` where an end is no vertex.
    pub vertex_indices: [usize; 2],
    /// Whether the adjacent surfaces are tangent along this edge.
    pub tangent: bool,
    /// Mesh vertex indices along this boundary, in order.
    pub mesh_boundary_vertices: Vec<usize>,
}

/// A reconstructed face: one selected surface with its edges ordered around its boundary.
#[derive(Debug)]
pub struct FaceDescriptor {
    /// Index of the selected surface.
    pub selected_surface_idx: usize,
    /// The face across each edge: `adjacent_faces[i]` is across `edge_indices[i]`.
    pub adjacent_faces: Vec<usize>,
    /// Edge indices in boundary order.
    pub edge_indices: Vec<usize>,
    /// Vertex indices met while walking the boundary.
    pub vertex_indices: Vec<usize>,
}

/// The mesh vertices of a list of corners.
pub open spec fn corner_vertices_of(corners: Seq<CornerVertex>) -> Seq<usize> {
    Seq::new(corners.len(), |a: int| corners[a].vertex)
}

/// The index of mesh vertex `v` in the corner list, or `usize::MAX` when it is not a corner.
pub open spec fn vertex_slot(corner_verts: Seq<usize>, v: usize) -> usize {
    if corner_verts.contains(v) {
        (choose|a: int| 0 <= a < corner_verts.len() && corner_verts[a] == v) as usize
    } else {
        usize::MAX
    }
}

/// The chains of one surface pair, each tagged with the pair.
pub open spec fn group_chains(p: SurfacePair, edges: Seq<UndirectedEdge>) -> Seq<(SurfacePair, Seq<usize>)> {
    let cs = spec_chain_boundary_edges(edges);
    Seq::new(cs.len(), |c: int| (p, cs[c]))
}

/// The chains of the first `n` groups, group by group.
pub open spec fn edge_chains(groups: Seq<(SurfacePair, Seq<UndirectedEdge>)>, n: int) -> Seq<(SurfacePair, Seq<usize>)>
    decreases n,
{
    if n <= 0 {
        Seq::empty()
    } else {
        edge_chains(groups, n - 1) + group_chains(groups[n - 1].0, groups[n - 1].1)
    }
}

/// All chains of the groups.
pub open spec fn all_edge_chains(groups: Seq<(SurfacePair, Seq<UndirectedEdge>)>) -> Seq<(SurfacePair, Seq<usize>)> {
    edge_chains(groups, groups.len() as int)
}

/// `r` is the edge of boundary chain `chain` between the surfaces of `p`.
pub open spec fn recon_edge_is(r: ReconEdge, p: SurfacePair, chain: Seq<usize>, corner_verts: Seq<usize>) -> bool {
    &&& r.face_indices@ == seq![p.0, p.1]
    &&& r.vertex_indices@ == seq![vertex_slot(corner_verts, chain[0]), vertex_slot(corner_verts, chain.last())]
    &&& !r.tangent
    &&& r.mesh_boundary_vertices@ == chain
}

/// The index of mesh vertex `v` among the ascending corners, or `usize::MAX`.
fn corner_slot(corners: &Vec<CornerVertex>, v: usize) -> (r: usize)
    requires
        strictly_increasing(corner_vertices_of(corners@)),
    ensures
        r == vertex_slot(corner_vertices_of(corners@), v),
{
    let ghost cv = corner_vertices_of(corners@);
    let mut a: usize = 0;
    while a < corners.len()
        invariant
            a <= corners.len(),
            cv == corner_vertices_of(corners@),
            strictly_increasing(cv),
            forall|b: int| 0 <= b < a ==> cv[b] != v,
        decreases corners.len() - a,
    {
        if corners[a].vertex == v {
            proof {
                assert(cv.len() == corners.len());
                assert(cv[a as int] == v);
                assert(cv.contains(v));
                let c = choose|c: int| 0 <= c < cv.len() && cv[c] == v;
                if c < a {
                    assert(cv[c] != v);
                } else if c > a {
                    assert(cv[a as int] < cv[c]);
                }
                assert(c == a);
            }
            return a;
        }
        a += 1;
    }
    proof {
        if cv.contains(v) {
            let c = choose|c: int| 0 <= c < cv.len() && cv[c] == v;
            assert(cv[c] != v);
        }
    }
    usize::MAX
}

fn copy_vertices(v: &Vec<usize>) -> (r: Vec<usize>)
    ensures
        r@ == v@,
{
    let mut r: Vec<usize> = Vec::new();
    let mut i: usize = 0;
    while i < v.len()
        invariant
            i <= v.len(),
            r@ == v@.take(i as int),
        decreases v.len() - i,
    {
        r.push(v[i]);
        i += 1;
        proof {
            assert(v@.take(i as int) == v@.take(i - 1 as int).push(v@[i - 1]));
        }
    }
    proof {
        assert(v@.take(v.len() as int) == v@);
    }
    r
}

/// One edge per boundary chain: the groups in order, each group's chains in order.
pub fn build_recon_edges(groups: &Vec<PairEdges>, corners: &Vec<CornerVertex>) -> (r: Vec<ReconEdge>)
    requires
        strictly_increasing(corner_vertices_of(corners@)),
    ensures
        r.len() == all_edge_chains(groups_view(groups@)).len(),
        forall|i: int|
            0 <= i < r.len() ==> recon_edge_is(
                #[trigger] r@[i],
                all_edge_chains(groups_view(groups@))[i].0,
                all_edge_chains(groups_view(groups@))[i].1,
                corner_vertices_of(corners@),
            ),
{
    let ghost gv = groups_view(groups@);
    let ghost cv = corner_vertices_of(corners@);
    let mut out: Vec<ReconEdge> = Vec::new();
    let mut g: usize = 0;
    while g < groups.len()
        invariant
            g <= groups.len(),
            gv == groups_view(groups@),
            cv == corner_vertices_of(corners@),
            strictly_increasing(cv),
            out.len() == edge_chains(gv, g as int).len(),
            forall|i: int| 0 <= i < out.len() ==> recon_edge_is(#[trigger] out@[i], edge_chains(gv, g as int)[i].0, edge_chains(gv, g as int)[i].1, cv),
        decreases groups.len() - g,
    {
        let pair = groups[g].pair;
        let chains = chain_boundary_edges(&groups[g].edges);
        let ghost gc = group_chains(pair, groups@[g as int].edges@);
        let ghost base = edge_chains(gv, g as int);
        proof {
            assert(gv[g as int] == (pair, groups@[g as int].edges@));
            assert(edge_chains(gv, g + 1 as int) == base + gc);
            lemma_chains_have_two_vertices(groups@[g as int].edges@);
        }
        let mut c: usize = 0;
        while c < chains.len()
            invariant
                c <= chains.len(),
                g < groups.len(),
                cv == corner_vertices_of(corners@),
                strictly_increasing(cv),
                gc == group_chains(pair, groups@[g as int].edges@),
                chains@.len() == gc.len(),
                forall|k: int| 0 <= k < chains.len() ==> (#[trigger] chains@[k])@ == gc[k].1 && gc[k].0 == pair && gc[k].1.len() >= 2,
                out.len() == base.len() + c,
                forall|i: int| 0 <= i < out.len() ==> recon_edge_is(#[trigger] out@[i], (base + gc)[i].0, (base + gc)[i].1, cv),
            decreases chains.len() - c,
        {
            let chain = copy_vertices(&chains[c]);
            let first = chain[0];
            let last = chain[chain.len() - 1];
            let start_slot = corner_slot(corners, first);
            let end_slot = corner_slot(corners, last);
            let ghost old_out = out@;
            out.push(ReconEdge {
                face_indices: [pair.0, pair.1],
                vertex_indices: [start_slot, end_slot],
                tangent: false,
                mesh_boundary_vertices: chain,
            });
            proof {
                assert forall|i: int| 0 <= i < out.len() implies recon_edge_is(#[trigger] out@[i], (base + gc)[i].0, (base + gc)[i].1, cv) by {
                    if i < old_out.len() {
                        assert(out@[i] == old_out[i]);
                    } else {
                        assert((base + gc)[i] == gc[c as int]);
                        assert(out@[i].face_indices@ =~= seq![pair.0, pair.1]);
                        assert(out@[i].vertex_indices@ =~= seq![start_slot, end_slot]);
                    }
                }
            }
            c += 1;
        }
        g += 1;
    }
    out
}

/// Indices of the first `n` edges with an end at vertex `b`, ascending.
pub open spec fn edges_at_vertex(edges: Seq<ReconEdge>, b: usize, n: int) -> Seq<usize>
    decreases n,
{
    if n <= 0 {
        Seq::empty()
    } else {
        let e = edges[n - 1];
        if e.vertex_indices@[0] == b || e.vertex_indices@[1] == b {
            edges_at_vertex(edges, b, n - 1).push((n - 1) as usize)
        } else {
            edges_at_vertex(edges, b, n - 1)
        }
    }
}

/// `r` is vertex `b`, made from corner `c`, with the edges ending there.
pub open spec fn brep_vertex_is(r: BRepVertex, c: CornerVertex, edges: Seq<ReconEdge>, b: usize) -> bool {
    &&& r.adjacent_faces@ == c.surfaces@
    &&& r.mesh_vertex == c.vertex
    &&& r.adjacent_edges@ == edges_at_vertex(edges, b, edges.len() as int)
}

/// The indices of the edges with an end at vertex `b`, ascending.
fn edges_ending_at(edges: &Vec<ReconEdge>, b: usize) -> (r: Vec<usize>)
    ensures
        r@ == edges_at_vertex(edges@, b, edges.len() as int),
{
    let mut out: Vec<usize> = Vec::new();
    let mut i: usize = 0;
    while i < edges.len()
        invariant
            i <= edges.len(),
            out@ == edges_at_vertex(edges@, b, i as int),
        decreases edges.len() - i,
    {
        if edges[i].vertex_indices[0] == b || edges[i].vertex_indices[1] == b {
            out.push(i);
        }
        i += 1;
    }
    out
}

/// One vertex per corner, in corner order, with the edges ending there.
pub fn build_brep_vertices(corners: &Vec<CornerVertex>, edges: &Vec<ReconEdge>) -> (r: Vec<BRepVertex>)
    ensures
        r.len() == corners.len(),
        forall|b: int| 0 <= b < r.len() ==> brep_vertex_is(#[trigger] r@[b], corners@[b], edges@, b as usize),
{
    let mut out: Vec<BRepVertex> = Vec::new();
    let mut b: usize = 0;
    while b < corners.len()
        invariant
            b <= corners.len(),
            out.len() == b,
            forall|k: int| 0 <= k < b ==> brep_vertex_is(#[trigger] out@[k], corners@[k], edges@, k as usize),
        decreases corners.len() - b,
    {
        let faces = copy_vertices(&corners[b].surfaces);
        let adjacent = edges_ending_at(edges, b);
        out.push(BRepVertex { adjacent_faces: faces, adjacent_edges: adjacent, mesh_vertex: corners[b].vertex });
        b += 1;
    }
    out
}

/// The other face of edge `e` as seen from face `si`.
pub open spec fn other_face(e: ReconEdge, si: usize) -> usize {
    if e.face_indices@[0] == si {
        e.face_indices@[1]
    } else {
        e.face_indices@[0]
    }
}

/// The (edge, other face) entries of face `si` among the first `n` edges: edge by edge, an
/// edge's entry as its first face before its entry as its second face.
pub open spec fn face_edge_list(edges: Seq<ReconEdge>, si: usize, n: int) -> Seq<(usize, usize)>
    decreases n,
{
    if n <= 0 {
        Seq::empty()
    } else {
        let e = edges[n - 1];
        let s0 = face_edge_list(edges, si, n - 1);
        let s1 = if e.face_indices@[0] == si {
            s0.push(((n - 1) as usize, e.face_indices@[1]))
        } else {
            s0
        };
        if e.face_indices@[1] == si {
            s1.push(((n - 1) as usize, e.face_indices@[0]))
        } else {
            s1
        }
    }
}

/// The edges of the first `n` entries of `fe` with an end at vertex `v`, once per such end.
pub open spec fn vertex_edge_list(edges: Seq<ReconEdge>, fe: Seq<(usize, usize)>, v: usize, n: int) -> Seq<usize>
    decreases n,
{
    if n <= 0 {
        Seq::empty()
    } else {
        let ei = fe[n - 1].0;
        let s0 = vertex_edge_list(edges, fe, v, n - 1);
        let s1 = if edges[ei as int].vertex_indices@[0] == v {
            s0.push(ei)
        } else {
            s0
        };
        if edges[ei as int].vertex_indices@[1] == v {
            s1.push(ei)
        } else {
            s1
        }
    }
}

/// The first element of `list`, from position `k` on, not in `visited`.
pub open spec fn first_not_in(list: Seq<usize>, visited: Seq<usize>, k: int) -> Option<usize>
    decreases list.len() - k,
{
    if k < 0 || k >= list.len() {
        None
    } else if !visited.contains(list[k]) {
        Some(list[k])
    } else {
        first_not_in(list, visited, k + 1)
    }
}

/// The first unvisited edge sharing an end vertex with edge `current` (its first end tried
/// first), with that vertex.
pub open spec fn next_edge(edges: Seq<ReconEdge>, fe: Seq<(usize, usize)>, current: usize, visited: Seq<usize>) -> Option<(usize, usize)> {
    let v0 = edges[current as int].vertex_indices@[0];
    let v1 = edges[current as int].vertex_indices@[1];
    let n0 = if v0 != usize::MAX {
        first_not_in(vertex_edge_list(edges, fe, v0, fe.len() as int), visited, 0)
    } else {
        None
    };
    let n1 = if v1 != usize::MAX {
        first_not_in(vertex_edge_list(edges, fe, v1, fe.len() as int), visited, 0)
    } else {
        None
    };
    match n0 {
        Some(n) => Some((v0, n)),
        None => match n1 {
            Some(n) => Some((v1, n)),
            None => None,
        },
    }
}

/// The state of the walk around a face's boundary.
pub struct FaceWalk {
    pub edges: Seq<usize>,
    pub adj: Seq<usize>,
    pub verts: Seq<usize>,
    pub current: usize,
    pub stopped: bool,
}

/// One step of the walk around face `si`.
pub open spec fn face_walk_step(edges: Seq<ReconEdge>, si: usize, fe: Seq<(usize, usize)>, w: FaceWalk) -> FaceWalk {
    if w.stopped {
        w
    } else {
        match next_edge(edges, fe, w.current, w.edges) {
            None => FaceWalk { stopped: true, ..w },
            Some((v, n)) => FaceWalk {
                edges: w.edges.push(n),
                adj: w.adj.push(other_face(edges[n as int], si)),
                verts: w.verts.push(v),
                current: n,
                stopped: false,
            },
        }
    }
}

/// The walk around face `si` after `m` steps, starting on its first entry.
pub open spec fn face_walk(edges: Seq<ReconEdge>, si: usize, fe: Seq<(usize, usize)>, m: nat) -> FaceWalk
    decreases m,
{
    if m == 0 {
        FaceWalk { edges: seq![fe[0].0], adj: seq![fe[0].1], verts: Seq::empty(), current: fe[0].0, stopped: false }
    } else {
        face_walk_step(edges, si, fe, face_walk(edges, si, fe, (m - 1) as nat))
    }
}

/// The entries among the first `n` of `fe` whose edge is not in `visited`, in order.
pub open spec fn unvisited_entries(fe: Seq<(usize, usize)>, visited: Seq<usize>, n: int) -> Seq<(usize, usize)>
    decreases n,
{
    if n <= 0 {
        Seq::empty()
    } else if !visited.contains(fe[n - 1].0) {
        unvisited_entries(fe, visited, n - 1).push(fe[n - 1])
    } else {
        unvisited_entries(fe, visited, n - 1)
    }
}

/// Ends of edge `last` that are also ends of edge `first`, once per matching pair of ends.
pub open spec fn closing_vertices(edges: Seq<ReconEdge>, last: usize, first: usize) -> Seq<usize> {
    let l = edges[last as int].vertex_indices@;
    let f = edges[first as int].vertex_indices@;
    let m0 = if l[0] != usize::MAX {
        (if l[0] == f[0] { seq![l[0]] } else { Seq::empty() }) + (if l[0] == f[1] { seq![l[0]] } else { Seq::empty() })
    } else {
        Seq::empty()
    };
    let m1 = if l[1] != usize::MAX {
        (if l[1] == f[0] { seq![l[1]] } else { Seq::empty() }) + (if l[1] == f[1] { seq![l[1]] } else { Seq::empty() })
    } else {
        Seq::empty()
    };
    m0 + m1
}

/// The boundary of a face with its adjacent faces, edges and vertices in walk order.
pub struct FaceOrder {
    pub adjacent_faces: Seq<usize>,
    pub edge_indices: Seq<usize>,
    pub vertex_indices: Seq<usize>,
}

/// The ordered boundary of face `si`. With one edge, its distinct real ends are the
/// vertices. With more, the walk from the first edge through shared vertices comes first,
/// then the edges it missed in entry order, then the ends the last edge shares with the
/// first.
pub open spec fn face_order(edges: Seq<ReconEdge>, si: usize) -> FaceOrder {
    let fe = face_edge_list(edges, si, edges.len() as int);
    if fe.len() == 0 {
        FaceOrder { adjacent_faces: Seq::empty(), edge_indices: Seq::empty(), vertex_indices: Seq::empty() }
    } else if fe.len() == 1 {
        let v = edges[fe[0].0 as int].vertex_indices@;
        let vs0 = if v[0] != usize::MAX { seq![v[0]] } else { Seq::empty() };
        let vs = if v[1] != usize::MAX && v[1] != v[0] { vs0.push(v[1]) } else { vs0 };
        FaceOrder { adjacent_faces: seq![fe[0].1], edge_indices: seq![fe[0].0], vertex_indices: vs }
    } else {
        let w = face_walk(edges, si, fe, fe.len());
        let u = unvisited_entries(fe, w.edges, fe.len() as int);
        let oe = w.edges + Seq::new(u.len(), |k: int| u[k].0);
        let oa = w.adj + Seq::new(u.len(), |k: int| u[k].1);
        let ov = if oe.len() >= 2 {
            w.verts + closing_vertices(edges, oe.last(), oe[0])
        } else {
            w.verts
        };
        FaceOrder { adjacent_faces: oa, edge_indices: oe, vertex_indices: ov }
    }
}

/// `fd` is the descriptor of face `si`.
pub open spec fn face_descriptor_is(fd: FaceDescriptor, edges: Seq<ReconEdge>, si: usize) -> bool {
    let o = face_order(edges, si);
    &&& fd.selected_surface_idx == si
    &&& fd.adjacent_faces@ == o.adjacent_faces
    &&& fd.edge_indices@ == o.edge_indices
    &&& fd.vertex_indices@ == o.vertex_indices
}

/// The entries of face `si`, edge by edge.
fn face_edge_entries(edges: &Vec<ReconEdge>, si: usize) -> (r: Vec<(usize, usize)>)
    ensures
        r@ == face_edge_list(edges@, si, edges.len() as int),
        forall|k: int| 0 <= k < r.len() ==> (#[trigger] r@[k]).0 < edges.len(),
{
    let mut out: Vec<(usize, usize)> = Vec::new();
    let mut i: usize = 0;
    while i < edges.len()
        invariant
            i <= edges.len(),
            out@ == face_edge_list(edges@, si, i as int),
            forall|k: int| 0 <= k < out.len() ==> (#[trigger] out@[k]).0 < i,
        decreases edges.len() - i,
    {
        let f0 = edges[i].face_indices[0];
        let f1 = edges[i].face_indices[1];
        if f0 == si {
            out.push((i, f1));
        }
        if f1 == si {
            out.push((i, f0));
        }
        i += 1;
    }
    out
}

/// The edges of the entries `fe` with an end at vertex `v`, once per such end.
fn vertex_edges(edges: &Vec<ReconEdge>, fe: &Vec<(usize, usize)>, v: usize) -> (r: Vec<usize>)
    requires
        forall|k: int| 0 <= k < fe.len() ==> (#[trigger] fe@[k]).0 < edges.len(),
    ensures
        r@ == vertex_edge_list(edges@, fe@, v, fe.len() as int),
        forall|j: int| 0 <= j < r.len() ==> #[trigger] r@[j] < edges.len(),
{
    let mut out: Vec<usize> = Vec::new();
    let mut k: usize = 0;
    while k < fe.len()
        invariant
            k <= fe.len(),
            forall|q: int| 0 <= q < fe.len() ==> (#[trigger] fe@[q]).0 < edges.len(),
            out@ == vertex_edge_list(edges@, fe@, v, k as int),
            forall|j: int| 0 <= j < out.len() ==> #[trigger] out@[j] < edges.len(),
        decreases fe.len() - k,
    {
        let ei = fe[k].0;
        if edges[ei].vertex_indices[0] == v {
            out.push(ei);
        }
        if edges[ei].vertex_indices[1] == v {
            out.push(ei);
        }
        k += 1;
    }
    out
}

fn contains_index(list: &Vec<usize>, x: usize) -> (r: bool)
    ensures
        r == list@.contains(x),
{
    let mut i: usize = 0;
    while i < list.len()
        invariant
            i <= list.len(),
            forall|j: int| 0 <= j < i ==> list@[j] != x,
        decreases list.len() - i,
    {
        if list[i] == x {
            return true;
        }
        i += 1;
    }
    false
}

/// The first element of `list` not in `visited`.
fn first_absent(list: &Vec<usize>, visited: &Vec<usize>) -> (r: Option<usize>)
    ensures
        r == first_not_in(list@, visited@, 0),
        r matches Some(x) ==> list@.contains(x),
{
    let mut k: usize = 0;
    while k < list.len()
        invariant
            k <= list.len(),
            first_not_in(list@, visited@, 0) == first_not_in(list@, visited@, k as int),
        decreases list.len() - k,
    {
        if !contains_index(visited, list[k]) {
            proof {
                assert(list@[k as int] == list@[k as int]);
            }
            return Some(list[k]);
        }
        k += 1;
    }
    None
}

/// The next edge of the walk around a face, with the vertex it is reached through.
fn next_face_edge(edges: &Vec<ReconEdge>, fe: &Vec<(usize, usize)>, current: usize, visited: &Vec<usize>) -> (r: Option<(usize, usize)>)
    requires
        current < edges.len(),
        forall|k: int| 0 <= k < fe.len() ==> (#[trigger] fe@[k]).0 < edges.len(),
    ensures
        r == next_edge(edges@, fe@, current, visited@),
        r matches Some((v, n)) ==> n < edges.len(),
{
    let v0 = edges[current].vertex_indices[0];
    let v1 = edges[current].vertex_indices[1];
    if v0 != usize::MAX {
        let list = vertex_edges(edges, fe, v0);
        let found = first_absent(&list, visited);
        match found {
            Some(n) => {
                return Some((v0, n));
            },
            None => {},
        }
    }
    if v1 != usize::MAX {
        let list = vertex_edges(edges, fe, v1);
        let found = first_absent(&list, visited);
        match found {
            Some(n) => {
                return Some((v1, n));
            },
            None => {},
        }
    }
    None
}

/// Order the edges of face `si` around its boundary.
pub fn order_face_edges(edges: &Vec<ReconEdge>, si: usize) -> (r: FaceDescriptor)
    ensures
        face_descriptor_is(r, edges@, si),
{
    let fe = face_edge_entries(edges, si);
    if fe.len() == 0 {
        let r = FaceDescriptor { selected_surface_idx: si, adjacent_faces: Vec::new(), edge_indices: Vec::new(), vertex_indices: Vec::new() };
        proof {
            assert(r.adjacent_faces@ =~= Seq::<usize>::empty());
        }
        return r;
    }
    if fe.len() == 1 {
        let (ei, adj) = fe[0];
        let v0 = edges[ei].vertex_indices[0];
        let v1 = edges[ei].vertex_indices[1];
        let mut verts: Vec<usize> = Vec::new();
        if v0 != usize::MAX {
            verts.push(v0);
        }
        if v1 != usize::MAX && v1 != v0 {
            verts.push(v1);
        }
        let mut adjacent: Vec<usize> = Vec::new();
        adjacent.push(adj);
        let mut eis: Vec<usize> = Vec::new();
        eis.push(ei);
        let r = FaceDescriptor { selected_surface_idx: si, adjacent_faces: adjacent, edge_indices: eis, vertex_indices: verts };
        proof {
            let v = edges@[ei as int].vertex_indices@;
            let vs0 = if v[0] != usize::MAX { seq![v[0]] } else { Seq::empty() };
            let vs = if v[1] != usize::MAX && v[1] != v[0] { vs0.push(v[1]) } else { vs0 };
            assert(verts@ =~= vs);
            assert(r.adjacent_faces@ =~= seq![fe@[0].1]);
            assert(r.edge_indices@ =~= seq![fe@[0].0]);
        }
        return r;
    }
    let ghost es = edges@;
    let ghost fs = fe@;
    let (first_ei, first_adj) = fe[0];
    let mut oe: Vec<usize> = Vec::new();
    oe.push(first_ei);
    let mut oa: Vec<usize> = Vec::new();
    oa.push(first_adj);
    let mut ov: Vec<usize> = Vec::new();
    let mut current = first_ei;
    let mut stopped = false;
    let mut i: usize = 0;
    proof {
        assert(oe@ =~= seq![fs[0].0]);
        assert(oa@ =~= seq![fs[0].1]);
        assert(ov@ =~= Seq::<usize>::empty());
    }
    while i < fe.len()
        invariant
            es == edges@,
            fs == fe@,
            fs.len() >= 2,
            i <= fe.len(),
            forall|k: int| 0 <= k < fe.len() ==> (#[trigger] fe@[k]).0 < edges.len(),
            current < edges.len(),
            forall|k: int| 0 <= k < oe.len() ==> #[trigger] oe@[k] < edges.len(),
            face_walk(es, si, fs, i as nat) == (FaceWalk { edges: oe@, adj: oa@, verts: ov@, current, stopped }),
        decreases fe.len() - i,
    {
        if !stopped {
            let nxt = next_face_edge(edges, &fe, current, &oe);
            match nxt {
                None => {
                    stopped = true;
                },
                Some((v, n)) => {
                    let f0 = edges[n].face_indices[0];
                    let f1 = edges[n].face_indices[1];
                    let other = if f0 == si {
                        f1
                    } else {
                        f0
                    };
                    oe.push(n);
                    oa.push(other);
                    ov.push(v);
                    current = n;
                },
            }
        }
        i += 1;
    }
    let ghost w = face_walk(es, si, fs, fs.len() as nat);
    let visited = copy_vertices(&oe);
    let mut k: usize = 0;
    while k < fe.len()
        invariant
            es == edges@,
            fs == fe@,
            k <= fe.len(),
            visited@ == w.edges,
            forall|q: int| 0 <= q < fe.len() ==> (#[trigger] fe@[q]).0 < edges.len(),
            forall|q: int| 0 <= q < oe.len() ==> #[trigger] oe@[q] < edges.len(),
            oe@ == w.edges + Seq::new(unvisited_entries(fs, w.edges, k as int).len(), |q: int| unvisited_entries(fs, w.edges, k as int)[q].0),
            oa@ == w.adj + Seq::new(unvisited_entries(fs, w.edges, k as int).len(), |q: int| unvisited_entries(fs, w.edges, k as int)[q].1),
            ov@ == w.verts,
        decreases fe.len() - k,
    {
        let (ei, adj) = fe[k];
        let ghost u = unvisited_entries(fs, w.edges, k as int);
        if !contains_index(&visited, ei) {
            oe.push(ei);
            oa.push(adj);
            proof {
                let u1 = unvisited_entries(fs, w.edges, k + 1 as int);
                assert(u1 == u.push(fs[k as int]));
                assert(oe@ =~= w.edges + Seq::new(u1.len(), |q: int| u1[q].0));
                assert(oa@ =~= w.adj + Seq::new(u1.len(), |q: int| u1[q].1));
            }
        }
        k += 1;
    }
    if oe.len() >= 2 {
        let last = oe[oe.len() - 1];
        let first = oe[0];
        let l0 = edges[last].vertex_indices[0];
        let l1 = edges[last].vertex_indices[1];
        let g0 = edges[first].vertex_indices[0];
        let g1 = edges[first].vertex_indices[1];
        let ghost before = ov@;
        if l0 != usize::MAX {
            if l0 == g0 {
                ov.push(l0);
            }
            if l0 == g1 {
                ov.push(l0);
            }
        }
        if l1 != usize::MAX {
            if l1 == g0 {
                ov.push(l1);
            }
            if l1 == g1 {
                ov.push(l1);
            }
        }
        proof {
            assert(ov@ =~= before + closing_vertices(es, oe@.last(), oe@[0]));
        }
    }
    FaceDescriptor { selected_surface_idx: si, adjacent_faces: oa, edge_indices: oe, vertex_indices: ov }
}

/// The surface owning each mesh face (`usize::MAX` where none does).
pub open spec fn face_owners(num_faces: nat, surface_faces: Seq<Seq<usize>>) -> Seq<usize> {
    Seq::new(num_faces, |f: int| owner_of(surface_faces, f, surface_faces.len() as int))
}

/// The corner vertices below `num_vertices`, ascending.
pub open spec fn corner_list(faces: Seq<MeshFace>, fts: Seq<usize>, num_vertices: nat) -> Seq<usize> {
    choose|l: Seq<usize>|
        strictly_increasing(l) && forall|v: usize| #[trigger] l.contains(v) <==> (v < num_vertices && is_corner_vertex(faces, fts, v))
}

/// The surfaces meeting at vertex `v`, ascending.
pub open spec fn surfaces_at(faces: Seq<MeshFace>, fts: Seq<usize>, v: usize) -> Seq<usize> {
    choose|l: Seq<usize>| strictly_increasing(l) && forall|s: usize| #[trigger] l.contains(s) <==> surface_at_vertex(faces, fts, v, s)
}

/// The reconstructed topology of the selected surfaces.
#[derive(Debug)]
pub struct SurfaceAdjacency {
    /// One face per selected surface, in surface order.
    pub face_descriptors: Vec<FaceDescriptor>,
    /// One edge per boundary chain.
    pub edges: Vec<ReconEdge>,
    /// One vertex per corner, ascending by mesh vertex.
    pub vertices: Vec<BRepVertex>,
}

/// Why the adjacency of the selected surfaces cannot be built.
#[derive(Debug, Clone, Copy, PartialEq, Eq, Structural)]
pub enum AdjacencyError {
    /// A mesh face belongs to no selected surface.
    UnassignedFace { face: usize },
}

/// `adj` is the reconstructed topology of the mesh whose faces belong to surfaces by `fts`.
pub open spec fn adjacency_is(adj: SurfaceAdjacency, faces: Seq<MeshFace>, fts: Seq<usize>, num_surfaces: nat, num_vertices: nat) -> bool {
    let chains = all_edge_chains(mesh_pair_groups(faces, fts));
    let corners = corner_list(faces, fts, num_vertices);
    let edges = adj.edges@;
    &&& edges.len() == chains.len()
    &&& forall|i: int| 0 <= i < edges.len() ==> recon_edge_is(#[trigger] edges[i], chains[i].0, chains[i].1, corners)
    &&& adj.vertices.len() == corners.len()
    &&& forall|b: int|
        0 <= b < adj.vertices.len() ==> {
            let vx = #[trigger] adj.vertices@[b];
            &&& vx.mesh_vertex == corners[b]
            &&& vx.adjacent_faces@ == surfaces_at(faces, fts, corners[b])
            &&& vx.adjacent_edges@ == edges_at_vertex(edges, b as usize, edges.len() as int)
        }
    &&& adj.face_descriptors.len() == num_surfaces
    &&& forall|si: int| 0 <= si < num_surfaces ==> face_descriptor_is(#[trigger] adj.face_descriptors@[si], edges, si as usize)
}

/// The owner of a face, when there is one, is one of the surfaces.
proof fn lemma_owner_below(surface_faces: Seq<Seq<usize>>, f: int, n: int)
    requires
        owner_of(surface_faces, f, n) != usize::MAX,
    ensures
        owner_of(surface_faces, f, n) < n,
    decreases n,
{
    if n > 0 && !surface_faces[n - 1].contains(f as usize) {
        lemma_owner_below(surface_faces, f, n - 1);
    }
}

/// The corners found are the corner list, each with the surfaces meeting there.
proof fn lemma_corners_found(faces: Seq<MeshFace>, fts: Seq<usize>, num_vertices: nat, r: Seq<CornerVertex>)
    requires
        forall|a: int, b: int| 0 <= a < b < r.len() ==> #[trigger] r[a].vertex < #[trigger] r[b].vertex,
        forall|a: int|
            0 <= a < r.len() ==> {
                let c = #[trigger] r[a];
                &&& c.vertex < num_vertices
                &&& strictly_increasing(c.surfaces@)
                &&& c.surfaces.len() >= 3
                &&& forall|s: usize| #[trigger] c.surfaces@.contains(s) <==> surface_at_vertex(faces, fts, c.vertex, s)
            },
        forall|v: usize|
            v < num_vertices && #[trigger] is_corner_vertex(faces, fts, v) ==> exists|a: int| 0 <= a < r.len() && #[trigger] r[a].vertex == v,
    ensures
        corner_vertices_of(r) == corner_list(faces, fts, num_vertices),
        strictly_increasing(corner_vertices_of(r)),
        forall|a: int| 0 <= a < r.len() ==> (#[trigger] r[a]).surfaces@ == surfaces_at(faces, fts, r[a].vertex),
{
    let l = corner_vertices_of(r);
    assert(strictly_increasing(l));
    assert forall|v: usize| #![trigger l.contains(v)] l.contains(v) <==> (v < num_vertices && is_corner_vertex(faces, fts, v)) by {
        if l.contains(v) {
            let a = choose|a: int| 0 <= a < l.len() && l[a] == v;
            let c = r[a];
            let ss = c.surfaces@;
            assert(ss.contains(ss[0]) && ss.contains(ss[1]) && ss.contains(ss[2]));
            assert(ss[0] < ss[1] && ss[1] < ss[2]);
            assert(surface_at_vertex(faces, fts, v, ss[0]));
            assert(surface_at_vertex(faces, fts, v, ss[1]));
            assert(surface_at_vertex(faces, fts, v, ss[2]));
        }
        if v < num_vertices && is_corner_vertex(faces, fts, v) {
            let a = choose|a: int| 0 <= a < r.len() && #[trigger] r[a].vertex == v;
            assert(l[a] == v);
        }
    }
    let c = corner_list(faces, fts, num_vertices);
    assert(strictly_increasing(c) && forall|v: usize| #[trigger] c.contains(v) <==> (v < num_vertices && is_corner_vertex(faces, fts, v)));
    lemma_ascending_unique(c, l);
    assert forall|a: int| 0 <= a < r.len() implies (#[trigger] r[a]).surfaces@ == surfaces_at(faces, fts, r[a].vertex) by {
        let ss = r[a].surfaces@;
        let cs = surfaces_at(faces, fts, r[a].vertex);
        assert(strictly_increasing(ss) && forall|s: usize| #[trigger] ss.contains(s) <==> surface_at_vertex(faces, fts, r[a].vertex, s));
        assert(strictly_increasing(cs) && forall|s: usize| #[trigger] cs.contains(s) <==> surface_at_vertex(faces, fts, r[a].vertex, s));
        lemma_ascending_unique(cs, ss);
    }
}

/// The tags of the chains are tags of the groups.
proof fn lemma_edge_chains_pairs(groups: Seq<(SurfacePair, Seq<UndirectedEdge>)>, n: int, ok: spec_fn(SurfacePair) -> bool)
    requires
        0 <= n <= groups.len(),
        forall|g: int| 0 <= g < groups.len() ==> ok(#[trigger] groups[g].0),
    ensures
        forall|i: int| 0 <= i < edge_chains(groups, n).len() ==> ok(#[trigger] edge_chains(groups, n)[i].0),
    decreases n,
{
    if n > 0 {
        lemma_edge_chains_pairs(groups, n - 1, ok);
        let a = edge_chains(groups, n - 1);
        let b = group_chains(groups[n - 1].0, groups[n - 1].1);
        assert forall|i: int| 0 <= i < (a + b).len() implies ok(#[trigger] (a + b)[i].0) by {
            if i < a.len() {
                assert((a + b)[i] == a[i]);
            } else {
                assert((a + b)[i] == b[i - a.len()]);
            }
        }
    }
}

/// Each chain is a path of at least two vertices along the edges of its group.
proof fn lemma_edge_chains_paths(groups: Seq<(SurfacePair, Seq<UndirectedEdge>)>, n: int)
    requires
        0 <= n <= groups.len(),
    ensures
        forall|i: int|
            0 <= i < edge_chains(groups, n).len() ==> exists|g: int|
                0 <= g < n && groups[g].0 == (#[trigger] edge_chains(groups, n)[i]).0 && is_edge_path(groups[g].1, edge_chains(groups, n)[i].1)
                    && edge_chains(groups, n)[i].1.len() >= 2,
    decreases n,
{
    if n > 0 {
        lemma_edge_chains_paths(groups, n - 1);
        let a = edge_chains(groups, n - 1);
        let b = group_chains(groups[n - 1].0, groups[n - 1].1);
        lemma_chains_are_edge_paths(groups[n - 1].1);
        lemma_chains_have_two_vertices(groups[n - 1].1);
        assert forall|i: int| 0 <= i < (a + b).len() implies exists|g: int|
            0 <= g < n && groups[g].0 == (#[trigger] (a + b)[i]).0 && is_edge_path(groups[g].1, (a + b)[i].1) && (a + b)[i].1.len() >= 2 by {
            if i < a.len() {
                assert((a + b)[i] == a[i]);
                let g = choose|g: int| 0 <= g < n - 1 && groups[g].0 == (#[trigger] a[i]).0 && is_edge_path(groups[g].1, a[i].1) && a[i].1.len() >= 2;
            } else {
                let c = i - a.len();
                assert((a + b)[i] == b[c]);
                assert(b[c].1 == spec_chain_boundary_edges(groups[n - 1].1)[c]);
            }
        }
    }
}

/// Around face `si`, the i-th adjacent face is the face across the i-th edge, and every
/// edge touching the face is listed exactly once.
pub open spec fn lists_each_edge_once(edges: Seq<ReconEdge>, adjacent_faces: Seq<usize>, edge_indices: Seq<usize>, si: usize) -> bool {
    &&& adjacent_faces.len() == edge_indices.len()
    &&& edge_indices.no_duplicates()
    &&& forall|i: int|
        0 <= i < edge_indices.len() ==> {
            &&& #[trigger] edge_indices[i] < edges.len()
            &&& edge_touches_face(edges[edge_indices[i] as int], si)
            &&& adjacent_faces[i] == other_face(edges[edge_indices[i] as int], si)
        }
    &&& forall|e: int| 0 <= e < edges.len() && edge_touches_face(#[trigger] edges[e], si) ==> edge_indices.contains(e as usize)
}

/// Build the reconstructed topology (stage 3.1): map each mesh face to its selected surface,
/// refuse a face that belongs to none, then build the edges from the boundary chains between
/// surface pairs (pairs ascending), the vertices at the corners (ascending) with the edges
/// ending there, and each face's edges in boundary order.
pub fn build_surfaces_and_adjacency(faces: &Vec<MeshFace>, surface_faces: &Vec<Vec<usize>>, num_vertices: usize) -> (r: Result<SurfaceAdjacency, AdjacencyError>)
    requires
        neighbors_well_formed(faces@),
        corners_in_range(faces@, num_vertices as nat),
        forall|s: int, t: int|
            0 <= s < surface_faces.len() && 0 <= t < surface_faces@[s].len() ==> #[trigger] surface_faces@[s]@[t] < faces.len(),
        surface_faces.len() < usize::MAX,
    ensures
        ({
            let fts = face_owners(faces.len() as nat, lists_view(surface_faces@));
            match r {
                Err(AdjacencyError::UnassignedFace { face }) => face < faces.len() && fts[face as int] == usize::MAX && forall|g: int|
                    0 <= g < face ==> #[trigger] fts[g] != usize::MAX,
                Ok(adj) => {
                    &&& forall|g: int| 0 <= g < faces.len() ==> #[trigger] fts[g] != usize::MAX
                    &&& adjacency_is(adj, faces@, fts, surface_faces.len() as nat, num_vertices as nat)
                    &&& forall|e: int|
                        0 <= e < adj.edges.len() ==> (#[trigger] adj.edges@[e]).face_indices@[0] < adj.edges@[e].face_indices@[1]
                            < surface_faces.len()
                    &&& forall|e: int|
                        0 <= e < adj.edges.len() ==> {
                            let edge = #[trigger] adj.edges@[e];
                            let recs = mesh_boundary_records(faces@, fts);
                            let pair_edges = edges_of_pair(recs, SurfacePair(edge.face_indices@[0], edge.face_indices@[1]), recs.len() as int);
                            &&& edge.mesh_boundary_vertices.len() >= 2
                            &&& is_edge_path(pair_edges, edge.mesh_boundary_vertices@)
                        }
                    &&& forall|b: int| 0 <= b < adj.vertices.len() ==> (#[trigger] adj.vertices@[b]).adjacent_faces.len() >= 3
                    &&& forall|e: int, k: int|
                        0 <= e < adj.edges.len() && 0 <= k < 2 ==> {
                            let vi = #[trigger] adj.edges@[e].vertex_indices@[k];
                            let chain = adj.edges@[e].mesh_boundary_vertices@;
                            vi == usize::MAX || (vi < adj.vertices.len() && adj.vertices@[vi as int].mesh_vertex == (if k == 0 {
                                chain[0]
                            } else {
                                chain.last()
                            }))
                        }
                    &&& forall|si: int|
                        0 <= si < surface_faces.len() ==> lists_each_edge_once(
                            adj.edges@,
                            (#[trigger] adj.face_descriptors@[si]).adjacent_faces@,
                            adj.face_descriptors@[si].edge_indices@,
                            si as usize,
                        )
                },
            }
        }),
{
    let ghost fts = face_owners(faces.len() as nat, lists_view(surface_faces@));
    let face_to_surface = build_face_to_surface_map(faces.len(), surface_faces);
    proof {
        assert(face_to_surface@ =~= fts);
    }
    match first_unassigned_face(&face_to_surface) {
        Some(f) => {
            return Err(AdjacencyError::UnassignedFace { face: f });
        },
        None => {},
    }
    let groups = collect_boundary_edges(faces, &face_to_surface);
    let corners = find_corner_vertices(faces, &face_to_surface, num_vertices);
    proof {
        lemma_corners_found(faces@, fts, num_vertices as nat, corners@);
    }
    let edges = build_recon_edges(&groups, &corners);
    let vertices = build_brep_vertices(&corners, &edges);
    let mut descriptors: Vec<FaceDescriptor> = Vec::new();
    let mut si: usize = 0;
    while si < surface_faces.len()
        invariant
            si <= surface_faces.len(),
            descriptors.len() == si,
            forall|t: int| 0 <= t < si ==> face_descriptor_is(#[trigger] descriptors@[t], edges@, t as usize),
        decreases surface_faces.len() - si,
    {
        descriptors.push(order_face_edges(&edges, si));
        si += 1;
    }
    let adj = SurfaceAdjacency { face_descriptors: descriptors, edges, vertices };
    proof {
        let cl = corner_list(faces@, fts, num_vertices as nat);
        assert forall|b: int| 0 <= b < adj.vertices.len() implies {
            let vx = #[trigger] adj.vertices@[b];
            &&& vx.mesh_vertex == cl[b]
            &&& vx.adjacent_faces@ == surfaces_at(faces@, fts, cl[b])
            &&& vx.adjacent_edges@ == edges_at_vertex(adj.edges@, b as usize, adj.edges@.len() as int)
        } by {
            assert(brep_vertex_is(adj.vertices@[b], corners@[b], adj.edges@, b as usize));
            assert(corner_vertices_of(corners@)[b] == corners@[b].vertex);
        }
        let ns = surface_faces.len();
        let gv = groups_view(groups@);
        let ok = |p: SurfacePair| p.0 < p.1 && p.1 < ns;
        assert forall|g: int| 0 <= g < gv.len() implies ok(#[trigger] gv[g].0) by {
            assert(pair_of_owners(fts, groups@[g].pair));
            let f = choose|f: int| 0 <= f < fts.len() && fts[f] == groups@[g].pair.1;
            assert(fts[f] != usize::MAX);
            lemma_owner_below(lists_view(surface_faces@), f, ns as int);
        }
        lemma_edge_chains_pairs(gv, gv.len() as int, ok);
        lemma_edge_chains_paths(gv, gv.len() as int);
        let recs = mesh_boundary_records(faces@, fts);
        assert forall|e: int| 0 <= e < adj.edges.len() implies {
            let edge = #[trigger] adj.edges@[e];
            let pair_edges = edges_of_pair(recs, SurfacePair(edge.face_indices@[0], edge.face_indices@[1]), recs.len() as int);
            &&& edge.mesh_boundary_vertices.len() >= 2
            &&& is_edge_path(pair_edges, edge.mesh_boundary_vertices@)
        } by {
            let ch = all_edge_chains(gv)[e];
            let g = choose|g: int|
                0 <= g < gv.len() && gv[g].0 == (#[trigger] all_edge_chains(gv)[e]).0 && is_edge_path(gv[g].1, all_edge_chains(gv)[e].1)
                    && all_edge_chains(gv)[e].1.len() >= 2;
            assert(gv[g] == mesh_pair_groups(faces@, fts)[g]);
            assert(adj.edges@[e].face_indices@ == seq![ch.0.0, ch.0.1]);
            assert(SurfacePair(adj.edges@[e].face_indices@[0], adj.edges@[e].face_indices@[1]) == ch.0);
        }
        assert forall|b: int| 0 <= b < adj.vertices.len() implies (#[trigger] adj.vertices@[b]).adjacent_faces.len() >= 3 by {
            assert(brep_vertex_is(adj.vertices@[b], corners@[b], adj.edges@, b as usize));
        }
        let cv = corner_vertices_of(corners@);
        assert forall|e: int, k: int| 0 <= e < adj.edges.len() && 0 <= k < 2 implies {
            let vi = #[trigger] adj.edges@[e].vertex_indices@[k];
            let chain = adj.edges@[e].mesh_boundary_vertices@;
            vi == usize::MAX || (vi < adj.vertices.len() && adj.vertices@[vi as int].mesh_vertex == (if k == 0 {
                chain[0]
            } else {
                chain.last()
            }))
        } by {
            let chain = adj.edges@[e].mesh_boundary_vertices@;
            let v = if k == 0 { chain[0] } else { chain.last() };
            assert(adj.edges@[e].vertex_indices@[k] == vertex_slot(cv, v));
            if cv.contains(v) {
                let a = choose|a: int| 0 <= a < cv.len() && cv[a] == v;
                assert(brep_vertex_is(adj.vertices@[a], corners@[a], adj.edges@, a as usize));
            }
        }
        let es = adj.edges@;
        assert forall|e: int| 0 <= e < es.len() implies (#[trigger] es[e]).face_indices@[0] < es[e].face_indices@[1] < ns by {
            assert(ok(all_edge_chains(gv)[e].0));
        }
        assert forall|si: int| 0 <= si < ns implies lists_each_edge_once(
            es,
            (#[trigger] adj.face_descriptors@[si]).adjacent_faces@,
            adj.face_descriptors@[si].edge_indices@,
            si as usize,
        ) by {
            lemma_face_order_lists_each_edge_once(es, si as usize);
        }
    }
    Ok(adj)
}

/// Each edge lies between two different faces.
pub open spec fn edges_between_distinct_faces(edges: Seq<ReconEdge>) -> bool {
    forall|e: int| 0 <= e < edges.len() ==> (#[trigger] edges[e]).face_indices@[0] != edges[e].face_indices@[1]
}

/// Edge `e` has face `si` as one of its two faces.
pub open spec fn edge_touches_face(e: ReconEdge, si: usize) -> bool {
    e.face_indices@[0] == si || e.face_indices@[1] == si
}

/// The entries of a face: one per edge touching it, edges ascending, each with the face
/// across it.
proof fn lemma_face_edge_list(edges: Seq<ReconEdge>, si: usize, n: int)
    requires
        0 <= n <= edges.len(),
        edges.len() <= usize::MAX,
        edges_between_distinct_faces(edges),
    ensures
        ({
            let fe = face_edge_list(edges, si, n);
            &&& forall|k: int|
                0 <= k < fe.len() ==> {
                    &&& (#[trigger] fe[k]).0 < n
                    &&& edge_touches_face(edges[fe[k].0 as int], si)
                    &&& fe[k].1 == other_face(edges[fe[k].0 as int], si)
                }
            &&& forall|k1: int, k2: int| 0 <= k1 < k2 < fe.len() ==> (#[trigger] fe[k1]).0 < (#[trigger] fe[k2]).0
            &&& forall|e: int|
                0 <= e < n && edge_touches_face(#[trigger] edges[e], si) ==> exists|k: int| 0 <= k < fe.len() && #[trigger] fe[k].0 == e
        }),
    decreases n,
{
    if n > 0 {
        lemma_face_edge_list(edges, si, n - 1);
        let fe0 = face_edge_list(edges, si, n - 1);
        let fe = face_edge_list(edges, si, n);
        let e = edges[n - 1];
        assert(e.face_indices@[0] != e.face_indices@[1]);
        if e.face_indices@[0] == si {
            assert(fe == fe0.push(((n - 1) as usize, e.face_indices@[1])));
        } else if e.face_indices@[1] == si {
            assert(fe == fe0.push(((n - 1) as usize, e.face_indices@[0])));
        } else {
            assert(fe == fe0);
        }
        assert forall|k: int| 0 <= k < fe.len() implies {
            &&& (#[trigger] fe[k]).0 < n
            &&& edge_touches_face(edges[fe[k].0 as int], si)
            &&& fe[k].1 == other_face(edges[fe[k].0 as int], si)
        } by {
            if k < fe0.len() {
                assert(fe[k] == fe0[k]);
            }
        }
        assert forall|e2: int| 0 <= e2 < n && edge_touches_face(#[trigger] edges[e2], si) implies exists|k: int|
            0 <= k < fe.len() && #[trigger] fe[k].0 == e2 by {
            if e2 < n - 1 {
                let k = choose|k: int| 0 <= k < fe0.len() && #[trigger] fe0[k].0 == e2;
                assert(fe[k] == fe0[k]);
            } else {
                assert(fe[fe.len() - 1].0 == e2);
            }
        }
    }
}

/// The edges of a vertex list are edges of the entries.
proof fn lemma_vertex_edge_list(edges: Seq<ReconEdge>, fe: Seq<(usize, usize)>, v: usize, n: int)
    requires
        0 <= n <= fe.len(),
    ensures
        forall|j: int|
            0 <= j < vertex_edge_list(edges, fe, v, n).len() ==> exists|k: int|
                0 <= k < n && #[trigger] fe[k].0 == #[trigger] vertex_edge_list(edges, fe, v, n)[j],
    decreases n,
{
    if n > 0 {
        lemma_vertex_edge_list(edges, fe, v, n - 1);
        let l0 = vertex_edge_list(edges, fe, v, n - 1);
        let l = vertex_edge_list(edges, fe, v, n);
        assert forall|j: int| 0 <= j < l.len() implies exists|k: int| 0 <= k < n && #[trigger] fe[k].0 == #[trigger] l[j] by {
            if j < l0.len() {
                assert(l[j] == l0[j]);
                let k = choose|k: int| 0 <= k < n - 1 && #[trigger] fe[k].0 == #[trigger] l0[j];
                assert(fe[k].0 == l[j]);
            } else {
                assert(fe[n - 1].0 == l[j]);
            }
        }
    }
}

/// What `first_not_in` finds is in the list and not visited.
proof fn lemma_first_not_in(list: Seq<usize>, visited: Seq<usize>, k: int)
    requires
        0 <= k,
        first_not_in(list, visited, k) is Some,
    ensures
        list.contains(first_not_in(list, visited, k)->Some_0),
        !visited.contains(first_not_in(list, visited, k)->Some_0),
    decreases list.len() - k,
{
    if k < list.len() && visited.contains(list[k]) {
        lemma_first_not_in(list, visited, k + 1);
    } else {
        assert(list[k] == list[k]);
    }
}

/// The walk's edges are distinct entries of the face, each with the face across it.
pub open spec fn walk_consistent(edges: Seq<ReconEdge>, si: usize, fe: Seq<(usize, usize)>, w: FaceWalk) -> bool {
    &&& w.adj.len() == w.edges.len()
    &&& w.edges.no_duplicates()
    &&& forall|i: int|
        0 <= i < w.edges.len() ==> (exists|k: int| 0 <= k < fe.len() && #[trigger] fe[k].0 == #[trigger] w.edges[i])
            && w.adj[i] == other_face(edges[w.edges[i] as int], si)
    &&& exists|k: int| 0 <= k < fe.len() && #[trigger] fe[k].0 == w.current
}

proof fn lemma_face_walk_consistent(edges: Seq<ReconEdge>, si: usize, fe: Seq<(usize, usize)>, m: nat)
    requires
        fe.len() >= 1,
        forall|k: int|
            0 <= k < fe.len() ==> (#[trigger] fe[k]).0 < edges.len() && fe[k].1 == other_face(edges[fe[k].0 as int], si),
    ensures
        walk_consistent(edges, si, fe, face_walk(edges, si, fe, m)),
    decreases m,
{
    if m == 0 {
        let w = face_walk(edges, si, fe, 0);
        assert(fe[0].0 == w.edges[0]);
        assert(w.edges.no_duplicates());
    } else {
        lemma_face_walk_consistent(edges, si, fe, (m - 1) as nat);
        let w0 = face_walk(edges, si, fe, (m - 1) as nat);
        let w = face_walk(edges, si, fe, m);
        if !w0.stopped {
            match next_edge(edges, fe, w0.current, w0.edges) {
                None => {},
                Some((v, n)) => {
                    let v0 = edges[w0.current as int].vertex_indices@[0];
                    let v1 = edges[w0.current as int].vertex_indices@[1];
                    let l0 = vertex_edge_list(edges, fe, v0, fe.len() as int);
                    let l1 = vertex_edge_list(edges, fe, v1, fe.len() as int);
                    let from0 = v0 != usize::MAX && first_not_in(l0, w0.edges, 0) is Some;
                    let l = if from0 { l0 } else { l1 };
                    lemma_first_not_in(l, w0.edges, 0);
                    lemma_vertex_edge_list(edges, fe, if from0 { v0 } else { v1 }, fe.len() as int);
                    let j = choose|j: int| 0 <= j < l.len() && l[j] == n;
                    let k = choose|k: int| 0 <= k < fe.len() && #[trigger] fe[k].0 == #[trigger] l[j];
                    assert(fe[k].0 == n);
                    assert(w.edges == w0.edges.push(n));
                    assert forall|i: int|
                        0 <= i < w.edges.len() implies (exists|k: int| 0 <= k < fe.len() && #[trigger] fe[k].0 == #[trigger] w.edges[i])
                            && w.adj[i] == other_face(edges[w.edges[i] as int], si) by {
                        if i < w0.edges.len() {
                            assert(w.edges[i] == w0.edges[i]);
                            assert(w.adj[i] == w0.adj[i]);
                        } else {
                            assert(w.edges[i] == n);
                            assert(fe[k].0 == w.edges[i]);
                        }
                    }
                    assert(w.edges.no_duplicates()) by {
                        assert forall|a: int, b: int| 0 <= a < w.edges.len() && 0 <= b < w.edges.len() && a != b implies w.edges[a]
                            != w.edges[b] by {
                            if a < w0.edges.len() && b < w0.edges.len() {
                            } else if a < w0.edges.len() {
                                assert(w0.edges.contains(w0.edges[a]));
                            } else {
                                assert(w0.edges.contains(w0.edges[b]));
                            }
                        }
                    }
                    assert(fe[k].0 == w.current);
                },
            }
        }
    }
}

/// Around each face, the i-th adjacent face is the face across the i-th edge, and every edge
/// touching the face appears exactly once.
pub proof fn lemma_face_order_lists_each_edge_once(edges: Seq<ReconEdge>, si: usize)
    requires
        edges.len() <= usize::MAX,
        edges_between_distinct_faces(edges),
    ensures
        lists_each_edge_once(edges, face_order(edges, si).adjacent_faces, face_order(edges, si).edge_indices, si),
{
    let fe = face_edge_list(edges, si, edges.len() as int);
    let o = face_order(edges, si);
    lemma_face_edge_list(edges, si, edges.len() as int);
    if fe.len() == 0 {
        assert forall|e: int| 0 <= e < edges.len() && edge_touches_face(#[trigger] edges[e], si) implies o.edge_indices.contains(
            e as usize,
        ) by {
            let k = choose|k: int| 0 <= k < fe.len() && #[trigger] fe[k].0 == e;
        }
    } else if fe.len() == 1 {
        assert forall|e: int| 0 <= e < edges.len() && edge_touches_face(#[trigger] edges[e], si) implies o.edge_indices.contains(
            e as usize,
        ) by {
            let k = choose|k: int| 0 <= k < fe.len() && #[trigger] fe[k].0 == e;
            assert(o.edge_indices[0] == e);
        }
        assert(fe[0].0 < edges.len());
    } else {
        lemma_face_order_walked(edges, si);
    }
}

/// The edge lists of a face with two or more edges.
#[verifier::rlimit(30)]
proof fn lemma_face_order_walked(edges: Seq<ReconEdge>, si: usize)
    requires
        edges.len() <= usize::MAX,
        edges_between_distinct_faces(edges),
        face_edge_list(edges, si, edges.len() as int).len() >= 2,
    ensures
        ({
            let o = face_order(edges, si);
            &&& o.adjacent_faces.len() == o.edge_indices.len()
            &&& o.edge_indices.no_duplicates()
            &&& forall|i: int|
                0 <= i < o.edge_indices.len() ==> {
                    &&& #[trigger] o.edge_indices[i] < edges.len()
                    &&& edge_touches_face(edges[o.edge_indices[i] as int], si)
                    &&& o.adjacent_faces[i] == other_face(edges[o.edge_indices[i] as int], si)
                }
            &&& forall|e: int| 0 <= e < edges.len() && edge_touches_face(#[trigger] edges[e], si) ==> o.edge_indices.contains(e as usize)
        }),
{
    let fe = face_edge_list(edges, si, edges.len() as int);
    let o = face_order(edges, si);
    lemma_face_edge_list(edges, si, edges.len() as int);
    {
        let w = face_walk(edges, si, fe, fe.len());
        lemma_face_walk_consistent(edges, si, fe, fe.len());
        let u = unvisited_entries(fe, w.edges, fe.len() as int);
        lemma_unvisited_members(fe, w.edges, fe.len() as int);
        lemma_unvisited_sorted(fe, w.edges, fe.len() as int);
        lemma_unvisited_complete(fe, w.edges, fe.len() as int);
        let ue = Seq::new(u.len(), |k: int| u[k].0);
        let ua = Seq::new(u.len(), |k: int| u[k].1);
        assert(o.edge_indices == w.edges + ue);
        assert(o.adjacent_faces == w.adj + ua);
        assert forall|i: int| 0 <= i < o.edge_indices.len() implies {
            &&& #[trigger] o.edge_indices[i] < edges.len()
            &&& edge_touches_face(edges[o.edge_indices[i] as int], si)
            &&& o.adjacent_faces[i] == other_face(edges[o.edge_indices[i] as int], si)
        } by {
            if i < w.edges.len() {
                let k = choose|k: int| 0 <= k < fe.len() && #[trigger] fe[k].0 == #[trigger] w.edges[i];
                assert(o.edge_indices[i] == w.edges[i]);
                assert(o.adjacent_faces[i] == w.adj[i]);
            } else {
                let q = i - w.edges.len();
                let k = choose|k: int| 0 <= k < fe.len() && fe[k] == u[q];
                assert(o.edge_indices[i] == u[q].0);
                assert(o.adjacent_faces[i] == u[q].1);
            }
        }
        assert(o.edge_indices.no_duplicates()) by {
            assert forall|a: int, b: int|
                0 <= a < o.edge_indices.len() && 0 <= b < o.edge_indices.len() && a != b implies o.edge_indices[a] != o.edge_indices[b] by {
                let nw = w.edges.len() as int;
                if a < nw && b < nw {
                    assert(o.edge_indices[a] == w.edges[a] && o.edge_indices[b] == w.edges[b]);
                } else if a < nw {
                    assert(o.edge_indices[a] == w.edges[a]);
                    assert(!w.edges.contains(u[b - nw].0));
                    assert(w.edges.contains(w.edges[a]));
                } else if b < nw {
                    assert(o.edge_indices[b] == w.edges[b]);
                    assert(!w.edges.contains(u[a - nw].0));
                    assert(w.edges.contains(w.edges[b]));
                } else {
                    assert(o.edge_indices[a] == u[a - nw].0 && o.edge_indices[b] == u[b - nw].0);
                    if a < b {
                        assert(u[a - nw].0 < u[b - nw].0);
                    } else {
                        assert(u[b - nw].0 < u[a - nw].0);
                    }
                }
            }
        }
        assert forall|e: int| 0 <= e < edges.len() && edge_touches_face(#[trigger] edges[e], si) implies o.edge_indices.contains(
            e as usize,
        ) by {
            let k = choose|k: int| 0 <= k < fe.len() && #[trigger] fe[k].0 == e;
            if w.edges.contains(e as usize) {
                let i = choose|i: int| 0 <= i < w.edges.len() && w.edges[i] == e as usize;
                assert(o.edge_indices[i] == e);
            } else {
                assert(u.contains(fe[k]));
                let q = choose|q: int| 0 <= q < u.len() && u[q] == fe[k];
                assert(o.edge_indices[w.edges.len() + q] == e);
            }
        }
    }
}

/// The unvisited entries are entries whose edge is not visited.
proof fn lemma_unvisited_members(fe: Seq<(usize, usize)>, visited: Seq<usize>, n: int)
    requires
        0 <= n <= fe.len(),
    ensures
        forall|q: int|
            0 <= q < unvisited_entries(fe, visited, n).len() ==> !visited.contains((#[trigger] unvisited_entries(fe, visited, n)[q]).0)
                && exists|k: int| 0 <= k < n && fe[k] == unvisited_entries(fe, visited, n)[q],
    decreases n,
{
    if n > 0 {
        lemma_unvisited_members(fe, visited, n - 1);
        let u0 = unvisited_entries(fe, visited, n - 1);
        let u = unvisited_entries(fe, visited, n);
        assert forall|q: int| 0 <= q < u.len() implies !visited.contains((#[trigger] u[q]).0) && exists|k: int|
            0 <= k < n && fe[k] == u[q] by {
            if q < u0.len() {
                assert(u[q] == u0[q]);
                let k = choose|k: int| 0 <= k < n - 1 && fe[k] == u0[q];
            } else {
                assert(u[q] == fe[n - 1]);
            }
        }
    }
}

/// The unvisited entries keep the order of their edges.
proof fn lemma_unvisited_sorted(fe: Seq<(usize, usize)>, visited: Seq<usize>, n: int)
    requires
        0 <= n <= fe.len(),
        forall|k1: int, k2: int| 0 <= k1 < k2 < fe.len() ==> (#[trigger] fe[k1]).0 < (#[trigger] fe[k2]).0,
    ensures
        forall|q1: int, q2: int|
            0 <= q1 < q2 < unvisited_entries(fe, visited, n).len() ==> (#[trigger] unvisited_entries(fe, visited, n)[q1]).0
                < (#[trigger] unvisited_entries(fe, visited, n)[q2]).0,
    decreases n,
{
    if n > 0 {
        lemma_unvisited_sorted(fe, visited, n - 1);
        lemma_unvisited_members(fe, visited, n - 1);
        let u0 = unvisited_entries(fe, visited, n - 1);
        let u = unvisited_entries(fe, visited, n);
        if !visited.contains(fe[n - 1].0) {
            assert forall|q1: int, q2: int| 0 <= q1 < q2 < u.len() implies (#[trigger] u[q1]).0 < (#[trigger] u[q2]).0 by {
                assert(u[q1] == u0[q1]);
                if q2 < u0.len() {
                    assert(u[q2] == u0[q2]);
                } else {
                    assert(u0[q1] == u0[q1]);
                    let k1 = choose|k: int| 0 <= k < n - 1 && fe[k] == u0[q1];
                    assert(fe[k1].0 < fe[n - 1].0);
                }
            }
        }
    }
}

/// Every entry whose edge is not visited is among the unvisited entries.
proof fn lemma_unvisited_complete(fe: Seq<(usize, usize)>, visited: Seq<usize>, n: int)
    requires
        0 <= n <= fe.len(),
    ensures
        forall|k: int|
            0 <= k < n && !visited.contains((#[trigger] fe[k]).0) ==> unvisited_entries(fe, visited, n).contains(fe[k]),
    decreases n,
{
    if n > 0 {
        lemma_unvisited_complete(fe, visited, n - 1);
        let u0 = unvisited_entries(fe, visited, n - 1);
        let u = unvisited_entries(fe, visited, n);
        assert forall|k: int| 0 <= k < n && !visited.contains((#[trigger] fe[k]).0) implies u.contains(fe[k]) by {
            if k < n - 1 {
                let q = choose|q: int| 0 <= q < u0.len() && u0[q] == fe[k];
                if !visited.contains(fe[n - 1].0) {
                    assert(u[q] == u0[q]);
                }
            } else {
                assert(u[u.len() - 1] == fe[k]);
            }
        }
    }
}

} // verus!
