//! Adjacency graph of the selected surfaces (stage 3.1): which surface owns each mesh face,
//! the mesh edges on the boundary between two surfaces, the mesh vertices where three or
//! more surfaces meet, boundary chains, and the reconstructed edges, vertices and faces.

use vstd::prelude::*;
use crate::topology::MeshFace;
use crate::sorted::{sorted_by, lemma_sorted_unique};

verus! {

/// Canonical (undirected) representation of a mesh edge: smaller vertex first.
#[derive(Debug, Clone, Copy, PartialEq, Eq, Structural)]
pub struct UndirectedEdge(pub usize, pub usize);

/// An unordered pair of selected surface indices, smaller first.
#[derive(Debug, Clone, Copy, PartialEq, Eq, Structural)]
pub struct SurfacePair(pub usize, pub usize);

impl UndirectedEdge {
    /// The edge between `a` and `b`, smaller vertex first.
    pub fn new(a: usize, b: usize) -> (r: Self)
        ensures
            r == (if a <= b { UndirectedEdge(a, b) } else { UndirectedEdge(b, a) }),
    {
        if a <= b {
            UndirectedEdge(a, b)
        } else {
            UndirectedEdge(b, a)
        }
    }
}

impl SurfacePair {
    /// The pair of surfaces `a` and `b`, smaller first.
    pub fn new(a: usize, b: usize) -> (r: Self)
        ensures
            r == (if a <= b { SurfacePair(a, b) } else { SurfacePair(b, a) }),
    {
        if a <= b {
            SurfacePair(a, b)
        } else {
            SurfacePair(b, a)
        }
    }
}

/// The surface owning face `f`: the last surface whose face list contains `f`, or
/// `usize::MAX` when no list does.
pub open spec fn owner_of(surface_faces: Seq<Seq<usize>>, f: int, n: int) -> usize
    decreases n,
{
    if n <= 0 {
        usize::MAX
    } else if surface_faces[n - 1].contains(f as usize) {
        (n - 1) as usize
    } else {
        owner_of(surface_faces, f, n - 1)
    }
}

/// The face lists of the selected surfaces, by view.
pub open spec fn lists_view(lists: Seq<Vec<usize>>) -> Seq<Seq<usize>> {
    Seq::new(lists.len(), |i: int| lists[i]@)
}

/// Build the mapping from mesh face index to selected surface index.
pub fn build_face_to_surface_map(num_faces: usize, surface_faces: &Vec<Vec<usize>>) -> (r: Vec<usize>)
    requires
        forall|s: int, t: int|
            0 <= s < surface_faces.len() && 0 <= t < surface_faces@[s].len() ==> #[trigger] surface_faces@[s]@[t] < num_faces,
        surface_faces.len() < usize::MAX,
    ensures
        r.len() == num_faces,
        forall|f: int| 0 <= f < num_faces ==> #[trigger] r@[f] == owner_of(lists_view(surface_faces@), f, surface_faces.len() as int),
{
    let ghost lv = lists_view(surface_faces@);
    let mut map: Vec<usize> = Vec::new();
    let mut f: usize = 0;
    while f < num_faces
        invariant
            f <= num_faces,
            map.len() == f,
            forall|g: int| 0 <= g < f ==> #[trigger] map@[g] == usize::MAX,
        decreases num_faces - f,
    {
        map.push(usize::MAX);
        f += 1;
    }
    let mut s: usize = 0;
    while s < surface_faces.len()
        invariant
            s <= surface_faces.len(),
            surface_faces.len() < usize::MAX,
            lv == lists_view(surface_faces@),
            map.len() == num_faces,
            forall|s: int, t: int|
                0 <= s < surface_faces.len() && 0 <= t < surface_faces@[s].len() ==> #[trigger] surface_faces@[s]@[t] < num_faces,
            forall|g: int| 0 <= g < num_faces ==> #[trigger] map@[g] == owner_of(lv, g, s as int),
        decreases surface_faces.len() - s,
    {
        let list = &surface_faces[s];
        let ghost snap = map@;
        let mut t: usize = 0;
        while t < list.len()
            invariant
                t <= list.len(),
                s < surface_faces.len(),
                list@ == surface_faces@[s as int]@,
                lv[s as int] == list@,
                map.len() == num_faces,
                forall|q: int| 0 <= q < list.len() ==> #[trigger] list@[q] < num_faces,
                forall|g: int|
                    0 <= g < num_faces ==> #[trigger] map@[g] == if list@.take(t as int).contains(g as usize) {
                        s
                    } else {
                        snap[g]
                    },
            decreases list.len() - t,
        {
            let f = list[t];
            map[f] = s;
            proof {
                assert forall|g: int| 0 <= g < num_faces implies #[trigger] map@[g] == if list@.take(t + 1 as int).contains(g as usize) {
                    s
                } else {
                    snap[g]
                } by {
                    let tk = list@.take(t + 1 as int);
                    if g == f as int {
                        assert(tk[t as int] == f);
                    } else if list@.take(t as int).contains(g as usize) {
                        let q = choose|q: int| 0 <= q < t && list@.take(t as int)[q] == g as usize;
                        assert(tk[q] == g as usize);
                    } else {
                        if tk.contains(g as usize) {
                            let q = choose|q: int| 0 <= q < t + 1 && tk[q] == g as usize;
                            assert(list@.take(t as int)[q] == g as usize);
                        }
                    }
                }
            }
            t += 1;
        }
        proof {
            assert(list@.take(list.len() as int) == list@);
        }
        s += 1;
    }
    map
}

/// The first face not owned by any surface, if there is one.
pub fn first_unassigned_face(face_to_surface: &Vec<usize>) -> (r: Option<usize>)
    ensures
        r matches Some(f) ==> f < face_to_surface.len() && face_to_surface@[f as int] == usize::MAX && forall|g: int|
            0 <= g < f ==> #[trigger] face_to_surface@[g] != usize::MAX,
        r is None ==> forall|g: int| 0 <= g < face_to_surface.len() ==> #[trigger] face_to_surface@[g] != usize::MAX,
{
    let mut f: usize = 0;
    while f < face_to_surface.len()
        invariant
            f <= face_to_surface.len(),
            forall|g: int| 0 <= g < f ==> #[trigger] face_to_surface@[g] != usize::MAX,
        decreases face_to_surface.len() - f,
    {
        if face_to_surface[f] == usize::MAX {
            return Some(f);
        }
        f += 1;
    }
    None
}

/// One boundary mesh edge between two different surfaces.
#[derive(Debug, Clone, Copy, PartialEq, Eq, Structural)]
pub struct BoundaryRecord {
    pub pair: SurfacePair,
    pub edge: UndirectedEdge,
}

/// The canonical pair of two surface indices.
pub open spec fn spec_pair(a: usize, b: usize) -> SurfacePair {
    if a <= b {
        SurfacePair(a, b)
    } else {
        SurfacePair(b, a)
    }
}

/// The canonical undirected edge of two vertices.
pub open spec fn spec_edge(a: usize, b: usize) -> UndirectedEdge {
    if a <= b {
        UndirectedEdge(a, b)
    } else {
        UndirectedEdge(b, a)
    }
}

/// Edge `e` of face `f` lies between two surfaces and is recorded there (from the face with
/// the smaller index).
pub open spec fn is_boundary_slot(faces: Seq<MeshFace>, fts: Seq<usize>, f: int, e: int) -> bool {
    let ni = faces[f].neighbors@[e] as int;
    &&& ni >= 0
    &&& fts[f] != fts[ni]
    &&& f < ni
}

/// The record of boundary slot (`f`, `e`).
pub open spec fn slot_record(faces: Seq<MeshFace>, fts: Seq<usize>, f: int, e: int) -> BoundaryRecord {
    let face = faces[f];
    let vc = face.vertex_count as int;
    let ni = face.neighbors@[e] as int;
    BoundaryRecord {
        pair: spec_pair(fts[f], fts[ni]),
        edge: spec_edge(face.vertex_indices@[e], face.vertex_indices@[(e + 1) % vc]),
    }
}

/// Records of the boundary slots among the first `e` edges of face `f`.
pub open spec fn face_records(faces: Seq<MeshFace>, fts: Seq<usize>, f: int, e: int) -> Seq<BoundaryRecord>
    decreases e,
{
    if e <= 0 {
        Seq::empty()
    } else if is_boundary_slot(faces, fts, f, e - 1) {
        face_records(faces, fts, f, e - 1).push(slot_record(faces, fts, f, e - 1))
    } else {
        face_records(faces, fts, f, e - 1)
    }
}

/// Records of all boundary slots of the first `n` faces, face by face, edge by edge.
pub open spec fn boundary_records(faces: Seq<MeshFace>, fts: Seq<usize>, n: int) -> Seq<BoundaryRecord>
    decreases n,
{
    if n <= 0 {
        Seq::empty()
    } else {
        boundary_records(faces, fts, n - 1) + face_records(faces, fts, n - 1, faces[n - 1].vertex_count as int)
    }
}

/// Faces have at most four vertices, and every edge neighbor is -1 or a face index.
pub open spec fn neighbors_well_formed(faces: Seq<MeshFace>) -> bool {
    &&& forall|g: int| 0 <= g < faces.len() ==> 1 <= (#[trigger] faces[g]).vertex_count <= 4
    &&& forall|g: int, k: int|
        0 <= g < faces.len() && 0 <= k < faces[g].vertex_count ==> -1 <= (#[trigger] faces[g].neighbors@[k]) < faces.len()
}

/// Collect the boundary mesh edges between different surfaces, in face and edge order.
fn collect_boundary_records(faces: &Vec<MeshFace>, face_to_surface: &Vec<usize>) -> (r: Vec<BoundaryRecord>)
    requires
        face_to_surface.len() == faces.len(),
        neighbors_well_formed(faces@),
    ensures
        r@ == boundary_records(faces@, face_to_surface@, faces.len() as int),
{
    let mut out: Vec<BoundaryRecord> = Vec::new();
    let mut f: usize = 0;
    while f < faces.len()
        invariant
            f <= faces.len(),
            face_to_surface.len() == faces.len(),
            neighbors_well_formed(faces@),
            out@ == boundary_records(faces@, face_to_surface@, f as int),
        decreases faces.len() - f,
    {
        let face = faces[f];
        let vc = face.vertex_count as usize;
        let ghost base = out@;
        let mut e: usize = 0;
        while e < vc
            invariant
                f < faces.len(),
                face == faces@[f as int],
                vc == face.vertex_count,
                1 <= vc <= 4,
                e <= vc,
                face_to_surface.len() == faces.len(),
                neighbors_well_formed(faces@),
                out@ == base + face_records(faces@, face_to_surface@, f as int, e as int),
            decreases vc - e,
        {
            let ni = face.neighbors[e];
            proof {
                assert(-1 <= faces@[f as int].neighbors@[e as int] < faces.len());
            }
            if ni >= 0 {
                let nu = ni as usize;
                let si = face_to_surface[f];
                let sn = face_to_surface[nu];
                if si != sn && f < nu {
                    let next = if e + 1 == vc {
                        0
                    } else {
                        e + 1
                    };
                    proof {
                        if e + 1 == vc {
                            vstd::arithmetic::div_mod::lemma_mod_self_0(vc as int);
                        } else {
                            vstd::arithmetic::div_mod::lemma_small_mod((e + 1) as nat, vc as nat);
                        }
                    }
                    let v0 = face.vertex_indices[e];
                    let v1 = face.vertex_indices[next];
                    out.push(BoundaryRecord { pair: SurfacePair::new(si, sn), edge: UndirectedEdge::new(v0, v1) });
                }
            }
            e += 1;
        }
        f += 1;
    }
    out
}

/// Lexicographic order on surface pairs.
pub open spec fn pair_lt(a: SurfacePair, b: SurfacePair) -> bool {
    a.0 < b.0 || (a.0 == b.0 && a.1 < b.1)
}

fn pair_less(a: SurfacePair, b: SurfacePair) -> (r: bool)
    ensures
        r == pair_lt(a, b),
{
    a.0 < b.0 || (a.0 == b.0 && a.1 < b.1)
}

/// Some record has pair `p`.
pub open spec fn pair_recorded(records: Seq<BoundaryRecord>, p: SurfacePair) -> bool {
    exists|i: int| 0 <= i < records.len() && #[trigger] records[i].pair == p
}

/// Edges of the first `n` records whose pair is `p`, in record order.
pub open spec fn edges_of_pair(records: Seq<BoundaryRecord>, p: SurfacePair, n: int) -> Seq<UndirectedEdge>
    decreases n,
{
    if n <= 0 {
        Seq::empty()
    } else if records[n - 1].pair == p {
        edges_of_pair(records, p, n - 1).push(records[n - 1].edge)
    } else {
        edges_of_pair(records, p, n - 1)
    }
}

/// Pair `p` comes after `after` (every pair comes after None).
pub open spec fn pair_after(after: Option<SurfacePair>, p: SurfacePair) -> bool {
    match after {
        Some(a) => pair_lt(a, p),
        None => true,
    }
}

/// Some group has pair `p`.
pub open spec fn pair_grouped(groups: Seq<PairEdges>, p: SurfacePair) -> bool {
    exists|t: int| 0 <= t < groups.len() && #[trigger] groups[t].pair == p
}

/// The smallest recorded pair after `after` (or the smallest of all when `after` is None).
fn next_pair(records: &Vec<BoundaryRecord>, after: Option<SurfacePair>) -> (r: Option<SurfacePair>)
    ensures
        r matches Some(p) ==> pair_recorded(records@, p) && pair_after(after, p) && forall|i: int|
            0 <= i < records.len() && pair_after(after, #[trigger] records@[i].pair) ==> !pair_lt(
                records@[i].pair,
                p,
            ),
        r is None ==> forall|i: int|
            0 <= i < records.len() ==> !pair_after(after, #[trigger] records@[i].pair),
{
    let mut best: Option<SurfacePair> = None;
    let mut i: usize = 0;
    while i < records.len()
        invariant
            i <= records.len(),
            best matches Some(p) ==> pair_recorded(records@, p) && pair_after(after, p) && forall|j: int|
                0 <= j < i && pair_after(after, #[trigger] records@[j].pair) ==> !pair_lt(
                    records@[j].pair,
                    p,
                ),
            best is None ==> forall|j: int| 0 <= j < i ==> !pair_after(after, #[trigger] records@[j].pair),
        decreases records.len() - i,
    {
        let p = records[i].pair;
        let eligible = match after {
            Some(a) => pair_less(a, p),
            None => true,
        };
        if eligible {
            match best {
                Some(b) => {
                    if pair_less(p, b) {
                        best = Some(p);
                    }
                },
                None => {
                    best = Some(p);
                },
            }
        }
        i += 1;
    }
    best
}

/// The edges of all records with pair `p`, in record order.
fn edges_for_pair(records: &Vec<BoundaryRecord>, p: SurfacePair) -> (r: Vec<UndirectedEdge>)
    ensures
        r@ == edges_of_pair(records@, p, records.len() as int),
{
    let mut out: Vec<UndirectedEdge> = Vec::new();
    let mut i: usize = 0;
    while i < records.len()
        invariant
            i <= records.len(),
            out@ == edges_of_pair(records@, p, i as int),
        decreases records.len() - i,
    {
        if records[i].pair == p {
            out.push(records[i].edge);
        }
        i += 1;
    }
    out
}

/// The boundary edges between two surfaces.
#[derive(Debug)]
pub struct PairEdges {
    pub pair: SurfacePair,
    pub edges: Vec<UndirectedEdge>,
}

/// Group boundary records by surface pair, pairs in increasing order.
fn group_by_pair(records: &Vec<BoundaryRecord>) -> (r: Vec<PairEdges>)
    ensures
        forall|t1: int, t2: int| 0 <= t1 < t2 < r.len() ==> pair_lt(#[trigger] r@[t1].pair, #[trigger] r@[t2].pair),
        forall|t: int| 0 <= t < r.len() ==> pair_recorded(records@, #[trigger] r@[t].pair),
        forall|i: int| 0 <= i < records.len() ==> pair_grouped(r@, #[trigger] records@[i].pair),
        forall|t: int| 0 <= t < r.len() ==> (#[trigger] r@[t]).edges@ == edges_of_pair(records@, r@[t].pair, records.len() as int),
{
    let mut groups: Vec<PairEdges> = Vec::new();
    let mut last: Option<SurfacePair> = None;
    loop
        invariant
            forall|t1: int, t2: int| 0 <= t1 < t2 < groups.len() ==> pair_lt(#[trigger] groups@[t1].pair, #[trigger] groups@[t2].pair),
            forall|t: int| 0 <= t < groups.len() ==> pair_recorded(records@, #[trigger] groups@[t].pair),
            forall|t: int| 0 <= t < groups.len() ==> (#[trigger] groups@[t]).edges@ == edges_of_pair(records@, groups@[t].pair, records.len() as int),
            last is None <==> groups.len() == 0,
            last matches Some(l) ==> l == groups@[groups.len() - 1].pair,
            forall|i: int|
                0 <= i < records.len() && !pair_after(last, #[trigger] records@[i].pair) ==> pair_grouped(groups@, records@[i].pair),
            groups.len() <= records.len(),
        ensures
            forall|t1: int, t2: int| 0 <= t1 < t2 < groups.len() ==> pair_lt(#[trigger] groups@[t1].pair, #[trigger] groups@[t2].pair),
            forall|t: int| 0 <= t < groups.len() ==> pair_recorded(records@, #[trigger] groups@[t].pair),
            forall|t: int| 0 <= t < groups.len() ==> (#[trigger] groups@[t]).edges@ == edges_of_pair(records@, groups@[t].pair, records.len() as int),
            forall|i: int| 0 <= i < records.len() ==> pair_grouped(groups@, #[trigger] records@[i].pair),
        decreases records.len() - groups.len(),
    {
        let nxt = next_pair(records, last);
        match nxt {
            None => {
                proof {
                    assert forall|i: int| 0 <= i < records.len() implies pair_grouped(groups@, #[trigger] records@[i].pair) by {
                        assert(!pair_after(last, records@[i].pair));
                    }
                }
                break;
            },
            Some(p) => {
                proof {
                    let w = choose|i: int| 0 <= i < records.len() && #[trigger] records@[i].pair == p;
                    if groups.len() >= records.len() {
                        // all groups are distinct recorded pairs, and p is a new one
                        lemma_distinct_pairs_bound(records@, groups@, p);
                    }
                }
                let edges = edges_for_pair(records, p);
                let ghost old_groups = groups@;
                groups.push(PairEdges { pair: p, edges });
                proof {
                    assert forall|t1: int, t2: int| 0 <= t1 < t2 < groups.len() implies pair_lt(
                        #[trigger] groups@[t1].pair,
                        #[trigger] groups@[t2].pair,
                    ) by {
                        if t2 == groups.len() - 1 && t2 > 0 {
                            if t1 < t2 - 1 {
                                assert(pair_lt(old_groups[t1].pair, old_groups[t2 - 1].pair));
                            }
                        }
                    }
                    assert forall|i: int|
                        0 <= i < records.len() && !pair_after(Some(p), #[trigger] records@[i].pair) implies pair_grouped(
                            groups@,
                            records@[i].pair,
                        ) by {
                        let rp = records@[i].pair;
                        if rp == p {
                            assert(groups@[groups.len() - 1].pair == rp);
                        } else {
                            if pair_after(last, rp) {
                                assert(!pair_lt(rp, p));
                                assert(false);
                            }
                            let t = choose|t: int| 0 <= t < old_groups.len() && #[trigger] old_groups[t].pair == rp;
                            assert(groups@[t].pair == rp);
                        }
                    }
                }
                last = Some(p);
            },
        }
    }
    groups
}

/// The strict lexicographic order on surface pairs, as a closure.
pub open spec fn pair_order() -> spec_fn(SurfacePair, SurfacePair) -> bool {
    |a: SurfacePair, b: SurfacePair| pair_lt(a, b)
}

/// The boundary records of the whole mesh.
pub open spec fn mesh_boundary_records(faces: Seq<MeshFace>, fts: Seq<usize>) -> Seq<BoundaryRecord> {
    boundary_records(faces, fts, faces.len() as int)
}

/// The distinct surface pairs of some records, ascending.
pub open spec fn recorded_pairs(records: Seq<BoundaryRecord>) -> Seq<SurfacePair> {
    choose|ps: Seq<SurfacePair>|
        sorted_by(ps, pair_order()) && forall|p: SurfacePair| #[trigger] ps.contains(p) <==> pair_recorded(records, p)
}

/// The boundary edges of the mesh grouped by surface pair: pairs ascending, each with its
/// edges in face and edge order.
pub open spec fn mesh_pair_groups(faces: Seq<MeshFace>, fts: Seq<usize>) -> Seq<(SurfacePair, Seq<UndirectedEdge>)> {
    let recs = mesh_boundary_records(faces, fts);
    let ps = recorded_pairs(recs);
    Seq::new(ps.len(), |t: int| (ps[t], edges_of_pair(recs, ps[t], recs.len() as int)))
}

/// The groups by value.
pub open spec fn groups_view(groups: Seq<PairEdges>) -> Seq<(SurfacePair, Seq<UndirectedEdge>)> {
    Seq::new(groups.len(), |t: int| (groups[t].pair, groups[t].edges@))
}

/// A pair of two different surfaces, smaller first, the larger owning some face.
pub open spec fn pair_of_owners(fts: Seq<usize>, p: SurfacePair) -> bool {
    p.0 < p.1 && exists|f: int| 0 <= f < fts.len() && fts[f] == p.1
}

proof fn lemma_face_records_pairs(faces: Seq<MeshFace>, fts: Seq<usize>, f: int, e: int)
    requires
        neighbors_well_formed(faces),
        fts.len() == faces.len(),
        0 <= f < faces.len(),
        0 <= e <= faces[f].vertex_count,
    ensures
        forall|i: int| 0 <= i < face_records(faces, fts, f, e).len() ==> pair_of_owners(fts, #[trigger] face_records(faces, fts, f, e)[i].pair),
    decreases e,
{
    if e > 0 {
        lemma_face_records_pairs(faces, fts, f, e - 1);
        let r0 = face_records(faces, fts, f, e - 1);
        let r = face_records(faces, fts, f, e);
        if is_boundary_slot(faces, fts, f, e - 1) {
            let ni = faces[f].neighbors@[e - 1] as int;
            assert(-1 <= faces[f].neighbors@[e - 1] < faces.len());
            let p = slot_record(faces, fts, f, e - 1).pair;
            assert(pair_of_owners(fts, p)) by {
                if fts[f] <= fts[ni] {
                    assert(fts[ni] == p.1);
                } else {
                    assert(fts[f] == p.1);
                }
            }
            assert forall|i: int| 0 <= i < r.len() implies pair_of_owners(fts, #[trigger] r[i].pair) by {
                if i < r0.len() {
                    assert(r[i] == r0[i]);
                }
            }
        }
    }
}

/// Every boundary record is between two different surfaces, smaller first.
proof fn lemma_records_pairs(faces: Seq<MeshFace>, fts: Seq<usize>, n: int)
    requires
        neighbors_well_formed(faces),
        fts.len() == faces.len(),
        0 <= n <= faces.len(),
    ensures
        forall|i: int| 0 <= i < boundary_records(faces, fts, n).len() ==> pair_of_owners(fts, #[trigger] boundary_records(faces, fts, n)[i].pair),
    decreases n,
{
    if n > 0 {
        lemma_records_pairs(faces, fts, n - 1);
        lemma_face_records_pairs(faces, fts, n - 1, faces[n - 1].vertex_count as int);
        let a = boundary_records(faces, fts, n - 1);
        let b = face_records(faces, fts, n - 1, faces[n - 1].vertex_count as int);
        assert forall|i: int| 0 <= i < (a + b).len() implies pair_of_owners(fts, #[trigger] (a + b)[i].pair) by {
            if i < a.len() {
                assert((a + b)[i] == a[i]);
            } else {
                assert((a + b)[i] == b[i - a.len()]);
            }
        }
    }
}

/// The edges listed for pair `p` are the edges of the records with that pair.
proof fn lemma_edges_of_pair_members(records: Seq<BoundaryRecord>, p: SurfacePair, n: int)
    requires
        0 <= n <= records.len(),
    ensures
        forall|i: int| 0 <= i < n && #[trigger] records[i].pair == p ==> edges_of_pair(records, p, n).contains(records[i].edge),
        forall|x: UndirectedEdge|
            #[trigger] edges_of_pair(records, p, n).contains(x) ==> exists|i: int|
                0 <= i < n && #[trigger] records[i].pair == p && records[i].edge == x,
    decreases n,
{
    if n > 0 {
        lemma_edges_of_pair_members(records, p, n - 1);
        let a = edges_of_pair(records, p, n - 1);
        let b = edges_of_pair(records, p, n);
        assert forall|i: int| 0 <= i < n && #[trigger] records[i].pair == p implies b.contains(records[i].edge) by {
            if i < n - 1 {
                let j = choose|j: int| 0 <= j < a.len() && a[j] == records[i].edge;
                if records[n - 1].pair == p {
                    assert(b[j] == a[j]);
                } else {
                    assert(b == a);
                }
            } else {
                assert(b[b.len() - 1] == records[i].edge);
            }
        }
        assert forall|x: UndirectedEdge| #[trigger] b.contains(x) implies exists|i: int|
            0 <= i < n && #[trigger] records[i].pair == p && records[i].edge == x by {
            let j = choose|j: int| 0 <= j < b.len() && b[j] == x;
            if j < a.len() {
                if records[n - 1].pair == p {
                    assert(b[j] == a[j]);
                } else {
                    assert(b == a);
                }
                assert(a.contains(a[j]));
                let i = choose|i: int| 0 <= i < n - 1 && #[trigger] records[i].pair == p && records[i].edge == a[j];
            } else {
                assert(records[n - 1].pair == p);
                assert(b[j] == records[n - 1].edge);
            }
        }
    }
}

/// Slot (`f`, `e`) comes before slot (`g`, `k`) in face and edge order.
pub open spec fn slot_before(a: (int, int), b: (int, int)) -> bool {
    a.0 < b.0 || (a.0 == b.0 && a.1 < b.1)
}

/// `edges` are the edges of the slots `sl`, in order: each slot is an edge slot of a face
/// whose neighbor across it is a later face on another surface, with surface pair `pair`;
/// the slots run in face and edge order; and every such slot with that pair is among them.
pub open spec fn lists_pair_slots(
    faces: Seq<MeshFace>,
    fts: Seq<usize>,
    pair: SurfacePair,
    edges: Seq<UndirectedEdge>,
    sl: Seq<(int, int)>,
) -> bool {
    &&& sl.len() == edges.len()
    &&& forall|j: int|
        #![trigger sl[j]]
        0 <= j < sl.len() ==> {
            let (f, e) = sl[j];
            &&& 0 <= f < faces.len()
            &&& 0 <= e < faces[f].vertex_count
            &&& faces[f].neighbors@[e] >= 0
            &&& f < faces[f].neighbors@[e]
            &&& fts[f] != fts[faces[f].neighbors@[e] as int]
            &&& spec_pair(fts[f], fts[faces[f].neighbors@[e] as int]) == pair
            &&& edges[j] == spec_edge(faces[f].vertex_indices@[e], faces[f].vertex_indices@[(e + 1) % (faces[f].vertex_count as int)])
        }
    &&& forall|j1: int, j2: int| 0 <= j1 < j2 < sl.len() ==> slot_before(#[trigger] sl[j1], #[trigger] sl[j2])
    &&& forall|f: int, e: int|
        0 <= f < faces.len() && 0 <= e < faces[f].vertex_count && #[trigger] faces[f].neighbors@[e] >= 0 && f
            < faces[f].neighbors@[e] && fts[f] != fts[faces[f].neighbors@[e] as int] && spec_pair(
            fts[f],
            fts[faces[f].neighbors@[e] as int],
        ) == pair ==> sl.contains((f, e))
}

/// Group `g` lists the edges of the boundary slots of its pair, once each, in face and edge
/// order.
pub open spec fn group_lists_slots(faces: Seq<MeshFace>, fts: Seq<usize>, g: PairEdges) -> bool {
    exists|sl: Seq<(int, int)>| lists_pair_slots(faces, fts, g.pair, g.edges@, sl)
}

/// The boundary slots among the first `e` of face `f`, in order.
spec fn face_slots(faces: Seq<MeshFace>, fts: Seq<usize>, f: int, e: int) -> Seq<(int, int)>
    decreases e,
{
    if e <= 0 {
        Seq::empty()
    } else if is_boundary_slot(faces, fts, f, e - 1) {
        face_slots(faces, fts, f, e - 1).push((f, e - 1))
    } else {
        face_slots(faces, fts, f, e - 1)
    }
}

/// The boundary slots of the first `n` faces, in face and edge order.
spec fn record_slots(faces: Seq<MeshFace>, fts: Seq<usize>, n: int) -> Seq<(int, int)>
    decreases n,
{
    if n <= 0 {
        Seq::empty()
    } else {
        record_slots(faces, fts, n - 1) + face_slots(faces, fts, n - 1, faces[n - 1].vertex_count as int)
    }
}

proof fn lemma_face_slots(faces: Seq<MeshFace>, fts: Seq<usize>, f: int, e: int)
    requires
        0 <= e,
    ensures
        face_slots(faces, fts, f, e).len() == face_records(faces, fts, f, e).len(),
        forall|i: int|
            #![trigger face_slots(faces, fts, f, e)[i]]
            0 <= i < face_slots(faces, fts, f, e).len() ==> {
                let sl = face_slots(faces, fts, f, e)[i];
                &&& sl.0 == f
                &&& 0 <= sl.1 < e
                &&& is_boundary_slot(faces, fts, f, sl.1)
                &&& face_records(faces, fts, f, e)[i] == slot_record(faces, fts, f, sl.1)
            },
        forall|i1: int, i2: int|
            0 <= i1 < i2 < face_slots(faces, fts, f, e).len() ==> (#[trigger] face_slots(faces, fts, f, e)[i1]).1
                < (#[trigger] face_slots(faces, fts, f, e)[i2]).1,
        forall|e2: int| 0 <= e2 < e && #[trigger] is_boundary_slot(faces, fts, f, e2) ==> face_slots(faces, fts, f, e).contains((f, e2)),
    decreases e,
{
    if e > 0 {
        lemma_face_slots(faces, fts, f, e - 1);
        let a = face_slots(faces, fts, f, e - 1);
        let b = face_slots(faces, fts, f, e);
        let ra = face_records(faces, fts, f, e - 1);
        let rb = face_records(faces, fts, f, e);
        if is_boundary_slot(faces, fts, f, e - 1) {
            assert forall|i: int| #![trigger b[i]] 0 <= i < b.len() implies {
                let sl = b[i];
                &&& sl.0 == f
                &&& 0 <= sl.1 < e
                &&& is_boundary_slot(faces, fts, f, sl.1)
                &&& rb[i] == slot_record(faces, fts, f, sl.1)
            } by {
                if i < a.len() {
                    assert(b[i] == a[i]);
                    assert(rb[i] == ra[i]);
                }
            }
            assert forall|i1: int, i2: int| 0 <= i1 < i2 < b.len() implies (#[trigger] b[i1]).1 < (#[trigger] b[i2]).1 by {
                assert(b[i1] == a[i1]);
                if i2 < a.len() {
                    assert(b[i2] == a[i2]);
                }
            }
            assert forall|e2: int| 0 <= e2 < e && #[trigger] is_boundary_slot(faces, fts, f, e2) implies b.contains((f, e2)) by {
                if e2 < e - 1 {
                    let i = choose|i: int| 0 <= i < a.len() && a[i] == (f, e2);
                    assert(b[i] == a[i]);
                } else {
                    assert(b[b.len() - 1] == (f, e2));
                }
            }
        }
    }
}

#[verifier::rlimit(40)]
proof fn lemma_record_slots(faces: Seq<MeshFace>, fts: Seq<usize>, n: int)
    requires
        0 <= n <= faces.len(),
    ensures
        record_slots(faces, fts, n).len() == boundary_records(faces, fts, n).len(),
        forall|i: int|
            #![trigger record_slots(faces, fts, n)[i]]
            0 <= i < record_slots(faces, fts, n).len() ==> {
                let sl = record_slots(faces, fts, n)[i];
                &&& 0 <= sl.0 < n
                &&& 0 <= sl.1 < faces[sl.0].vertex_count
                &&& is_boundary_slot(faces, fts, sl.0, sl.1)
                &&& boundary_records(faces, fts, n)[i] == slot_record(faces, fts, sl.0, sl.1)
            },
        forall|i1: int, i2: int|
            0 <= i1 < i2 < record_slots(faces, fts, n).len() ==> slot_before(
                #[trigger] record_slots(faces, fts, n)[i1],
                #[trigger] record_slots(faces, fts, n)[i2],
            ),
        forall|f: int, e: int|
            0 <= f < n && 0 <= e < faces[f].vertex_count && #[trigger] is_boundary_slot(faces, fts, f, e)
                ==> record_slots(faces, fts, n).contains((f, e)),
    decreases n,
{
    if n > 0 {
        lemma_record_slots(faces, fts, n - 1);
        let g = n - 1;
        let vc = faces[g].vertex_count as int;
        lemma_face_slots(faces, fts, g, vc);
        let a = record_slots(faces, fts, n - 1);
        let b = face_slots(faces, fts, g, vc);
        let c = record_slots(faces, fts, n);
        let ra = boundary_records(faces, fts, n - 1);
        let rb = face_records(faces, fts, g, vc);
        let rc = boundary_records(faces, fts, n);
        assert(c == a + b);
        assert(rc == ra + rb);
        assert forall|i: int| #![trigger c[i]] 0 <= i < c.len() implies {
            let sl = c[i];
            &&& 0 <= sl.0 < n
            &&& 0 <= sl.1 < faces[sl.0].vertex_count
            &&& is_boundary_slot(faces, fts, sl.0, sl.1)
            &&& rc[i] == slot_record(faces, fts, sl.0, sl.1)
        } by {
            if i < a.len() {
                assert(c[i] == a[i]);
                assert(rc[i] == ra[i]);
            } else {
                assert(c[i] == b[i - a.len()]);
                assert(rc[i] == rb[i - a.len()]);
            }
        }
        assert forall|i1: int, i2: int| 0 <= i1 < i2 < c.len() implies slot_before(#[trigger] c[i1], #[trigger] c[i2]) by {
            if i2 < a.len() {
                assert(c[i1] == a[i1] && c[i2] == a[i2]);
            } else if i1 < a.len() {
                assert(c[i1] == a[i1] && c[i2] == b[i2 - a.len()]);
                assert(a[i1].0 < g);
            } else {
                assert(c[i1] == b[i1 - a.len()] && c[i2] == b[i2 - a.len()]);
            }
        }
        assert forall|f: int, e: int| 0 <= f < n && 0 <= e < faces[f].vertex_count && #[trigger] is_boundary_slot(faces, fts, f, e) implies c.contains(
            (f, e),
        ) by {
            if f < n - 1 {
                let i = choose|i: int| 0 <= i < a.len() && a[i] == (f, e);
                assert(c[i] == a[i]);
            } else {
                let i = choose|i: int| 0 <= i < b.len() && b[i] == (f, e);
                assert(c[a.len() + i] == b[i]);
            }
        }
    }
}

/// Indices of the first `n` records with pair `p`, in order.
spec fn pair_indices(records: Seq<BoundaryRecord>, p: SurfacePair, n: int) -> Seq<int>
    decreases n,
{
    if n <= 0 {
        Seq::empty()
    } else if records[n - 1].pair == p {
        pair_indices(records, p, n - 1).push(n - 1)
    } else {
        pair_indices(records, p, n - 1)
    }
}

proof fn lemma_pair_indices(records: Seq<BoundaryRecord>, p: SurfacePair, n: int)
    requires
        0 <= n <= records.len(),
    ensures
        pair_indices(records, p, n).len() == edges_of_pair(records, p, n).len(),
        forall|j: int|
            #![trigger pair_indices(records, p, n)[j]]
            0 <= j < pair_indices(records, p, n).len() ==> {
                let i = pair_indices(records, p, n)[j];
                &&& 0 <= i < n
                &&& records[i].pair == p
                &&& edges_of_pair(records, p, n)[j] == records[i].edge
            },
        forall|j1: int, j2: int|
            0 <= j1 < j2 < pair_indices(records, p, n).len() ==> #[trigger] pair_indices(records, p, n)[j1]
                < #[trigger] pair_indices(records, p, n)[j2],
        forall|i: int| 0 <= i < n && #[trigger] records[i].pair == p ==> pair_indices(records, p, n).contains(i),
    decreases n,
{
    if n > 0 {
        lemma_pair_indices(records, p, n - 1);
        let a = pair_indices(records, p, n - 1);
        let b = pair_indices(records, p, n);
        let ea = edges_of_pair(records, p, n - 1);
        let eb = edges_of_pair(records, p, n);
        if records[n - 1].pair == p {
            assert forall|j: int| #![trigger b[j]] 0 <= j < b.len() implies {
                let i = b[j];
                &&& 0 <= i < n
                &&& records[i].pair == p
                &&& eb[j] == records[i].edge
            } by {
                if j < a.len() {
                    assert(b[j] == a[j]);
                    assert(eb[j] == ea[j]);
                }
            }
            assert forall|j1: int, j2: int| 0 <= j1 < j2 < b.len() implies #[trigger] b[j1] < #[trigger] b[j2] by {
                assert(b[j1] == a[j1]);
                if j2 < a.len() {
                    assert(b[j2] == a[j2]);
                }
            }
            assert forall|i: int| 0 <= i < n && #[trigger] records[i].pair == p implies b.contains(i) by {
                if i < n - 1 {
                    let j = choose|j: int| 0 <= j < a.len() && a[j] == i;
                    assert(b[j] == a[j]);
                } else {
                    assert(b[b.len() - 1] == i);
                }
            }
        } else {
            assert forall|i: int| 0 <= i < n && #[trigger] records[i].pair == p implies b.contains(i) by {
                assert(i < n - 1);
            }
        }
    }
}

/// Each group lists the edges of the boundary slots of its pair, once each, in face and edge
/// order.
proof fn lemma_groups_list_slots(
    faces: Seq<MeshFace>,
    fts: Seq<usize>,
    records: Seq<BoundaryRecord>,
    groups: Seq<PairEdges>,
)
    requires
        records == boundary_records(faces, fts, faces.len() as int),
        forall|t: int| 0 <= t < groups.len() ==> (#[trigger] groups[t]).edges@ == edges_of_pair(records, groups[t].pair, records.len() as int),
    ensures
        forall|t: int| 0 <= t < groups.len() ==> #[trigger] group_lists_slots(faces, fts, groups[t]),
{
    let n = faces.len() as int;
    lemma_record_slots(faces, fts, n);
    let rs = record_slots(faces, fts, n);
    assert forall|t: int| 0 <= t < groups.len() implies #[trigger] group_lists_slots(faces, fts, groups[t]) by {
        let p = groups[t].pair;
        let es = groups[t].edges@;
        lemma_pair_indices(records, p, records.len() as int);
        let idx = pair_indices(records, p, records.len() as int);
        let sl = Seq::new(idx.len(), |j: int| rs[idx[j]]);
        assert forall|j: int| #![trigger sl[j]] 0 <= j < sl.len() implies {
            let (f, e) = sl[j];
            &&& 0 <= f < faces.len()
            &&& 0 <= e < faces[f].vertex_count
            &&& faces[f].neighbors@[e] >= 0
            &&& f < faces[f].neighbors@[e]
            &&& fts[f] != fts[faces[f].neighbors@[e] as int]
            &&& spec_pair(fts[f], fts[faces[f].neighbors@[e] as int]) == p
            &&& es[j] == spec_edge(faces[f].vertex_indices@[e], faces[f].vertex_indices@[(e + 1) % (faces[f].vertex_count as int)])
        } by {
            let i = idx[j];
            assert(rs[i] == sl[j]);
            let (f, e) = rs[i];
            assert(records[i] == slot_record(faces, fts, f, e));
        }
        assert forall|j1: int, j2: int| 0 <= j1 < j2 < sl.len() implies slot_before(#[trigger] sl[j1], #[trigger] sl[j2]) by {
            assert(idx[j1] < idx[j2]);
            assert(slot_before(rs[idx[j1]], rs[idx[j2]]));
        }
        assert forall|f: int, e: int|
            0 <= f < faces.len() && 0 <= e < faces[f].vertex_count && #[trigger] faces[f].neighbors@[e] >= 0 && f
                < faces[f].neighbors@[e] && fts[f] != fts[faces[f].neighbors@[e] as int] && spec_pair(
                fts[f],
                fts[faces[f].neighbors@[e] as int],
            ) == p implies sl.contains((f, e)) by {
            assert(is_boundary_slot(faces, fts, f, e));
            let i = choose|i: int| 0 <= i < rs.len() && rs[i] == (f, e);
            assert(records[i] == slot_record(faces, fts, f, e));
            assert(records[i].pair == p);
            let j = choose|j: int| 0 <= j < idx.len() && idx[j] == i;
            assert(sl[j] == (f, e));
        }
        assert(lists_pair_slots(faces, fts, p, es, sl));
    }
}

/// Collect the mesh edges on boundaries between different selected surfaces, grouped by
/// surface pair in ascending order.
pub fn collect_boundary_edges(faces: &Vec<MeshFace>, face_to_surface: &Vec<usize>) -> (r: Vec<PairEdges>)
    requires
        face_to_surface.len() == faces.len(),
        neighbors_well_formed(faces@),
    ensures
        groups_view(r@) == mesh_pair_groups(faces@, face_to_surface@),
        forall|t: int| 0 <= t < r.len() ==> pair_of_owners(face_to_surface@, #[trigger] r@[t].pair),
        forall|t: int| 0 <= t < r.len() ==> #[trigger] group_lists_slots(faces@, face_to_surface@, r@[t]),
        forall|t1: int, t2: int| 0 <= t1 < t2 < r.len() ==> pair_lt(#[trigger] r@[t1].pair, #[trigger] r@[t2].pair),
        forall|f: int, e: int|
            0 <= f < faces.len() && 0 <= e < faces@[f].vertex_count && #[trigger] faces@[f].neighbors@[e] >= 0 && f
                < faces@[f].neighbors@[e] && face_to_surface@[f] != face_to_surface@[faces@[f].neighbors@[e] as int]
                ==> exists|t: int|
                0 <= t < r.len() && #[trigger] r@[t].pair == spec_pair(
                    face_to_surface@[f],
                    face_to_surface@[faces@[f].neighbors@[e] as int],
                ) && r@[t].edges@.contains(
                    spec_edge(
                        faces@[f].vertex_indices@[e],
                        faces@[f].vertex_indices@[(e + 1) % (faces@[f].vertex_count as int)],
                    ),
                ),
        forall|t: int, x: UndirectedEdge|
            0 <= t < r.len() && #[trigger] r@[t].edges@.contains(x) ==> exists|f: int, e: int|
                0 <= f < faces.len() && 0 <= e < faces@[f].vertex_count && #[trigger] faces@[f].neighbors@[e] >= 0 && f
                    < faces@[f].neighbors@[e] && face_to_surface@[f] != face_to_surface@[faces@[f].neighbors@[e] as int]
                    && r@[t].pair == spec_pair(face_to_surface@[f], face_to_surface@[faces@[f].neighbors@[e] as int])
                    && x == spec_edge(
                    faces@[f].vertex_indices@[e],
                    faces@[f].vertex_indices@[(e + 1) % (faces@[f].vertex_count as int)],
                ),
{
    let records = collect_boundary_records(faces, face_to_surface);
    let groups = group_by_pair(&records);
    proof {
        lemma_records_pairs(faces@, face_to_surface@, faces.len() as int);
        assert forall|t: int| 0 <= t < groups.len() implies pair_of_owners(face_to_surface@, #[trigger] groups@[t].pair) by {
            assert(pair_recorded(records@, groups@[t].pair));
            let i = choose|i: int| 0 <= i < records.len() && #[trigger] records@[i].pair == groups@[t].pair;
        }
        let recs = records@;
        let ps = Seq::new(groups.len() as nat, |t: int| groups@[t].pair);
        assert(sorted_by(ps, pair_order()));
        assert forall|p: SurfacePair| #[trigger] ps.contains(p) <==> pair_recorded(recs, p) by {
            if ps.contains(p) {
                let t = choose|t: int| 0 <= t < ps.len() && ps[t] == p;
                assert(pair_recorded(recs, groups@[t].pair));
            }
            if pair_recorded(recs, p) {
                let i = choose|i: int| 0 <= i < recs.len() && #[trigger] recs[i].pair == p;
                assert(pair_grouped(groups@, recs[i].pair));
                let t = choose|t: int| 0 <= t < groups.len() && #[trigger] groups@[t].pair == p;
                assert(ps[t] == p);
            }
        }
        let c = recorded_pairs(recs);
        assert(sorted_by(c, pair_order()) && forall|p: SurfacePair| #[trigger] c.contains(p) <==> pair_recorded(recs, p));
        assert forall|x: SurfacePair, y: SurfacePair| #![trigger pair_order()(x, y), pair_order()(y, x)]
            !(pair_order()(x, y) && pair_order()(y, x)) by {}
        lemma_sorted_unique(c, ps, pair_order());
        assert(groups_view(groups@) =~= mesh_pair_groups(faces@, face_to_surface@));
        lemma_boundary_slots_grouped(faces@, face_to_surface@, records@, groups@);
        lemma_groups_list_slots(faces@, face_to_surface@, records@, groups@);
    }
    groups
}

/// Every boundary slot's edge is listed under its pair, and every listed edge is the edge of
/// a boundary slot of that pair.
proof fn lemma_boundary_slots_grouped(
    faces: Seq<MeshFace>,
    fts: Seq<usize>,
    records: Seq<BoundaryRecord>,
    groups: Seq<PairEdges>,
)
    requires
        records == boundary_records(faces, fts, faces.len() as int),
        forall|i: int| 0 <= i < records.len() ==> pair_grouped(groups, #[trigger] records[i].pair),
        forall|t: int| 0 <= t < groups.len() ==> (#[trigger] groups[t]).edges@ == edges_of_pair(records, groups[t].pair, records.len() as int),
    ensures
        forall|f: int, e: int|
            0 <= f < faces.len() && 0 <= e < faces[f].vertex_count && #[trigger] faces[f].neighbors@[e] >= 0 && f
                < faces[f].neighbors@[e] && fts[f] != fts[faces[f].neighbors@[e] as int] ==> exists|t: int|
                0 <= t < groups.len() && #[trigger] groups[t].pair == spec_pair(fts[f], fts[faces[f].neighbors@[e] as int])
                    && groups[t].edges@.contains(
                    spec_edge(faces[f].vertex_indices@[e], faces[f].vertex_indices@[(e + 1) % (faces[f].vertex_count as int)]),
                ),
        forall|t: int, x: UndirectedEdge|
            0 <= t < groups.len() && #[trigger] groups[t].edges@.contains(x) ==> exists|f: int, e: int|
                0 <= f < faces.len() && 0 <= e < faces[f].vertex_count && #[trigger] faces[f].neighbors@[e] >= 0 && f
                    < faces[f].neighbors@[e] && fts[f] != fts[faces[f].neighbors@[e] as int] && groups[t].pair == spec_pair(
                    fts[f],
                    fts[faces[f].neighbors@[e] as int],
                ) && x == spec_edge(
                    faces[f].vertex_indices@[e],
                    faces[f].vertex_indices@[(e + 1) % (faces[f].vertex_count as int)],
                ),
{
    let n = faces.len() as int;
    lemma_record_slots(faces, fts, n);
    let rs = record_slots(faces, fts, n);
    assert forall|f: int, e: int|
        0 <= f < faces.len() && 0 <= e < faces[f].vertex_count && #[trigger] faces[f].neighbors@[e] >= 0 && f
            < faces[f].neighbors@[e] && fts[f] != fts[faces[f].neighbors@[e] as int] implies exists|t: int|
            0 <= t < groups.len() && #[trigger] groups[t].pair == spec_pair(fts[f], fts[faces[f].neighbors@[e] as int])
                && groups[t].edges@.contains(
                spec_edge(faces[f].vertex_indices@[e], faces[f].vertex_indices@[(e + 1) % (faces[f].vertex_count as int)]),
            ) by {
        assert(is_boundary_slot(faces, fts, f, e));
        let rec = slot_record(faces, fts, f, e);
        let i = choose|i: int| 0 <= i < rs.len() && rs[i] == (f, e);
        assert(records[i] == rec);
        assert(pair_grouped(groups, records[i].pair));
        let t = choose|t: int| 0 <= t < groups.len() && #[trigger] groups[t].pair == records[i].pair;
        lemma_edges_of_pair_members(records, rec.pair, records.len() as int);
        assert(groups[t].edges@ == edges_of_pair(records, groups[t].pair, records.len() as int));
        assert(edges_of_pair(records, rec.pair, records.len() as int).contains(records[i].edge));
    }
    assert forall|t: int, x: UndirectedEdge| 0 <= t < groups.len() && #[trigger] groups[t].edges@.contains(x) implies exists|f: int, e: int|
        0 <= f < faces.len() && 0 <= e < faces[f].vertex_count && #[trigger] faces[f].neighbors@[e] >= 0 && f
            < faces[f].neighbors@[e] && fts[f] != fts[faces[f].neighbors@[e] as int] && groups[t].pair == spec_pair(
            fts[f],
            fts[faces[f].neighbors@[e] as int],
        ) && x == spec_edge(
            faces[f].vertex_indices@[e],
            faces[f].vertex_indices@[(e + 1) % (faces[f].vertex_count as int)],
        ) by {
        let p = groups[t].pair;
        lemma_edges_of_pair_members(records, p, records.len() as int);
        assert(groups[t].edges@ == edges_of_pair(records, p, records.len() as int));
        let es = edges_of_pair(records, p, records.len() as int);
        assert(es.contains(x));
        let i = choose|i: int| 0 <= i < records.len() && #[trigger] records[i].pair == p && records[i].edge == x;
        let (f, e) = rs[i];
        assert(records[i] == slot_record(faces, fts, f, e));
        assert(faces[f].neighbors@[e] >= 0);
    }
}

/// Strictly increasing recorded pairs, all below a further recorded pair `p`, are fewer
/// than the records.
proof fn lemma_distinct_pairs_bound(records: Seq<BoundaryRecord>, groups: Seq<PairEdges>, p: SurfacePair)
    requires
        forall|t1: int, t2: int| 0 <= t1 < t2 < groups.len() ==> pair_lt(#[trigger] groups[t1].pair, #[trigger] groups[t2].pair),
        forall|t: int| 0 <= t < groups.len() ==> pair_recorded(records, #[trigger] groups[t].pair),
        forall|t: int| 0 <= t < groups.len() ==> pair_lt(#[trigger] groups[t].pair, p),
        pair_recorded(records, p),
    ensures
        groups.len() < records.len(),
{
    // Map each group, and p, to a record index; these indices are distinct.
    let idx = Seq::new(groups.len(), |t: int| choose|i: int| 0 <= i < records.len() && #[trigger] records[i].pair == groups[t].pair);
    let ip = choose|i: int| 0 <= i < records.len() && #[trigger] records[i].pair == p;
    let all = idx.push(ip);
    assert forall|t: int| 0 <= t < all.len() implies 0 <= #[trigger] all[t] < records.len() by {
        if t < groups.len() {
            assert(pair_recorded(records, groups[t].pair));
        }
    }
    assert forall|t1: int, t2: int| 0 <= t1 < t2 < all.len() implies #[trigger] all[t1] != #[trigger] all[t2] by {
        assert(pair_recorded(records, groups[t1].pair));
        if t2 < groups.len() {
            assert(pair_recorded(records, groups[t2].pair));
            assert(pair_lt(groups[t1].pair, groups[t2].pair));
        } else {
            assert(pair_lt(groups[t1].pair, p));
        }
    }
    lemma_distinct_indices_bound(all, records.len() as int);
}

/// A duplicate-free sequence of indices below `n` has at most `n` elements.
proof fn lemma_distinct_indices_bound(s: Seq<int>, n: int)
    requires
        0 <= n,
        forall|t: int| 0 <= t < s.len() ==> 0 <= #[trigger] s[t] < n,
        forall|t1: int, t2: int| 0 <= t1 < t2 < s.len() ==> #[trigger] s[t1] != #[trigger] s[t2],
    ensures
        s.len() <= n,
{
    assert(s.no_duplicates()) by {
        assert forall|t1: int, t2: int| 0 <= t1 < s.len() && 0 <= t2 < s.len() && t1 != t2 implies s[t1] != s[t2] by {
            if t1 < t2 {
                assert(s[t1] != s[t2]);
            } else {
                assert(s[t2] != s[t1]);
            }
        }
    }
    s.unique_seq_to_set();
    vstd::set_lib::lemma_int_range(0, n);
    assert(s.to_set().subset_of(vstd::set_lib::set_int_range(0, n)));
    vstd::set_lib::lemma_len_subset(s.to_set(), vstd::set_lib::set_int_range(0, n));
}

/// Strictly increasing sequence.
pub open spec fn strictly_increasing(s: Seq<usize>) -> bool {
    forall|a: int, b: int| 0 <= a < b < s.len() ==> #[trigger] s[a] < #[trigger] s[b]
}

/// Two strictly increasing lists with the same elements are equal.
pub proof fn lemma_ascending_unique(a: Seq<usize>, b: Seq<usize>)
    requires
        strictly_increasing(a),
        strictly_increasing(b),
        forall|v: usize| #![trigger a.contains(v)] #![trigger b.contains(v)] a.contains(v) <==> b.contains(v),
    ensures
        a == b,
{
    let lt = |x: usize, y: usize| x < y;
    assert(sorted_by(a, lt));
    assert(sorted_by(b, lt));
    lemma_sorted_unique(a, b, lt);
}

/// Insert `x` into a strictly increasing list unless it is already there.
pub fn insert_sorted(list: &mut Vec<usize>, x: usize)
    requires
        strictly_increasing(old(list)@),
    ensures
        strictly_increasing(final(list)@),
        forall|y: usize| #[trigger] final(list)@.contains(y) <==> (old(list)@.contains(y) || y == x),
{
    let mut pos: usize = 0;
    while pos < list.len() && list[pos] < x
        invariant
            pos <= list.len(),
            forall|q: int| 0 <= q < pos ==> #[trigger] list@[q] < x,
        decreases list.len() - pos,
    {
        pos += 1;
    }
    if pos < list.len() && list[pos] == x {
        return;
    }
    let ghost l0 = list@;
    list.insert(pos, x);
    proof {
        let l1 = list@;
        assert forall|a: int, b: int| 0 <= a < b < l1.len() implies #[trigger] l1[a] < #[trigger] l1[b] by {
            if b < pos {
                assert(l1[a] == l0[a] && l1[b] == l0[b]);
            } else if b == pos {
                assert(l1[a] == l0[a]);
            } else if a < pos {
                assert(l1[a] == l0[a] && l1[b] == l0[b - 1]);
                assert(l0[b - 1] >= x) by {
                    if b - 1 > pos {
                        assert(l0[pos as int] < l0[b - 1]);
                    }
                }
            } else if a == pos {
                assert(l1[b] == l0[b - 1]);
                assert(l0[pos as int] > x);
                if b - 1 > pos {
                    assert(l0[pos as int] < l0[b - 1]);
                }
            } else {
                assert(l1[a] == l0[a - 1] && l1[b] == l0[b - 1]);
            }
        }
        assert forall|y: usize| #[trigger] l1.contains(y) <==> (l0.contains(y) || y == x) by {
            if l1.contains(y) {
                let q = choose|q: int| 0 <= q < l1.len() && l1[q] == y;
                if q < pos {
                    assert(l0[q] == y);
                } else if q > pos {
                    assert(l0[q - 1] == y);
                }
            }
            if l0.contains(y) {
                let q = choose|q: int| 0 <= q < l0.len() && l0[q] == y;
                if q < pos {
                    assert(l1[q] == y);
                } else {
                    assert(l1[q + 1] == y);
                }
            }
            if y == x {
                assert(l1[pos as int] == x);
            }
        }
    }
}

/// Surface `s` owns a face that has vertex `v` among its first `vertex_count` corners.
pub open spec fn surface_at_vertex(faces: Seq<MeshFace>, fts: Seq<usize>, v: usize, s: usize) -> bool {
    exists|f: int, k: int|
        0 <= f < faces.len() && 0 <= k < faces[f].vertex_count && #[trigger] faces[f].vertex_indices@[k] == v && fts[f] == s
}

/// Like `surface_at_vertex`, over faces before `f` and the first `k` corners of face `f`.
spec fn surface_at_vertex_upto(faces: Seq<MeshFace>, fts: Seq<usize>, v: usize, s: usize, f: int, k: int) -> bool {
    exists|g: int, j: int|
        0 <= g <= f && g < faces.len() && 0 <= j < faces[g].vertex_count && (g < f || j < k)
            && #[trigger] faces[g].vertex_indices@[j] == v && fts[g] == s
}

/// At least three distinct surfaces meet at vertex `v`.
pub open spec fn is_corner_vertex(faces: Seq<MeshFace>, fts: Seq<usize>, v: usize) -> bool {
    exists|s1: usize, s2: usize, s3: usize|
        s1 < s2 < s3 && #[trigger] surface_at_vertex(faces, fts, v, s1) && #[trigger] surface_at_vertex(faces, fts, v, s2)
            && #[trigger] surface_at_vertex(faces, fts, v, s3)
}

/// A mesh vertex where three or more surfaces meet, with those surfaces ascending.
#[derive(Debug)]
pub struct CornerVertex {
    pub vertex: usize,
    pub surfaces: Vec<usize>,
}

fn copy_indices(v: &Vec<usize>) -> (r: Vec<usize>)
    ensures
        r@ == v@,
{
    let mut r: Vec<usize> = Vec::new();
    let mut i: usize = 0;
    while i < v.len()
        invariant
            i <= v.len(),
            r@ == v@.take(i as int),
        decreases v.len() - i,
    {
        r.push(v[i]);
        i += 1;
        proof {
            assert(v@.take(i as int) == v@.take(i - 1 as int).push(v@[i - 1]));
        }
    }
    proof {
        assert(v@.take(v.len() as int) == v@);
    }
    r
}

/// Faces have 1 to 4 corners, all valid vertices.
pub open spec fn corners_in_range(faces: Seq<MeshFace>, num_vertices: nat) -> bool {
    &&& forall|g: int| 0 <= g < faces.len() ==> 1 <= (#[trigger] faces[g]).vertex_count <= 4
    &&& forall|g: int, k: int|
        0 <= g < faces.len() && 0 <= k < faces[g].vertex_count ==> (#[trigger] faces[g].vertex_indices@[k]) < num_vertices
}

/// Find the mesh vertices where three or more selected surfaces meet, ascending.
pub fn find_corner_vertices(faces: &Vec<MeshFace>, face_to_surface: &Vec<usize>, num_vertices: usize) -> (r: Vec<CornerVertex>)
    requires
        face_to_surface.len() == faces.len(),
        corners_in_range(faces@, num_vertices as nat),
    ensures
        forall|a: int, b: int| 0 <= a < b < r.len() ==> #[trigger] r@[a].vertex < #[trigger] r@[b].vertex,
        forall|a: int|
            0 <= a < r.len() ==> {
                let c = #[trigger] r@[a];
                &&& c.vertex < num_vertices
                &&& strictly_increasing(c.surfaces@)
                &&& c.surfaces.len() >= 3
                &&& forall|s: usize| #[trigger] c.surfaces@.contains(s) <==> surface_at_vertex(faces@, face_to_surface@, c.vertex, s)
            },
        forall|v: usize|
            v < num_vertices && #[trigger] is_corner_vertex(faces@, face_to_surface@, v) ==> exists|a: int|
                0 <= a < r.len() && #[trigger] r@[a].vertex == v,
{
    let ghost fs = faces@;
    let ghost fts = face_to_surface@;
    let mut vs: Vec<Vec<usize>> = Vec::new();
    let mut v: usize = 0;
    while v < num_vertices
        invariant
            v <= num_vertices,
            vs.len() == v,
            forall|w: int| 0 <= w < v ==> (#[trigger] vs@[w])@ == Seq::<usize>::empty(),
        decreases num_vertices - v,
    {
        vs.push(Vec::new());
        v += 1;
    }
    let mut f: usize = 0;
    while f < faces.len()
        invariant
            f <= faces.len(),
            fs == faces@,
            fts == face_to_surface@,
            face_to_surface.len() == faces.len(),
            corners_in_range(faces@, num_vertices as nat),
            vs.len() == num_vertices,
            forall|w: int| 0 <= w < num_vertices ==> strictly_increasing(#[trigger] vs@[w]@),
            forall|w: int, s: usize|
                0 <= w < num_vertices ==> (#[trigger] vs@[w]@.contains(s) <==> surface_at_vertex_upto(fs, fts, w as usize, s, f as int, 0)),
        decreases faces.len() - f,
    {
        let face = faces[f];
        let vc = face.vertex_count as usize;
        let s = face_to_surface[f];
        let mut k: usize = 0;
        while k < vc
            invariant
                f < faces.len(),
                fs == faces@,
                fts == face_to_surface@,
                face == fs[f as int],
                s == fts[f as int],
                vc == face.vertex_count,
                1 <= vc <= 4,
                k <= vc,
                face_to_surface.len() == faces.len(),
                corners_in_range(faces@, num_vertices as nat),
                vs.len() == num_vertices,
                forall|w: int| 0 <= w < num_vertices ==> strictly_increasing(#[trigger] vs@[w]@),
                forall|w: int, t: usize|
                    0 <= w < num_vertices ==> (#[trigger] vs@[w]@.contains(t) <==> surface_at_vertex_upto(fs, fts, w as usize, t, f as int, k as int)),
            decreases vc - k,
        {
            let vi = face.vertex_indices[k];
            proof {
                assert(fs[f as int].vertex_indices@[k as int] < num_vertices);
            }
            let ghost old_vs = vs@;
            insert_sorted(&mut vs[vi], s);
            proof {
                assert forall|w: int| 0 <= w < num_vertices implies strictly_increasing(#[trigger] vs@[w]@) by {
                    if w != vi as int {
                        assert(vs@[w] == old_vs[w]);
                    }
                }
                assert forall|w: int, t: usize|
                    0 <= w < num_vertices implies (#[trigger] vs@[w]@.contains(t) <==> surface_at_vertex_upto(
                        fs,
                        fts,
                        w as usize,
                        t,
                        f as int,
                        k + 1 as int,
                    )) by {
                    if w != vi as int {
                        assert(vs@[w] == old_vs[w]);
                    }
                    if surface_at_vertex_upto(fs, fts, w as usize, t, f as int, k + 1 as int) {
                        let (g, j) = choose|g: int, j: int|
                            0 <= g <= f && g < fs.len() && 0 <= j < fs[g].vertex_count && (g < f || j < k + 1)
                                && #[trigger] fs[g].vertex_indices@[j] == w as usize && fts[g] == t;
                        if !(g == f as int && j == k as int) {
                            assert(surface_at_vertex_upto(fs, fts, w as usize, t, f as int, k as int));
                        }
                    }
                    if w == vi as int && t == s {
                        assert(fs[f as int].vertex_indices@[k as int] == w as usize);
                        assert(surface_at_vertex_upto(fs, fts, w as usize, t, f as int, k + 1 as int));
                    }
                    if surface_at_vertex_upto(fs, fts, w as usize, t, f as int, k as int) {
                        let (g, j) = choose|g: int, j: int|
                            0 <= g <= f && g < fs.len() && 0 <= j < fs[g].vertex_count && (g < f || j < k)
                                && #[trigger] fs[g].vertex_indices@[j] == w as usize && fts[g] == t;
                        assert(fs[g].vertex_indices@[j] == w as usize);
                    }
                }
            }
            k += 1;
        }
        proof {
            assert forall|w: int, t: usize|
                0 <= w < num_vertices implies (#[trigger] vs@[w]@.contains(t) <==> surface_at_vertex_upto(fs, fts, w as usize, t, f + 1 as int, 0)) by {
                if surface_at_vertex_upto(fs, fts, w as usize, t, f + 1 as int, 0) {
                    let (g, j) = choose|g: int, j: int|
                        0 <= g <= f + 1 && g < fs.len() && 0 <= j < fs[g].vertex_count && (g < f + 1 || j < 0)
                            && #[trigger] fs[g].vertex_indices@[j] == w as usize && fts[g] == t;
                    assert(fs[g].vertex_indices@[j] == w as usize);
                }
                if surface_at_vertex_upto(fs, fts, w as usize, t, f as int, vc as int) {
                    let (g, j) = choose|g: int, j: int|
                        0 <= g <= f && g < fs.len() && 0 <= j < fs[g].vertex_count && (g < f || j < vc)
                            && #[trigger] fs[g].vertex_indices@[j] == w as usize && fts[g] == t;
                    assert(fs[g].vertex_indices@[j] == w as usize);
                }
            }
        }
        f += 1;
    }
    proof {
        assert forall|w: int, t: usize|
            0 <= w < num_vertices implies (#[trigger] vs@[w]@.contains(t) <==> surface_at_vertex(fs, fts, w as usize, t)) by {
            if surface_at_vertex(fs, fts, w as usize, t) {
                let (g, j) = choose|g: int, j: int|
                    0 <= g < fs.len() && 0 <= j < fs[g].vertex_count && #[trigger] fs[g].vertex_indices@[j] == w as usize && fts[g] == t;
                assert(fs[g].vertex_indices@[j] == w as usize);
                assert(surface_at_vertex_upto(fs, fts, w as usize, t, fs.len() as int, 0));
            }
            if surface_at_vertex_upto(fs, fts, w as usize, t, fs.len() as int, 0) {
                let (g, j) = choose|g: int, j: int|
                    0 <= g <= fs.len() && g < fs.len() && 0 <= j < fs[g].vertex_count && (g < fs.len() || j < 0)
                        && #[trigger] fs[g].vertex_indices@[j] == w as usize && fts[g] == t;
                assert(fs[g].vertex_indices@[j] == w as usize);
            }
        }
    }
    let mut out: Vec<CornerVertex> = Vec::new();
    let mut v: usize = 0;
    while v < num_vertices
        invariant
            v <= num_vertices,
            vs.len() == num_vertices,
            forall|w: int| 0 <= w < num_vertices ==> strictly_increasing(#[trigger] vs@[w]@),
            forall|w: int, t: usize| 0 <= w < num_vertices ==> (#[trigger] vs@[w]@.contains(t) <==> surface_at_vertex(fs, fts, w as usize, t)),
            fs == faces@,
            fts == face_to_surface@,
            forall|a: int, b: int| 0 <= a < b < out.len() ==> #[trigger] out@[a].vertex < #[trigger] out@[b].vertex,
            forall|a: int| 0 <= a < out.len() ==> (#[trigger] out@[a]).vertex < v,
            forall|a: int|
                0 <= a < out.len() ==> {
                    let c = #[trigger] out@[a];
                    &&& c.vertex < num_vertices
                    &&& strictly_increasing(c.surfaces@)
                    &&& c.surfaces.len() >= 3
                    &&& forall|s: usize| #[trigger] c.surfaces@.contains(s) <==> surface_at_vertex(faces@, face_to_surface@, c.vertex, s)
                },
            forall|w: usize|
                w < v && #[trigger] is_corner_vertex(faces@, face_to_surface@, w) ==> exists|a: int|
                    0 <= a < out.len() && #[trigger] out@[a].vertex == w,
        decreases num_vertices - v,
    {
        let list = &vs[v];
        proof {
            if is_corner_vertex(fs, fts, v) {
                let (s1, s2, s3) = choose|s1: usize, s2: usize, s3: usize|
                    s1 < s2 < s3 && #[trigger] surface_at_vertex(fs, fts, v, s1) && #[trigger] surface_at_vertex(fs, fts, v, s2)
                        && #[trigger] surface_at_vertex(fs, fts, v, s3);
                assert(list@.contains(s1) && list@.contains(s2) && list@.contains(s3));
                let p1 = choose|q: int| 0 <= q < list.len() && list@[q] == s1;
                let p2 = choose|q: int| 0 <= q < list.len() && list@[q] == s2;
                let p3 = choose|q: int| 0 <= q < list.len() && list@[q] == s3;
                assert(p1 != p2 && p2 != p3 && p1 != p3);
            }
        }
        if list.len() >= 3 {
            let surfaces = copy_indices(list);
            let ghost old_out = out@;
            out.push(CornerVertex { vertex: v, surfaces });
            proof {
                assert forall|w: usize|
                    w < v + 1 && #[trigger] is_corner_vertex(faces@, face_to_surface@, w) implies exists|a: int|
                        0 <= a < out.len() && #[trigger] out@[a].vertex == w by {
                    if w == v {
                        assert(out@[out.len() - 1].vertex == w);
                    } else {
                        let a = choose|a: int| 0 <= a < old_out.len() && #[trigger] old_out[a].vertex == w;
                        assert(out@[a].vertex == w);
                    }
                }
            }
        }
        v += 1;
    }
    out
}

} // verus!
