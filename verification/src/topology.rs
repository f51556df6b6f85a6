//! Mesh topology validation (stage 1.2): edge uses, manifoldness and orientation
//! statistics, per-edge neighbors, connected shells and closed shells.
//!
//! Geometry does not enter here: whether a face has a computable normal, and whether a
//! closed shell encloses a negative signed volume, are handed in as flags.

use vstd::prelude::*;

verus! {

/// Hypothesis index of a face whose planar hypothesis has not been deduced yet.
pub const UNDEDUCED_PLANAR_HYPOTHESIS: i32 = -2;
/// Hypothesis index of a face that belongs to no hypothesis.
pub const NO_HYPOTHESIS: i32 = -1;
/// Hypothesis index of a face whose cylindrical hypothesis has not been deduced yet.
pub const UNDEDUCED_CYLINDRICAL_HYPOTHESIS: i32 = -2;
/// Hypothesis index of a face whose spherical hypothesis has not been deduced yet.
pub const UNDEDUCED_SPHERICAL_HYPOTHESIS: i32 = -2;
/// Hypothesis index of a face whose conical hypothesis has not been deduced yet.
pub const UNDEDUCED_CONICAL_HYPOTHESIS: i32 = -2;
/// Hypothesis index of a face whose toroidal hypothesis has not been deduced yet.
pub const UNDEDUCED_TOROIDAL_HYPOTHESIS: i32 = -2;

/// The topological part of a mesh face: a triangle or quad given by vertex indices,
/// with one neighbor face index per edge (-1 where there is none).
/// Edge `e` runs from `vertex_indices[e]` to `vertex_indices[(e + 1) % vertex_count]`.
#[derive(Debug, Clone, Copy)]
pub struct MeshFace {
    pub vertex_count: u8,
    pub vertex_indices: [usize; 4],
    pub neighbors: [i32; 4],
    pub planar_hypothesis: i32,
    pub cylindrical_hypothesis: i32,
    pub spherical_hypothesis: i32,
    pub conical_hypothesis: i32,
    pub toroidal_hypothesis: i32,
}

/// Counts gathered while validating a mesh.
#[derive(Debug, Clone, Copy, PartialEq, Eq, Structural)]
pub struct MeshValidationStats {
    pub mesh_faces: usize,
    pub mesh_vertices: usize,
    pub mesh_edges_open: usize,
    pub mesh_edges_non_manifold: usize,
    pub mesh_edges_inconsistent_orientation: usize,
    pub mesh_faces_degenerate: usize,
    pub connected_shells: usize,
    pub solids: usize,
    pub voids_within_solids: usize,
    pub mesh_quads: usize,
}

impl Default for MeshValidationStats {
    fn default() -> (r: Self)
        ensures
            r == (MeshValidationStats {
                mesh_faces: 0,
                mesh_vertices: 0,
                mesh_edges_open: 0,
                mesh_edges_non_manifold: 0,
                mesh_edges_inconsistent_orientation: 0,
                mesh_faces_degenerate: 0,
                connected_shells: 0,
                solids: 0,
                voids_within_solids: 0,
                mesh_quads: 0,
            }),
    {
        MeshValidationStats {
            mesh_faces: 0,
            mesh_vertices: 0,
            mesh_edges_open: 0,
            mesh_edges_non_manifold: 0,
            mesh_edges_inconsistent_orientation: 0,
            mesh_faces_degenerate: 0,
            connected_shells: 0,
            solids: 0,
            voids_within_solids: 0,
            mesh_quads: 0,
        }
    }
}

/// One directed use of an undirected mesh edge by a face.
#[derive(Debug, Clone, Copy, PartialEq, Eq, Structural)]
pub struct EdgeUse {
    pub face_idx: usize,
    pub edge_idx: usize,
    pub start: usize,
    pub end: usize,
}

/// A face is a polygon (and has edges) when it has 3 or 4 vertices.
pub open spec fn is_polygon(face: MeshFace) -> bool {
    3 <= face.vertex_count <= 4
}

/// The edge uses of face number `f`, in edge order; none for a non-polygon.
pub open spec fn face_uses(f: int, face: MeshFace) -> Seq<EdgeUse> {
    if is_polygon(face) {
        Seq::new(
            face.vertex_count as nat,
            |e: int|
                EdgeUse {
                    face_idx: f as usize,
                    edge_idx: e as usize,
                    start: face.vertex_indices@[e],
                    end: face.vertex_indices@[(e + 1) % (face.vertex_count as int)],
                },
        )
    } else {
        Seq::empty()
    }
}

/// All edge uses of a mesh, face by face, edge by edge.
pub open spec fn mesh_uses(faces: Seq<MeshFace>) -> Seq<EdgeUse>
    decreases faces.len(),
{
    if faces.len() == 0 {
        Seq::empty()
    } else {
        mesh_uses(faces.drop_last()) + face_uses(faces.len() - 1, faces.last())
    }
}

/// An undirected mesh edge: its two vertices, smaller first.
#[derive(Debug, Clone, Copy, PartialEq, Eq, Structural)]
pub struct EdgeKey {
    pub lo: usize,
    pub hi: usize,
}

impl EdgeKey {
    /// The edge between `a` and `b`, smaller vertex first.
    pub fn new(a: usize, b: usize) -> (r: Self)
        ensures
            r == (if a <= b { EdgeKey { lo: a, hi: b } } else { EdgeKey { lo: b, hi: a } }),
    {
        if a <= b {
            EdgeKey { lo: a, hi: b }
        } else {
            EdgeKey { lo: b, hi: a }
        }
    }
}

/// The undirected edge of a use: (smaller vertex, larger vertex).
pub open spec fn key_of(u: EdgeUse) -> (usize, usize) {
    if u.start <= u.end {
        (u.start, u.end)
    } else {
        (u.end, u.start)
    }
}

/// Number of uses among the first `n` whose undirected edge is `k`; with `forward_only`,
/// only those that run from `k.0` to `k.1`.
pub open spec fn count_key(us: Seq<EdgeUse>, k: (usize, usize), forward_only: bool, n: int) -> nat
    decreases n,
{
    if n <= 0 {
        0
    } else {
        count_key(us, k, forward_only, n - 1) + if key_of(us[n - 1]) == k && (!forward_only
            || us[n - 1].start == k.0) {
            1nat
        } else {
            0nat
        }
    }
}

/// Number of faces using the undirected edge of use `i`.
pub open spec fn edge_multiplicity(us: Seq<EdgeUse>, i: int) -> nat {
    count_key(us, key_of(us[i]), false, us.len() as int)
}

/// Use `i` is the first use of its undirected edge.
pub open spec fn is_first_use(us: Seq<EdgeUse>, i: int) -> bool {
    count_key(us, key_of(us[i]), false, i) == 0
}

/// An edge used by exactly one face.
pub open spec fn is_open_edge(us: Seq<EdgeUse>, i: int) -> bool {
    is_first_use(us, i) && edge_multiplicity(us, i) == 1
}

/// An edge used by more than two faces.
pub open spec fn is_non_manifold_edge(us: Seq<EdgeUse>, i: int) -> bool {
    is_first_use(us, i) && edge_multiplicity(us, i) > 2
}

/// A two-face edge between distinct vertices that both faces traverse in the same direction.
pub open spec fn is_misoriented_edge(us: Seq<EdgeUse>, i: int) -> bool {
    let k = key_of(us[i]);
    &&& is_first_use(us, i)
    &&& edge_multiplicity(us, i) == 2
    &&& k.0 != k.1
    &&& count_key(us, k, true, us.len() as int) != 1
}

/// Number of open edges among the first `n` uses (each edge counted at its first use).
pub open spec fn open_edge_count(us: Seq<EdgeUse>, n: int) -> nat
    decreases n,
{
    if n <= 0 {
        0
    } else {
        open_edge_count(us, n - 1) + if is_open_edge(us, n - 1) {
            1nat
        } else {
            0nat
        }
    }
}

/// Number of non-manifold edges among the first `n` uses (each counted at its first use).
pub open spec fn non_manifold_edge_count(us: Seq<EdgeUse>, n: int) -> nat
    decreases n,
{
    if n <= 0 {
        0
    } else {
        non_manifold_edge_count(us, n - 1) + if is_non_manifold_edge(us, n - 1) {
            1nat
        } else {
            0nat
        }
    }
}

/// Number of misoriented edges among the first `n` uses (each counted at its first use).
pub open spec fn misoriented_edge_count(us: Seq<EdgeUse>, n: int) -> nat
    decreases n,
{
    if n <= 0 {
        0
    } else {
        misoriented_edge_count(us, n - 1) + if is_misoriented_edge(us, n - 1) {
            1nat
        } else {
            0nat
        }
    }
}

/// A face is degenerate when it is not a polygon or has no computable normal.
pub open spec fn is_degenerate(face: MeshFace, has_normal: bool) -> bool {
    !is_polygon(face) || !has_normal
}

/// Indices of the degenerate faces among the first `n`, ascending.
pub open spec fn degenerate_faces(faces: Seq<MeshFace>, has_normal: Seq<bool>, n: int) -> Seq<usize>
    decreases n,
{
    if n <= 0 {
        Seq::empty()
    } else if is_degenerate(faces[n - 1], has_normal[n - 1]) {
        degenerate_faces(faces, has_normal, n - 1).push((n - 1) as usize)
    } else {
        degenerate_faces(faces, has_normal, n - 1)
    }
}

/// Well-formedness of a mesh whose edges are examined: every polygon's vertex indices are
/// valid vertices.
pub open spec fn faces_reference_vertices(faces: Seq<MeshFace>, num_vertices: nat) -> bool {
    forall|f: int, e: int|
        0 <= f < faces.len() && is_polygon(faces[f]) && 0 <= e < faces[f].vertex_count ==> (
        #[trigger] faces[f].vertex_indices@[e]) < num_vertices
}

/// Use `u` describes edge `u.edge_idx` of polygon `u.face_idx` of `faces`.
pub open spec fn use_matches_face(faces: Seq<MeshFace>, u: EdgeUse) -> bool {
    let face = faces[u.face_idx as int];
    let vc = face.vertex_count as int;
    &&& u.face_idx < faces.len()
    &&& is_polygon(face)
    &&& u.edge_idx < vc
    &&& u.start == face.vertex_indices@[u.edge_idx as int]
    &&& u.end == face.vertex_indices@[(u.edge_idx as int + 1) % vc]
}

/// Uses are strictly increasing by (face, edge).
pub open spec fn uses_increasing(us: Seq<EdgeUse>) -> bool {
    forall|i: int, j: int|
        0 <= i < j < us.len() ==> (#[trigger] us[i].face_idx < #[trigger] us[j].face_idx || (
        us[i].face_idx == us[j].face_idx && us[i].edge_idx < us[j].edge_idx))
}

proof fn lemma_mesh_uses_shape(faces: Seq<MeshFace>)
    requires
        faces.len() <= usize::MAX,
    ensures
        forall|i: int|
            0 <= i < mesh_uses(faces).len() ==> use_matches_face(faces, #[trigger] mesh_uses(faces)[i]),
        uses_increasing(mesh_uses(faces)),
        mesh_uses(faces).len() <= 4 * faces.len(),
    decreases faces.len(),
{
    if faces.len() > 0 {
        let pre = faces.drop_last();
        lemma_mesh_uses_shape(pre);
        let n = faces.len() - 1;
        let a = mesh_uses(pre);
        let b = face_uses(n, faces.last());
        assert(mesh_uses(faces) == a + b);
        assert forall|i: int| 0 <= i < a.len() implies #[trigger] a[i].face_idx < n by {
            assert(use_matches_face(pre, a[i]));
        }
        assert forall|i: int|
            0 <= i < mesh_uses(faces).len() implies use_matches_face(
            faces,
            #[trigger] mesh_uses(faces)[i],
        ) by {
            if i < a.len() {
                assert(use_matches_face(pre, a[i]));
                assert(pre[a[i].face_idx as int] == faces[a[i].face_idx as int]);
            } else {
                let j = i - a.len();
                assert(mesh_uses(faces)[i] == b[j]);
                assert(is_polygon(faces.last()));
                assert(faces[n] == faces.last());
                assert(b[j].face_idx as int == n);
                assert(b[j].edge_idx as int == j);
            }
        }
        assert forall|i: int, j: int|
            0 <= i < j < mesh_uses(faces).len() implies (#[trigger] mesh_uses(faces)[i].face_idx
            < #[trigger] mesh_uses(faces)[j].face_idx || (mesh_uses(faces)[i].face_idx
            == mesh_uses(faces)[j].face_idx && mesh_uses(faces)[i].edge_idx < mesh_uses(
            faces,
        )[j].edge_idx)) by {
            let s = mesh_uses(faces);
            if j < a.len() {
                assert(s[i] == a[i] && s[j] == a[j]);
            } else if i < a.len() {
                assert(s[i] == a[i]);
                assert(s[j] == b[j - a.len()]);
                assert(a[i].face_idx < n);
            } else {
                assert(s[i] == b[i - a.len()]);
                assert(s[j] == b[j - a.len()]);
            }
        }
    }
}

/// Prefixes of the mesh give prefixes of the use sequence.
proof fn lemma_mesh_uses_prefix(faces: Seq<MeshFace>, m: int)
    requires
        0 <= m <= faces.len(),
    ensures
        mesh_uses(faces.take(m)).len() <= mesh_uses(faces).len(),
        mesh_uses(faces.take(m)) == mesh_uses(faces).take(mesh_uses(faces.take(m)).len() as int),
    decreases faces.len() - m,
{
    if m < faces.len() {
        lemma_mesh_uses_prefix(faces, m + 1);
        let t1 = faces.take(m + 1);
        assert(t1.drop_last() == faces.take(m));
        assert(mesh_uses(t1) == mesh_uses(faces.take(m)) + face_uses(m, t1.last()));
    } else {
        assert(faces.take(m) == faces);
    }
}

/// Indices `j < n` of the uses whose undirected edge starts at vertex `v`, ascending.
pub open spec fn uses_at_vertex(us: Seq<EdgeUse>, v: usize, n: int) -> Seq<usize>
    decreases n,
{
    if n <= 0 {
        Seq::empty()
    } else if key_of(us[n - 1]).0 == v {
        uses_at_vertex(us, v, n - 1).push((n - 1) as usize)
    } else {
        uses_at_vertex(us, v, n - 1)
    }
}

/// Use `u` has undirected edge `k` (and, with `forward_only`, runs from `k.0`).
pub open spec fn use_has_key(u: EdgeUse, k: (usize, usize), forward_only: bool) -> bool {
    key_of(u) == k && (!forward_only || u.start == k.0)
}

/// Number of listed uses whose undirected edge is `k`.
pub open spec fn count_key_in(us: Seq<EdgeUse>, idxs: Seq<usize>, k: (usize, usize), forward_only: bool) -> nat
    decreases idxs.len(),
{
    if idxs.len() == 0 {
        0
    } else {
        count_key_in(us, idxs.drop_last(), k, forward_only) + if use_has_key(
            us[idxs.last() as int],
            k,
            forward_only,
        ) {
            1nat
        } else {
            0nat
        }
    }
}

proof fn lemma_uses_at_vertex_shape(us: Seq<EdgeUse>, v: usize, n: int)
    requires
        0 <= n <= us.len(),
        n <= usize::MAX,
    ensures
        forall|t: int|
            0 <= t < uses_at_vertex(us, v, n).len() ==> #[trigger] uses_at_vertex(us, v, n)[t] < n
                && key_of(us[uses_at_vertex(us, v, n)[t] as int]).0 == v,
        forall|t1: int, t2: int|
            0 <= t1 < t2 < uses_at_vertex(us, v, n).len() ==> #[trigger] uses_at_vertex(us, v, n)[t1]
                < #[trigger] uses_at_vertex(us, v, n)[t2],
        forall|j: int|
            0 <= j < n && key_of(us[j]).0 == v ==> #[trigger] uses_at_vertex(us, v, n).contains(
                j as usize,
            ),
        uses_at_vertex(us, v, n).len() <= n,
    decreases n,
{
    if n > 0 {
        lemma_uses_at_vertex_shape(us, v, n - 1);
        let p = uses_at_vertex(us, v, n - 1);
        if key_of(us[n - 1]).0 == v {
            let q = p.push((n - 1) as usize);
            assert forall|j: int| 0 <= j < n && key_of(us[j]).0 == v implies #[trigger] q.contains(
                j as usize,
            ) by {
                if j == n - 1 {
                    assert(q[q.len() - 1] == j as usize);
                } else {
                    assert(p.contains(j as usize));
                    let t = choose|t: int| 0 <= t < p.len() && p[t] == j as usize;
                    assert(q[t] == j as usize);
                }
            }
        }
    }
}

proof fn lemma_count_in_bucket(us: Seq<EdgeUse>, k: (usize, usize), forward_only: bool, n: int)
    requires
        0 <= n <= us.len(),
        n <= usize::MAX,
    ensures
        count_key_in(us, uses_at_vertex(us, k.0, n), k, forward_only) == count_key(us, k, forward_only, n),
    decreases n,
{
    if n > 0 {
        lemma_count_in_bucket(us, k, forward_only, n - 1);
        let p = uses_at_vertex(us, k.0, n - 1);
        if key_of(us[n - 1]).0 == k.0 {
            assert(p.push((n - 1) as usize).drop_last() == p);
        }
    }
}

/// Counting over a list none of whose entries matches gives zero.
proof fn lemma_count_in_none(us: Seq<EdgeUse>, idxs: Seq<usize>, k: (usize, usize), forward_only: bool)
    requires
        forall|t: int| 0 <= t < idxs.len() ==> !use_has_key(us[#[trigger] idxs[t] as int], k, forward_only),
    ensures
        count_key_in(us, idxs, k, forward_only) == 0,
    decreases idxs.len(),
{
    if idxs.len() > 0 {
        lemma_count_in_none(us, idxs.drop_last(), k, forward_only);
    }
}

/// Counting over a duplicate-free list in which only `x` may match gives at most one.
proof fn lemma_count_in_at_most_one(
    us: Seq<EdgeUse>,
    idxs: Seq<usize>,
    k: (usize, usize),
    forward_only: bool,
    x: usize,
)
    requires
        forall|t: int|
            0 <= t < idxs.len() ==> #[trigger] idxs[t] == x || !use_has_key(us[idxs[t] as int], k, forward_only),
        forall|t1: int, t2: int| 0 <= t1 < t2 < idxs.len() ==> #[trigger] idxs[t1] != #[trigger] idxs[t2],
    ensures
        count_key_in(us, idxs, k, forward_only) <= 1,
    decreases idxs.len(),
{
    if idxs.len() > 0 {
        let p = idxs.drop_last();
        if idxs.last() == x {
            assert forall|t: int| 0 <= t < p.len() implies !use_has_key(us[#[trigger] p[t] as int], k, forward_only) by {
                assert(idxs[t] != idxs[idxs.len() - 1]);
            }
            lemma_count_in_none(us, p, k, forward_only);
        } else {
            lemma_count_in_at_most_one(us, p, k, forward_only, x);
        }
    }
}

/// Tally of one undirected edge over a bucket of use indices.
struct KeyTally {
    count: usize,
    forward: usize,
    other: usize,
}

/// Count the uses of edge `k` listed in `bucket`, how many run forward, and find one listed
/// use of `k` other than `exclude` (`usize::MAX` when there is none).
fn scan_bucket(uses: &Vec<EdgeUse>, bucket: &Vec<usize>, k: (usize, usize), exclude: usize) -> (r: KeyTally)
    requires
        forall|t: int| 0 <= t < bucket.len() ==> #[trigger] bucket@[t] < uses.len(),
    ensures
        r.count == count_key_in(uses@, bucket@, k, false),
        r.forward == count_key_in(uses@, bucket@, k, true),
        r.other != usize::MAX ==> (r.other < uses.len() && r.other != exclude && key_of(uses@[r.other as int]) == k
            && bucket@.contains(r.other)),
        r.other == usize::MAX ==> forall|t: int|
            0 <= t < bucket.len() ==> #[trigger] bucket@[t] == exclude || key_of(uses@[bucket@[t] as int]) != k,
{
    let mut count: usize = 0;
    let mut forward: usize = 0;
    let mut other: usize = usize::MAX;
    let mut t: usize = 0;
    while t < bucket.len()
        invariant
            t <= bucket.len(),
            forall|t: int| 0 <= t < bucket.len() ==> #[trigger] bucket@[t] < uses.len(),
            count == count_key_in(uses@, bucket@.take(t as int), k, false),
            forward == count_key_in(uses@, bucket@.take(t as int), k, true),
            count <= t,
            forward <= t,
            other != usize::MAX ==> (other < uses.len() && other != exclude && key_of(uses@[other as int]) == k
                && bucket@.contains(other)),
            other == usize::MAX ==> forall|s: int|
                0 <= s < t ==> #[trigger] bucket@[s] == exclude || key_of(uses@[bucket@[s] as int]) != k,
        decreases bucket.len() - t,
    {
        let j = bucket[t];
        let u = uses[j];
        let key = EdgeKey::new(u.start, u.end);
        let (lo, hi) = (key.lo, key.hi);
        proof {
            assert(bucket@.take(t + 1 as int).drop_last() == bucket@.take(t as int));
        }
        if lo == k.0 && hi == k.1 {
            count += 1;
            if u.start == k.0 {
                forward += 1;
            }
            if j != exclude {
                other = j;
            }
        }
        t += 1;
    }
    proof {
        assert(bucket@.take(bucket.len() as int) == bucket@);
    }
    KeyTally { count, forward, other }
}

/// Group the uses by the smaller vertex of their edge, and count for each use how many
/// earlier uses share its edge.
fn bucket_uses(uses: &Vec<EdgeUse>, num_vertices: usize) -> (r: (Vec<Vec<usize>>, Vec<usize>))
    requires
        forall|i: int| 0 <= i < uses.len() ==> (#[trigger] key_of(uses@[i])).0 < num_vertices,
    ensures
        r.0.len() == num_vertices,
        forall|v: int| 0 <= v < num_vertices ==> (#[trigger] r.0@[v])@ == uses_at_vertex(uses@, v as usize, uses.len() as int),
        r.1.len() == uses.len(),
        forall|i: int| 0 <= i < uses.len() ==> #[trigger] r.1@[i] == count_key(uses@, key_of(uses@[i]), false, i),
{
    let mut buckets: Vec<Vec<usize>> = Vec::new();
    let mut v: usize = 0;
    while v < num_vertices
        invariant
            v <= num_vertices,
            buckets.len() == v,
            forall|w: int| 0 <= w < v ==> (#[trigger] buckets@[w])@ == Seq::<usize>::empty(),
        decreases num_vertices - v,
    {
        buckets.push(Vec::new());
        v += 1;
    }
    let mut before: Vec<usize> = Vec::new();
    let mut i: usize = 0;
    while i < uses.len()
        invariant
            i <= uses.len(),
            forall|i: int| 0 <= i < uses.len() ==> (#[trigger] key_of(uses@[i])).0 < num_vertices,
            buckets.len() == num_vertices,
            forall|w: int| 0 <= w < num_vertices ==> (#[trigger] buckets@[w])@ == uses_at_vertex(uses@, w as usize, i as int),
            before.len() == i,
            forall|j: int| 0 <= j < i ==> #[trigger] before@[j] == count_key(uses@, key_of(uses@[j]), false, j),
        decreases uses.len() - i,
    {
        let u = uses[i];
        let key = EdgeKey::new(u.start, u.end);
        let (lo, hi) = (key.lo, key.hi);
        proof {
            lemma_uses_at_vertex_shape(uses@, lo, i as int);
            lemma_count_in_bucket(uses@, (lo, hi), false, i as int);
            assert((lo, hi) == key_of(uses@[i as int]));
            assert(lo < num_vertices);
            assert(buckets@[lo as int]@ == uses_at_vertex(uses@, lo, i as int));
        }
        let tally = scan_bucket(uses, &buckets[lo], (lo, hi), i);
        before.push(tally.count);
        buckets[lo].push(i);
        i += 1;
        proof {
            assert forall|w: int| 0 <= w < num_vertices implies (#[trigger] buckets@[w])@ == uses_at_vertex(
                uses@,
                w as usize,
                i as int,
            ) by {
                if w != lo as int {
                    assert(key_of(uses@[i - 1]).0 != w as usize);
                }
            }
        }
    }
    (buckets, before)
}

/// Per-use tallies of the use's undirected edge over the whole mesh.
struct UseTallies {
    /// Number of uses of the edge.
    total: Vec<usize>,
    /// Number of uses of the edge that run from its smaller to its larger vertex.
    forward: Vec<usize>,
    /// Another use of the same edge, or `usize::MAX` when the edge has a single use.
    partner: Vec<usize>,
}

fn tally_uses(uses: &Vec<EdgeUse>, buckets: &Vec<Vec<usize>>, num_vertices: usize) -> (r: UseTallies)
    requires
        forall|i: int| 0 <= i < uses.len() ==> (#[trigger] key_of(uses@[i])).0 < num_vertices,
        buckets.len() == num_vertices,
        forall|v: int| 0 <= v < num_vertices ==> (#[trigger] buckets@[v])@ == uses_at_vertex(uses@, v as usize, uses.len() as int),
    ensures
        r.total.len() == uses.len(),
        r.forward.len() == uses.len(),
        r.partner.len() == uses.len(),
        forall|i: int| 0 <= i < uses.len() ==> #[trigger] r.total@[i] == edge_multiplicity(uses@, i),
        forall|i: int| 0 <= i < uses.len() ==> #[trigger] r.forward@[i] == count_key(uses@, key_of(uses@[i]), true, uses.len() as int),
        forall|i: int| 0 <= i < uses.len() && #[trigger] r.partner@[i] != usize::MAX ==> (r.partner@[i] < uses.len()
            && r.partner@[i] != i && key_of(uses@[r.partner@[i] as int]) == key_of(uses@[i])),
        forall|i: int| 0 <= i < uses.len() && edge_multiplicity(uses@, i) >= 2 ==> #[trigger] r.partner@[i] != usize::MAX,
{
    let mut total: Vec<usize> = Vec::new();
    let mut forward: Vec<usize> = Vec::new();
    let mut partner: Vec<usize> = Vec::new();
    let mut i: usize = 0;
    while i < uses.len()
        invariant
            i <= uses.len(),
            forall|i: int| 0 <= i < uses.len() ==> (#[trigger] key_of(uses@[i])).0 < num_vertices,
            buckets.len() == num_vertices,
            forall|v: int| 0 <= v < num_vertices ==> (#[trigger] buckets@[v])@ == uses_at_vertex(uses@, v as usize, uses.len() as int),
            total.len() == i,
            forward.len() == i,
            partner.len() == i,
            forall|j: int| 0 <= j < i ==> #[trigger] total@[j] == edge_multiplicity(uses@, j),
            forall|j: int| 0 <= j < i ==> #[trigger] forward@[j] == count_key(uses@, key_of(uses@[j]), true, uses.len() as int),
            forall|j: int| 0 <= j < i && #[trigger] partner@[j] != usize::MAX ==> (partner@[j] < uses.len()
                && partner@[j] != j && key_of(uses@[partner@[j] as int]) == key_of(uses@[j])),
            forall|j: int| 0 <= j < i && edge_multiplicity(uses@, j) >= 2 ==> #[trigger] partner@[j] != usize::MAX,
        decreases uses.len() - i,
    {
        let u = uses[i];
        let key = EdgeKey::new(u.start, u.end);
        let (lo, hi) = (key.lo, key.hi);
        let ghost k = (lo, hi);
        proof {
            assert(k == key_of(uses@[i as int]));
            lemma_uses_at_vertex_shape(uses@, lo, uses.len() as int);
            lemma_count_in_bucket(uses@, k, false, uses.len() as int);
            lemma_count_in_bucket(uses@, k, true, uses.len() as int);
        }
        let bucket = &buckets[lo];
        let tally = scan_bucket(uses, bucket, (lo, hi), i);
        proof {
            if tally.other == usize::MAX {
                let b = bucket@;
                assert forall|t: int| 0 <= t < b.len() implies #[trigger] b[t] == i || !use_has_key(
                    uses@[b[t] as int],
                    k,
                    false,
                ) by {}
                assert forall|t1: int, t2: int| 0 <= t1 < t2 < b.len() implies #[trigger] b[t1] != #[trigger] b[t2] by {
                    assert(b[t1] < b[t2]);
                }
                lemma_count_in_at_most_one(uses@, b, k, false, i);
            }
        }
        total.push(tally.count);
        forward.push(tally.forward);
        partner.push(tally.other);
        i += 1;
    }
    UseTallies { total, forward, partner }
}

/// Faces `f` and `g` share an undirected edge through two different uses.
pub open spec fn faces_adjacent(us: Seq<EdgeUse>, f: int, g: int) -> bool {
    exists|i: int, j: int|
        0 <= i < us.len() && 0 <= j < us.len() && i != j && key_of(#[trigger] us[i]) == key_of(#[trigger] us[j])
            && us[i].face_idx as int == f && us[j].face_idx as int == g
}

/// For each face, the faces it shares an edge with (possibly repeated).
fn build_face_adjacency(
    uses: &Vec<EdgeUse>,
    buckets: &Vec<Vec<usize>>,
    num_vertices: usize,
    num_faces: usize,
) -> (adj: Vec<Vec<usize>>)
    requires
        forall|i: int| 0 <= i < uses.len() ==> (#[trigger] key_of(uses@[i])).0 < num_vertices,
        forall|i: int| 0 <= i < uses.len() ==> (#[trigger] uses@[i]).face_idx < num_faces,
        buckets.len() == num_vertices,
        forall|v: int| 0 <= v < num_vertices ==> (#[trigger] buckets@[v])@ == uses_at_vertex(uses@, v as usize, uses.len() as int),
    ensures
        adj.len() == num_faces,
        forall|f: int, t: int| 0 <= f < num_faces && 0 <= t < adj@[f].len() ==> #[trigger] adj@[f]@[t] < num_faces
            && faces_adjacent(uses@, f, adj@[f]@[t] as int),
        forall|f: int, g: int| 0 <= f < num_faces && faces_adjacent(uses@, f, g) ==> #[trigger] adj@[f]@.contains(
            g as usize,
        ),
{
    let mut adj: Vec<Vec<usize>> = Vec::new();
    let mut f: usize = 0;
    while f < num_faces
        invariant
            f <= num_faces,
            adj.len() == f,
            forall|w: int| 0 <= w < f ==> (#[trigger] adj@[w])@ == Seq::<usize>::empty(),
        decreases num_faces - f,
    {
        adj.push(Vec::new());
        f += 1;
    }
    let mut i: usize = 0;
    while i < uses.len()
        invariant
            i <= uses.len(),
            forall|i: int| 0 <= i < uses.len() ==> (#[trigger] key_of(uses@[i])).0 < num_vertices,
            forall|i: int| 0 <= i < uses.len() ==> (#[trigger] uses@[i]).face_idx < num_faces,
            buckets.len() == num_vertices,
            forall|v: int| 0 <= v < num_vertices ==> (#[trigger] buckets@[v])@ == uses_at_vertex(uses@, v as usize, uses.len() as int),
            adj.len() == num_faces,
            forall|f: int, t: int| 0 <= f < num_faces && 0 <= t < adj@[f].len() ==> #[trigger] adj@[f]@[t] < num_faces
                && faces_adjacent(uses@, f, adj@[f]@[t] as int),
            forall|a: int, b: int|
                0 <= a < i && 0 <= b < uses.len() && a != b && key_of(#[trigger] uses@[a]) == key_of(#[trigger] uses@[b])
                    ==> adj@[uses@[a].face_idx as int]@.contains(uses@[b].face_idx),
        decreases uses.len() - i,
    {
        let u = uses[i];
        let key = EdgeKey::new(u.start, u.end);
        let (lo, hi) = (key.lo, key.hi);
        proof {
            assert((lo, hi) == key_of(uses@[i as int]));
            lemma_uses_at_vertex_shape(uses@, lo, uses.len() as int);
        }
        let fi = u.face_idx;
        let bucket = &buckets[lo];
        let mut t: usize = 0;
        while t < bucket.len()
            invariant
                t <= bucket.len(),
                i < uses.len(),
                u == uses@[i as int],
                fi == u.face_idx,
                fi < num_faces,
                (lo, hi) == key_of(u),
                bucket@ == uses_at_vertex(uses@, lo, uses.len() as int),
                forall|s: int| 0 <= s < bucket.len() ==> #[trigger] bucket@[s] < uses.len()
                    && key_of(uses@[bucket@[s] as int]).0 == lo,
                forall|j: int| 0 <= j < uses.len() && key_of(uses@[j]).0 == lo ==> #[trigger] bucket@.contains(j as usize),
                forall|i: int| 0 <= i < uses.len() ==> (#[trigger] uses@[i]).face_idx < num_faces,
                adj.len() == num_faces,
                forall|f: int, t: int| 0 <= f < num_faces && 0 <= t < adj@[f].len() ==> #[trigger] adj@[f]@[t] < num_faces
                    && faces_adjacent(uses@, f, adj@[f]@[t] as int),
                forall|a: int, b: int|
                    0 <= a < i && 0 <= b < uses.len() && a != b && key_of(#[trigger] uses@[a]) == key_of(#[trigger] uses@[b])
                        ==> adj@[uses@[a].face_idx as int]@.contains(uses@[b].face_idx),
                forall|s: int|
                    0 <= s < t && bucket@[s] != i && key_of(uses@[#[trigger] bucket@[s] as int]) == key_of(u)
                        ==> adj@[fi as int]@.contains(uses@[bucket@[s] as int].face_idx),
            decreases bucket.len() - t,
        {
            let j = bucket[t];
            let w = uses[j];
            let (wlo, whi) = if w.start <= w.end {
                (w.start, w.end)
            } else {
                (w.end, w.start)
            };
            if j != i && wlo == lo && whi == hi {
                let ghost old_adj = adj@;
                proof {
                    assert(faces_adjacent(uses@, fi as int, w.face_idx as int)) by {
                        assert(key_of(uses@[i as int]) == key_of(uses@[j as int]));
                    }
                }
                adj[fi].push(w.face_idx);
                proof {
                    assert forall|f: int, q: int| 0 <= f < num_faces && 0 <= q < adj@[f].len() implies #[trigger] adj@[f]@[q]
                        < num_faces && faces_adjacent(uses@, f, adj@[f]@[q] as int) by {
                        if f != fi as int || q < old_adj[f].len() {
                            assert(adj@[f]@[q] == old_adj[f]@[q]);
                        }
                    }
                    assert forall|a: int, b: int|
                        0 <= a < i && 0 <= b < uses.len() && a != b && key_of(#[trigger] uses@[a]) == key_of(#[trigger] uses@[b])
                            implies adj@[uses@[a].face_idx as int]@.contains(uses@[b].face_idx) by {
                        assert(old_adj[uses@[a].face_idx as int]@.contains(uses@[b].face_idx));
                        let q = choose|q: int| 0 <= q < old_adj[uses@[a].face_idx as int].len() && old_adj[uses@[a].face_idx as int]@[q] == uses@[b].face_idx;
                        assert(adj@[uses@[a].face_idx as int]@[q] == uses@[b].face_idx);
                    }
                    assert forall|s: int|
                        0 <= s < t + 1 && bucket@[s] != i && key_of(uses@[#[trigger] bucket@[s] as int]) == key_of(u)
                            implies adj@[fi as int]@.contains(uses@[bucket@[s] as int].face_idx) by {
                        if s < t {
                            assert(old_adj[fi as int]@.contains(uses@[bucket@[s] as int].face_idx));
                            let q = choose|q: int| 0 <= q < old_adj[fi as int].len() && old_adj[fi as int]@[q] == uses@[bucket@[s] as int].face_idx;
                            assert(adj@[fi as int]@[q] == uses@[bucket@[s] as int].face_idx);
                        } else {
                            assert(adj@[fi as int]@[old_adj[fi as int].len() as int] == w.face_idx);
                        }
                    }
                }
            }
            t += 1;
        }
        proof {
            assert forall|a: int, b: int|
                0 <= a < i + 1 && 0 <= b < uses.len() && a != b && key_of(#[trigger] uses@[a]) == key_of(#[trigger] uses@[b])
                    implies adj@[uses@[a].face_idx as int]@.contains(uses@[b].face_idx) by {
                if a == i {
                    assert(bucket@.contains(b as usize));
                    let s = choose|s: int| 0 <= s < bucket.len() && bucket@[s] == b as usize;
                    assert(key_of(uses@[bucket@[s] as int]) == key_of(u));
                }
            }
        }
        i += 1;
    }
    adj
}

/// `p` is a walk through faces, each consecutive pair sharing an edge.
pub open spec fn is_face_path(us: Seq<EdgeUse>, p: Seq<int>) -> bool {
    &&& p.len() >= 1
    &&& forall|k: int| 0 <= k < p.len() - 1 ==> faces_adjacent(us, #[trigger] p[k], p[k + 1])
}

/// Faces `f` and `g` are joined by a walk of edge-sharing faces.
pub open spec fn faces_connected(us: Seq<EdgeUse>, f: int, g: int) -> bool {
    exists|p: Seq<int>| #[trigger] is_face_path(us, p) && p[0] == f && p.last() == g
}

proof fn lemma_adjacent_symmetric(us: Seq<EdgeUse>, f: int, g: int)
    requires
        faces_adjacent(us, f, g),
    ensures
        faces_adjacent(us, g, f),
{
    let (i, j) = choose|i: int, j: int|
        0 <= i < us.len() && 0 <= j < us.len() && i != j && key_of(#[trigger] us[i]) == key_of(#[trigger] us[j])
            && us[i].face_idx as int == f && us[j].face_idx as int == g;
    assert(key_of(us[j]) == key_of(us[i]));
}

proof fn lemma_connected_refl(us: Seq<EdgeUse>, f: int)
    ensures
        faces_connected(us, f, f),
{
    let p = seq![f];
    assert(is_face_path(us, p));
}

proof fn lemma_connected_step(us: Seq<EdgeUse>, f: int, g: int, h: int)
    requires
        faces_connected(us, f, g),
        faces_adjacent(us, g, h),
    ensures
        faces_connected(us, f, h),
{
    let p = choose|p: Seq<int>| #[trigger] is_face_path(us, p) && p[0] == f && p.last() == g;
    let q = p.push(h);
    assert forall|k: int| 0 <= k < q.len() - 1 implies faces_adjacent(us, #[trigger] q[k], q[k + 1]) by {
        if k < p.len() - 1 {
            assert(q[k] == p[k] && q[k + 1] == p[k + 1]);
        }
    }
    assert(is_face_path(us, q));
}

proof fn lemma_connected_symmetric(us: Seq<EdgeUse>, f: int, g: int)
    requires
        faces_connected(us, f, g),
    ensures
        faces_connected(us, g, f),
{
    let p = choose|p: Seq<int>| #[trigger] is_face_path(us, p) && p[0] == f && p.last() == g;
    let q = p.reverse();
    assert forall|k: int| 0 <= k < q.len() - 1 implies faces_adjacent(us, #[trigger] q[k], q[k + 1]) by {
        let m = p.len() - 2 - k;
        assert(faces_adjacent(us, p[m], p[m + 1]));
        assert(q[k] == p[m + 1]);
        assert(q[k + 1] == p[m]);
        lemma_adjacent_symmetric(us, p[m], p[m + 1]);
    }
    assert(is_face_path(us, q));
}

proof fn lemma_connected_trans(us: Seq<EdgeUse>, f: int, g: int, h: int)
    requires
        faces_connected(us, f, g),
        faces_connected(us, g, h),
    ensures
        faces_connected(us, f, h),
{
    let p = choose|p: Seq<int>| #[trigger] is_face_path(us, p) && p[0] == f && p.last() == g;
    let q = choose|q: Seq<int>| #[trigger] is_face_path(us, q) && q[0] == g && q.last() == h;
    let r = p + q.drop_first();
    assert forall|k: int| 0 <= k < r.len() - 1 implies faces_adjacent(us, #[trigger] r[k], r[k + 1]) by {
        if k < p.len() - 1 {
            assert(r[k] == p[k] && r[k + 1] == p[k + 1]);
        } else {
            let m = k - (p.len() - 1);
            assert(r[k] == q[m]);
            assert(r[k + 1] == q[m + 1]);
            assert(faces_adjacent(us, q[m], q[m + 1]));
        }
    }
    assert(is_face_path(us, r));
}

/// Number of faces among the first `n` that have no component label yet.
spec fn unlabeled_count(comp: Seq<usize>, n: int) -> nat
    decreases n,
{
    if n <= 0 {
        0
    } else {
        unlabeled_count(comp, n - 1) + if comp[n - 1] == usize::MAX {
            1nat
        } else {
            0nat
        }
    }
}

proof fn lemma_unlabeled_update(comp: Seq<usize>, g: int, c: usize, n: int)
    requires
        0 <= g < comp.len(),
        n <= comp.len(),
        comp[g] == usize::MAX,
        c != usize::MAX,
    ensures
        unlabeled_count(comp.update(g, c), n) == if g < n {
            unlabeled_count(comp, n) - 1
        } else {
            unlabeled_count(comp, n) as int
        },
        g < n ==> unlabeled_count(comp, n) >= 1,
    decreases n,
{
    if n > 0 {
        lemma_unlabeled_update(comp, g, c, n - 1);
    }
}

/// Some face carries label `c`.
pub open spec fn label_in_use(label: Seq<usize>, c: int) -> bool {
    exists|f: int| 0 <= f < label.len() && label[f] == c
}

/// Component labels of the faces, numbered in order of each component's smallest face.
struct Components {
    label: Vec<usize>,
    count: usize,
}

/// Label the connected components of the face graph by breadth-first search.
fn label_components(adj: &Vec<Vec<usize>>, num_faces: usize, Ghost(us): Ghost<Seq<EdgeUse>>) -> (r: Components)
    requires
        adj.len() == num_faces,
        forall|f: int, t: int| 0 <= f < num_faces && 0 <= t < adj@[f].len() ==> #[trigger] adj@[f]@[t] < num_faces
            && faces_adjacent(us, f, adj@[f]@[t] as int),
        forall|f: int, g: int| 0 <= f < num_faces && faces_adjacent(us, f, g) ==> #[trigger] adj@[f]@.contains(
            g as usize,
        ),
        forall|f: int, g: int| #[trigger] faces_adjacent(us, f, g) ==> 0 <= g < num_faces,
    ensures
        r.label.len() == num_faces,
        r.count <= num_faces,
        forall|f: int| 0 <= f < num_faces ==> #[trigger] r.label@[f] < r.count,
        forall|f: int, g: int|
            0 <= f < num_faces && 0 <= g < num_faces && #[trigger] faces_adjacent(us, f, g) ==> r.label@[f] == r.label@[g],
        forall|f: int, g: int|
            0 <= f < num_faces && 0 <= g < num_faces && #[trigger] r.label@[f] == #[trigger] r.label@[g] ==> faces_connected(
                us,
                f,
                g,
            ),
        forall|c: int| 0 <= c < r.count ==> #[trigger] label_in_use(r.label@, c),
        forall|f: int|
            #![trigger r.label@[f]]
            0 <= f < num_faces ==> (exists|h: int| 0 <= h < f && #[trigger] r.label@[h] == r.label@[f]) || (forall|h: int|
                0 <= h < f ==> #[trigger] r.label@[h] < r.label@[f]),
{
    let mut label: Vec<usize> = Vec::new();
    let mut f: usize = 0;
    while f < num_faces
        invariant
            f <= num_faces,
            label.len() == f,
            forall|g: int| 0 <= g < f ==> #[trigger] label@[g] == usize::MAX,
        decreases num_faces - f,
    {
        label.push(usize::MAX);
        f += 1;
    }
    let mut count: usize = 0;
    let ghost mut seeds: Seq<int> = Seq::empty();
    let mut f: usize = 0;
    while f < num_faces
        invariant
            adj.len() == num_faces,
            forall|f: int, t: int| 0 <= f < num_faces && 0 <= t < adj@[f].len() ==> #[trigger] adj@[f]@[t] < num_faces
                && faces_adjacent(us, f, adj@[f]@[t] as int),
            forall|f: int, g: int| 0 <= f < num_faces && faces_adjacent(us, f, g) ==> #[trigger] adj@[f]@.contains(
                g as usize,
            ),
            forall|f: int, g: int| #[trigger] faces_adjacent(us, f, g) ==> 0 <= g < num_faces,
            label.len() == num_faces,
            f <= num_faces,
            count <= f,
            forall|g: int| 0 <= g < num_faces ==> #[trigger] label@[g] == usize::MAX || label@[g] < count,
            forall|g: int| 0 <= g < f ==> #[trigger] label@[g] != usize::MAX,
            seeds.len() == count,
            forall|c: int| 0 <= c < count ==> 0 <= #[trigger] seeds[c] < f && label@[seeds[c]] == c,
            forall|g: int|
                0 <= g < num_faces && #[trigger] label@[g] != usize::MAX ==> faces_connected(us, seeds[label@[g] as int], g)
                    && seeds[label@[g] as int] <= g,
            forall|c: int, h: int| 0 <= c < count && 0 <= h < #[trigger] seeds[c] ==> #[trigger] label@[h] != usize::MAX && label@[h] < c,
            forall|g: int, nb: int|
                0 <= g < num_faces && #[trigger] label@[g] != usize::MAX && #[trigger] faces_adjacent(us, g, nb) ==> label@[nb] == label@[g],
        decreases num_faces - f,
    {
        if label[f] == usize::MAX {
            let c = count;
            proof {
                lemma_unlabeled_update(label@, f as int, c, num_faces as int);
                lemma_connected_refl(us, f as int);
            }
            label[f] = c;
            let mut queue: Vec<usize> = Vec::new();
            queue.push(f);
            let mut head: usize = 0;
            let ghost n0 = unlabeled_count(label@, num_faces as int) + 1;
            proof {
                assert forall|g: int| 0 <= g < num_faces && #[trigger] label@[g] == c implies queue@.contains(g as usize) by {
                    assert(g == f as int);
                    assert(queue@[0] == f);
                }
            }
            while head < queue.len()
                invariant
                    adj.len() == num_faces,
                    forall|f: int, t: int| 0 <= f < num_faces && 0 <= t < adj@[f].len() ==> #[trigger] adj@[f]@[t] < num_faces
                        && faces_adjacent(us, f, adj@[f]@[t] as int),
                    forall|f: int, g: int| 0 <= f < num_faces && faces_adjacent(us, f, g) ==> #[trigger] adj@[f]@.contains(
                        g as usize,
                    ),
                    forall|f: int, g: int| #[trigger] faces_adjacent(us, f, g) ==> 0 <= g < num_faces,
                    label.len() == num_faces,
                    f < num_faces,
                    c == count,
                    count <= f,
                    forall|g: int| 0 <= g < num_faces ==> #[trigger] label@[g] == usize::MAX || label@[g] <= c,
                    forall|g: int| 0 <= g < f ==> #[trigger] label@[g] != usize::MAX && label@[g] < c,
                    seeds.len() == count,
                    forall|c2: int| 0 <= c2 < count ==> 0 <= #[trigger] seeds[c2] < f && label@[seeds[c2]] == c2,
                    forall|g: int|
                        0 <= g < num_faces && #[trigger] label@[g] != usize::MAX && label@[g] < c ==> faces_connected(
                            us,
                            seeds[label@[g] as int],
                            g,
                        ) && seeds[label@[g] as int] <= g,
                    forall|c2: int, h: int|
                        0 <= c2 < count && 0 <= h < #[trigger] seeds[c2] ==> #[trigger] label@[h] != usize::MAX && label@[h] < c2,
                    forall|g: int, nb: int|
                        0 <= g < num_faces && #[trigger] label@[g] != usize::MAX && label@[g] < c && #[trigger] faces_adjacent(
                            us,
                            g,
                            nb,
                        ) ==> label@[nb] == label@[g],
                    queue.len() >= 1,
                    queue@[0] == f,
                    head <= queue.len(),
                    forall|t: int|
                        0 <= t < queue.len() ==> #[trigger] queue@[t] < num_faces && label@[queue@[t] as int] == c
                            && faces_connected(us, f as int, queue@[t] as int) && f <= queue@[t],
                    forall|g: int| 0 <= g < num_faces && #[trigger] label@[g] == c ==> queue@.contains(g as usize),
                    forall|t: int, nb: int|
                        0 <= t < head && #[trigger] faces_adjacent(us, queue@[t] as int, nb) ==> label@[nb] == c,
                    unlabeled_count(label@, num_faces as int) + queue.len() == n0,
                decreases n0 - head,
            {
                let cur = queue[head];
                let nbrs = &adj[cur];
                let mut t: usize = 0;
                while t < nbrs.len()
                    invariant
                        adj.len() == num_faces,
                        forall|f: int, t: int| 0 <= f < num_faces && 0 <= t < adj@[f].len() ==> #[trigger] adj@[f]@[t] < num_faces
                            && faces_adjacent(us, f, adj@[f]@[t] as int),
                        forall|f: int, g: int| #[trigger] faces_adjacent(us, f, g) ==> 0 <= g < num_faces,
                        nbrs@ == adj@[cur as int]@,
                        t <= nbrs.len(),
                        cur < num_faces,
                        label.len() == num_faces,
                        f < num_faces,
                        c == count,
                        count <= f,
                        label@[cur as int] == c,
                        faces_connected(us, f as int, cur as int),
                        forall|g: int| 0 <= g < num_faces ==> #[trigger] label@[g] == usize::MAX || label@[g] <= c,
                        forall|g: int| 0 <= g < f ==> #[trigger] label@[g] != usize::MAX && label@[g] < c,
                        seeds.len() == count,
                        forall|c2: int| 0 <= c2 < count ==> 0 <= #[trigger] seeds[c2] < f && label@[seeds[c2]] == c2,
                        forall|g: int|
                            0 <= g < num_faces && #[trigger] label@[g] != usize::MAX && label@[g] < c ==> faces_connected(
                                us,
                                seeds[label@[g] as int],
                                g,
                            ) && seeds[label@[g] as int] <= g,
                        forall|c2: int, h: int|
                            0 <= c2 < count && 0 <= h < #[trigger] seeds[c2] ==> #[trigger] label@[h] != usize::MAX && label@[h] < c2,
                        forall|g: int, nb: int|
                            0 <= g < num_faces && #[trigger] label@[g] != usize::MAX && label@[g] < c && #[trigger] faces_adjacent(
                                us,
                                g,
                                nb,
                            ) ==> label@[nb] == label@[g],
                        queue.len() >= 1,
                        queue@[0] == f,
                        head < queue.len(),
                        queue@[head as int] == cur,
                        forall|t: int|
                            0 <= t < queue.len() ==> #[trigger] queue@[t] < num_faces && label@[queue@[t] as int] == c
                                && faces_connected(us, f as int, queue@[t] as int) && f <= queue@[t],
                        forall|g: int| 0 <= g < num_faces && #[trigger] label@[g] == c ==> queue@.contains(g as usize),
                        forall|t: int, nb: int|
                            0 <= t < head && #[trigger] faces_adjacent(us, queue@[t] as int, nb) ==> label@[nb] == c,
                        unlabeled_count(label@, num_faces as int) + queue.len() == n0,
                        forall|s: int| 0 <= s < t ==> label@[#[trigger] nbrs@[s] as int] == c,
                    decreases nbrs.len() - t,
                {
                    let nb = nbrs[t];
                    proof {
                        assert(adj@[cur as int]@[t as int] == nb);
                        assert(faces_adjacent(us, cur as int, nb as int));
                    }
                    if label[nb] == usize::MAX {
                        let ghost old_label = label@;
                        let ghost old_queue = queue@;
                        proof {
                            lemma_unlabeled_update(label@, nb as int, c, num_faces as int);
                            lemma_connected_step(us, f as int, cur as int, nb as int);
                            assert forall|g: int, x: int|
                                0 <= g < num_faces && old_label[g] != usize::MAX && old_label[g] < c && faces_adjacent(us, g, x)
                                    implies x != nb as int by {
                                if x == nb as int {
                                    assert(old_label[x] == old_label[g]);
                                }
                            }
                            assert forall|q: int, x: int| 0 <= q < head && faces_adjacent(us, old_queue[q] as int, x) implies x
                                != nb as int by {
                                if x == nb as int {
                                    assert(old_label[x] == c);
                                }
                            }
                        }
                        label[nb] = c;
                        queue.push(nb);
                        proof {
                            assert forall|g: int| 0 <= g < num_faces && #[trigger] label@[g] == c implies queue@.contains(
                                g as usize,
                            ) by {
                                if g == nb as int {
                                    assert(queue@[queue.len() - 1] == nb);
                                } else {
                                    assert(old_queue.contains(g as usize));
                                    let q = choose|q: int| 0 <= q < old_queue.len() && old_queue[q] == g as usize;
                                    assert(queue@[q] == g as usize);
                                }
                            }
                            assert forall|q: int, x: int|
                                0 <= q < head && #[trigger] faces_adjacent(us, queue@[q] as int, x) implies label@[x] == c by {
                                assert(queue@[q] == old_queue[q]);
                            }
                        }
                    } else {
                        proof {
                            if label@[nb as int] != c {
                                lemma_adjacent_symmetric(us, cur as int, nb as int);
                                assert(label@[cur as int] == label@[nb as int]);
                            }
                        }
                    }
                    t += 1;
                }
                proof {
                    assert forall|q: int, x: int|
                        0 <= q < head + 1 && #[trigger] faces_adjacent(us, queue@[q] as int, x) implies label@[x] == c by {
                        if q == head as int {
                            assert(adj@[cur as int]@.contains(x as usize));
                            let s = choose|s: int| 0 <= s < nbrs.len() && nbrs@[s] == x as usize;
                            assert(label@[nbrs@[s] as int] == c);
                        }
                    }
                }
                head += 1;
            }
            proof {
                let new_seeds = seeds.push(f as int);
                assert forall|g: int, nb: int|
                    0 <= g < num_faces && #[trigger] label@[g] != usize::MAX && #[trigger] faces_adjacent(us, g, nb) implies label@[nb]
                        == label@[g] by {
                    if label@[g] == c {
                        assert(queue@.contains(g as usize));
                        let q = choose|q: int| 0 <= q < queue.len() && queue@[q] == g as usize;
                        assert(faces_adjacent(us, queue@[q] as int, nb));
                    }
                }
                assert forall|g: int|
                    0 <= g < num_faces && #[trigger] label@[g] != usize::MAX implies faces_connected(
                        us,
                        new_seeds[label@[g] as int],
                        g,
                    ) && new_seeds[label@[g] as int] <= g by {
                    if label@[g] == c {
                        assert(queue@.contains(g as usize));
                        let q = choose|q: int| 0 <= q < queue.len() && queue@[q] == g as usize;
                        assert(new_seeds[c as int] == f as int);
                    } else {
                        assert(new_seeds[label@[g] as int] == seeds[label@[g] as int]);
                    }
                }
                assert forall|c2: int, h: int|
                    0 <= c2 < count + 1 && 0 <= h < #[trigger] new_seeds[c2] implies #[trigger] label@[h] != usize::MAX && label@[h] < c2 by {
                    if c2 < count {
                        assert(new_seeds[c2] == seeds[c2]);
                    }
                }
                assert forall|c2: int| 0 <= c2 < count + 1 implies 0 <= #[trigger] new_seeds[c2] < f + 1 && label@[new_seeds[c2]] == c2 by {
                    if c2 < count {
                        assert(new_seeds[c2] == seeds[c2]);
                    }
                }
                seeds = new_seeds;
            }
            count += 1;
        }
        f += 1;
    }
    proof {
        assert forall|a: int, b: int|
            0 <= a < num_faces && 0 <= b < num_faces && #[trigger] label@[a] == #[trigger] label@[b] implies faces_connected(us, a, b) by {
            let s = seeds[label@[a] as int];
            lemma_connected_symmetric(us, s, a);
            lemma_connected_trans(us, a, s, b);
        }
        assert forall|c: int| 0 <= c < count implies #[trigger] label_in_use(label@, c) by {
            assert(label@[seeds[c]] == c);
        }
        assert forall|g: int|
            #![trigger label@[g]]
            0 <= g < num_faces implies (exists|h: int| 0 <= h < g && #[trigger] label@[h] == label@[g]) || (forall|h: int|
                0 <= h < g ==> #[trigger] label@[h] < label@[g]) by {
            let s = seeds[label@[g] as int];
            if s < g {
                assert(label@[s] == label@[g]);
            }
        }
    }
    Components { label, count }
}

/// Some use other than `i` of the same undirected edge (meaningful when one exists).
pub open spec fn other_use(us: Seq<EdgeUse>, i: int) -> int {
    choose|j: int| 0 <= j < us.len() && j != i && key_of(us[j]) == key_of(us[i])
}

/// The neighbor recorded for use `i`: across a two-face edge, the other face; otherwise -1.
pub open spec fn neighbor_of_use(us: Seq<EdgeUse>, i: int) -> i32 {
    if edge_multiplicity(us, i) == 2 {
        us[other_use(us, i)].face_idx as i32
    } else {
        -1i32
    }
}

/// A shell (component) is closed when every edge used by its faces has exactly two uses.
pub open spec fn component_closed(us: Seq<EdgeUse>, label: Seq<usize>, c: int) -> bool {
    forall|i: int| 0 <= i < us.len() && label[#[trigger] us[i].face_idx as int] == c ==> edge_multiplicity(us, i) == 2
}

/// Number of `true` entries among the first `n`.
pub open spec fn count_true(s: Seq<bool>, n: int) -> nat
    decreases n,
{
    if n <= 0 {
        0
    } else {
        count_true(s, n - 1) + if s[n - 1] {
            1nat
        } else {
            0nat
        }
    }
}

proof fn lemma_count_three(us: Seq<EdgeUse>, k: (usize, usize), n: int, a: int, b: int, c: int)
    requires
        0 <= a < n,
        0 <= b < n,
        0 <= c < n,
        n <= us.len(),
        a != b,
        b != c,
        a != c,
        key_of(us[a]) == k,
        key_of(us[b]) == k,
        key_of(us[c]) == k,
    ensures
        count_key(us, k, false, n) >= 3,
    decreases n,
{
    let m = n - 1;
    if a == m {
        lemma_count_two(us, k, m, b, c);
    } else if b == m {
        lemma_count_two(us, k, m, a, c);
    } else if c == m {
        lemma_count_two(us, k, m, a, b);
    } else {
        lemma_count_three(us, k, m, a, b, c);
    }
}

proof fn lemma_count_two(us: Seq<EdgeUse>, k: (usize, usize), n: int, a: int, b: int)
    requires
        0 <= a < n,
        0 <= b < n,
        n <= us.len(),
        a != b,
        key_of(us[a]) == k,
        key_of(us[b]) == k,
    ensures
        count_key(us, k, false, n) >= 2,
    decreases n,
{
    let m = n - 1;
    if a == m {
        lemma_count_one(us, k, m, b);
    } else if b == m {
        lemma_count_one(us, k, m, a);
    } else {
        lemma_count_two(us, k, m, a, b);
    }
}

proof fn lemma_count_one(us: Seq<EdgeUse>, k: (usize, usize), n: int, a: int)
    requires
        0 <= a < n,
        n <= us.len(),
        key_of(us[a]) == k,
    ensures
        count_key(us, k, false, n) >= 1,
    decreases n,
{
    if a < n - 1 {
        lemma_count_one(us, k, n - 1, a);
    }
}

/// Across a two-use edge, the other use is unique.
proof fn lemma_other_use_unique(us: Seq<EdgeUse>, i: int, j: int)
    requires
        0 <= i < us.len(),
        0 <= j < us.len(),
        j != i,
        key_of(us[j]) == key_of(us[i]),
        edge_multiplicity(us, i) == 2,
    ensures
        other_use(us, i) == j,
{
    let o = other_use(us, i);
    assert(0 <= o < us.len() && o != i && key_of(us[o]) == key_of(us[i]));
    if o != j {
        lemma_count_three(us, key_of(us[i]), us.len() as int, i, j, o);
    }
}

/// Every use's edge joins two valid vertices.
proof fn lemma_use_keys_in_range(faces: Seq<MeshFace>, num_vertices: nat)
    requires
        faces.len() <= usize::MAX,
        faces_reference_vertices(faces, num_vertices),
    ensures
        forall|i: int|
            0 <= i < mesh_uses(faces).len() ==> (#[trigger] key_of(mesh_uses(faces)[i])).0 < num_vertices
                && key_of(mesh_uses(faces)[i]).1 < num_vertices,
{
    lemma_mesh_uses_shape(faces);
    assert forall|i: int| 0 <= i < mesh_uses(faces).len() implies (#[trigger] key_of(mesh_uses(faces)[i])).0
        < num_vertices && key_of(mesh_uses(faces)[i]).1 < num_vertices by {
        let u = mesh_uses(faces)[i];
        assert(use_matches_face(faces, u));
        let f = u.face_idx as int;
        let vc = faces[f].vertex_count as int;
        let e2 = (u.edge_idx as int + 1) % vc;
        vstd::arithmetic::div_mod::lemma_mod_pos_bound(u.edge_idx as int + 1, vc);
        assert(faces[f].vertex_indices@[u.edge_idx as int] < num_vertices);
        assert(faces[f].vertex_indices@[e2] < num_vertices);
    }
}

/// Mark, for each component, whether all of its edges have exactly two uses.
fn closed_components(uses: &Vec<EdgeUse>, total: &Vec<usize>, label: &Vec<usize>, count: usize) -> (closed: Vec<bool>)
    requires
        total.len() == uses.len(),
        forall|i: int| 0 <= i < uses.len() ==> #[trigger] total@[i] == edge_multiplicity(uses@, i),
        forall|i: int| 0 <= i < uses.len() ==> (#[trigger] uses@[i]).face_idx < label.len(),
        forall|f: int| 0 <= f < label.len() ==> #[trigger] label@[f] < count,
    ensures
        closed.len() == count,
        forall|c: int| 0 <= c < count ==> #[trigger] closed@[c] == component_closed(uses@, label@, c),
{
    let mut closed: Vec<bool> = Vec::new();
    let mut c: usize = 0;
    while c < count
        invariant
            c <= count,
            closed.len() == c,
            forall|d: int| 0 <= d < c ==> #[trigger] closed@[d],
        decreases count - c,
    {
        closed.push(true);
        c += 1;
    }
    let mut i: usize = 0;
    while i < uses.len()
        invariant
            i <= uses.len(),
            total.len() == uses.len(),
            forall|i: int| 0 <= i < uses.len() ==> #[trigger] total@[i] == edge_multiplicity(uses@, i),
            forall|i: int| 0 <= i < uses.len() ==> (#[trigger] uses@[i]).face_idx < label.len(),
            forall|f: int| 0 <= f < label.len() ==> #[trigger] label@[f] < count,
            closed.len() == count,
            forall|d: int|
                0 <= d < count ==> #[trigger] closed@[d] == forall|j: int|
                    0 <= j < i && label@[#[trigger] uses@[j].face_idx as int] == d ==> edge_multiplicity(uses@, j) == 2,
        decreases uses.len() - i,
    {
        if total[i] != 2 {
            let c = label[uses[i].face_idx];
            closed[c] = false;
        }
        i += 1;
    }
    closed
}

/// Count the `true` entries of a vector.
fn count_true_entries(v: &Vec<bool>) -> (n: usize)
    ensures
        n == count_true(v@, v.len() as int),
{
    let mut n: usize = 0;
    let mut i: usize = 0;
    while i < v.len()
        invariant
            i <= v.len(),
            n == count_true(v@, i as int),
            n <= i,
        decreases v.len() - i,
    {
        if v[i] {
            n += 1;
        }
        i += 1;
    }
    n
}

/// Collect all edge uses and the degenerate faces of a mesh.
fn collect_edge_uses(faces: &Vec<MeshFace>, has_normal: &Vec<bool>) -> (r: (Vec<EdgeUse>, Vec<usize>))
    requires
        has_normal.len() == faces.len(),
        4 * faces.len() <= usize::MAX,
    ensures
        r.0@ == mesh_uses(faces@),
        r.1@ == degenerate_faces(faces@, has_normal@, faces.len() as int),
{
    let mut uses: Vec<EdgeUse> = Vec::new();
    let mut degenerate: Vec<usize> = Vec::new();
    let mut f: usize = 0;
    while f < faces.len()
        invariant
            f <= faces.len(),
            has_normal.len() == faces.len(),
            4 * faces.len() <= usize::MAX,
            uses@ == mesh_uses(faces@.take(f as int)),
            degenerate@ == degenerate_faces(faces@, has_normal@, f as int),
        decreases faces.len() - f,
    {
        let face = faces[f];
        let ghost before = uses@;
        proof {
            lemma_mesh_uses_shape(faces@.take(f as int));
        }
        let vc = face.vertex_count as usize;
        if vc < 3 || vc > 4 {
            degenerate.push(f);
        } else {
            if !has_normal[f] {
                degenerate.push(f);
            }
            let mut e: usize = 0;
            while e < vc
                invariant
                    3 <= vc <= 4,
                    vc == face.vertex_count,
                    e <= vc,
                    f < faces.len(),
                    face == faces@[f as int],
                    4 * faces.len() <= usize::MAX,
                    before.len() <= 4 * f,
                    uses@ == before + face_uses(f as int, face).take(e as int),
                decreases vc - e,
            {
                let start = face.vertex_indices[e];
                let next = if e + 1 == vc {
                    0
                } else {
                    e + 1
                };
                let end = face.vertex_indices[next];
                proof {
                    if e + 1 == vc {
                        vstd::arithmetic::div_mod::lemma_mod_self_0(vc as int);
                    } else {
                        vstd::arithmetic::div_mod::lemma_small_mod((e + 1) as nat, vc as nat);
                    }
                    assert(next as int == (e as int + 1) % (vc as int));
                }
                uses.push(EdgeUse { face_idx: f, edge_idx: e, start, end });
                e += 1;
                proof {
                    assert(face_uses(f as int, face).take(e as int) == face_uses(
                        f as int,
                        face,
                    ).take(e - 1 as int).push(face_uses(f as int, face)[e - 1]));
                }
            }
            proof {
                assert(face_uses(f as int, face).take(vc as int) == face_uses(f as int, face));
            }
        }
        proof {
            let t = faces@.take(f + 1 as int);
            assert(t.drop_last() == faces@.take(f as int));
            assert(t.last() == face);
        }
        f += 1;
    }
    proof {
        assert(faces@.take(faces.len() as int) == faces@);
    }
    (uses, degenerate)
}

/// Faces keep everything but their neighbors.
pub open spec fn same_face_data(a: MeshFace, b: MeshFace) -> bool {
    &&& a.vertex_count == b.vertex_count
    &&& a.vertex_indices == b.vertex_indices
    &&& a.planar_hypothesis == b.planar_hypothesis
    &&& a.cylindrical_hypothesis == b.cylindrical_hypothesis
    &&& a.spherical_hypothesis == b.spherical_hypothesis
    &&& a.conical_hypothesis == b.conical_hypothesis
    &&& a.toroidal_hypothesis == b.toroidal_hypothesis
}

/// What topology validation finds beyond the counts in the statistics.
#[derive(Debug)]
pub struct TopologyAnalysis {
    /// Faces that are not triangles or quads, or have no computable normal, ascending.
    pub degenerate_faces: Vec<usize>,
    /// Connected shell of each face; shells are numbered in order of their smallest face.
    pub face_component: Vec<usize>,
    /// For each shell, whether every edge of it is shared by exactly two faces.
    pub component_closed: Vec<bool>,
}

/// The statistics that validation records for a mesh.
pub open spec fn expected_stats(
    us: Seq<EdgeUse>,
    num_faces: nat,
    num_vertices: nat,
    num_degenerate: nat,
    shells: nat,
    solids: nat,
    mesh_quads: usize,
) -> MeshValidationStats {
    MeshValidationStats {
        mesh_faces: num_faces as usize,
        mesh_vertices: num_vertices as usize,
        mesh_edges_open: open_edge_count(us, us.len() as int) as usize,
        mesh_edges_non_manifold: non_manifold_edge_count(us, us.len() as int) as usize,
        mesh_edges_inconsistent_orientation: misoriented_edge_count(us, us.len() as int) as usize,
        mesh_faces_degenerate: num_degenerate as usize,
        connected_shells: shells as usize,
        solids: solids as usize,
        voids_within_solids: 0,
        mesh_quads: mesh_quads,
    }
}

/// Validate the topology of a mesh and populate its per-edge neighbors and statistics.
///
/// `has_normal[f]` says whether face `f` has a computable (non-vanishing) normal.
/// Every edge of every triangle or quad is matched with the other faces using the same
/// undirected edge: an edge with one use is open, with more than two non-manifold, and a
/// two-use edge whose faces traverse it in the same direction is inconsistently oriented.
/// Across each two-use edge the two faces become each other's neighbor; every other edge
/// slot gets -1. Faces sharing an edge form connected shells; a shell is closed (a solid)
/// when all of its edges have exactly two uses.
pub fn validate_and_populate_topology(
    faces: &mut Vec<MeshFace>,
    num_vertices: usize,
    has_normal: &Vec<bool>,
    stats: &mut MeshValidationStats,
) -> (r: TopologyAnalysis)
    requires
        old(faces).len() <= i32::MAX,
        4 * old(faces).len() <= usize::MAX,
        has_normal.len() == old(faces).len(),
        faces_reference_vertices(old(faces)@, num_vertices as nat),
    ensures
        ({
            let us = mesh_uses(old(faces)@);
            let num_faces = old(faces).len();
            &&& final(faces).len() == num_faces
            &&& forall|f: int| 0 <= f < num_faces ==> same_face_data(#[trigger] final(faces)@[f], old(faces)@[f])
            &&& forall|i: int|
                0 <= i < us.len() ==> final(faces)@[#[trigger] us[i].face_idx as int].neighbors@[us[i].edge_idx as int]
                    == neighbor_of_use(us, i)
            &&& forall|f: int, e: int|
                0 <= f < num_faces && 0 <= e < 4 && !(is_polygon(old(faces)@[f]) && e < old(faces)@[f].vertex_count)
                    ==> #[trigger] final(faces)@[f].neighbors@[e] == -1
            &&& r.degenerate_faces@ == degenerate_faces(old(faces)@, has_normal@, num_faces as int)
            &&& r.face_component.len() == num_faces
            &&& r.component_closed.len() == final(stats).connected_shells
            &&& forall|f: int| 0 <= f < num_faces ==> #[trigger] r.face_component@[f] < final(stats).connected_shells
            &&& forall|f: int, g: int|
                0 <= f < num_faces && 0 <= g < num_faces && #[trigger] faces_adjacent(us, f, g) ==> r.face_component@[f]
                    == r.face_component@[g]
            &&& forall|f: int, g: int|
                0 <= f < num_faces && 0 <= g < num_faces && #[trigger] r.face_component@[f]
                    == #[trigger] r.face_component@[g] ==> faces_connected(us, f, g)
            &&& forall|c: int|
                0 <= c < final(stats).connected_shells ==> #[trigger] label_in_use(r.face_component@, c)
            &&& forall|f: int|
                #![trigger r.face_component@[f]]
                0 <= f < num_faces ==> (exists|h: int|
                    0 <= h < f && #[trigger] r.face_component@[h] == r.face_component@[f]) || (forall|h: int|
                    0 <= h < f ==> #[trigger] r.face_component@[h] < r.face_component@[f])
            &&& forall|c: int|
                0 <= c < r.component_closed.len() ==> #[trigger] r.component_closed@[c] == component_closed(
                    us,
                    r.face_component@,
                    c,
                )
            &&& *final(stats) == expected_stats(
                us,
                num_faces as nat,
                num_vertices as nat,
                r.degenerate_faces.len() as nat,
                final(stats).connected_shells as nat,
                count_true(r.component_closed@, r.component_closed.len() as int),
                old(stats).mesh_quads,
            )
        }),
{
    let ghost faces0 = faces@;
    let num_faces = faces.len();
    let (uses, degenerate) = collect_edge_uses(faces, has_normal);
    let ghost us = uses@;
    proof {
        lemma_mesh_uses_shape(faces0);
        lemma_use_keys_in_range(faces0, num_vertices as nat);
    }
    let (buckets, before) = bucket_uses(&uses, num_vertices);
    let tallies = tally_uses(&uses, &buckets, num_vertices);
    let adj = build_face_adjacency(&uses, &buckets, num_vertices, num_faces);
    proof {
        assert forall|f: int, g: int| #[trigger] faces_adjacent(us, f, g) implies 0 <= g < num_faces by {
            let (i, j) = choose|i: int, j: int|
                0 <= i < us.len() && 0 <= j < us.len() && i != j && key_of(#[trigger] us[i]) == key_of(#[trigger] us[j])
                    && us[i].face_idx as int == f && us[j].face_idx as int == g;
            assert(use_matches_face(faces0, us[j]));
        }
    }
    let comps = label_components(&adj, num_faces, Ghost(us));
    let closed = closed_components(&uses, &tallies.total, &comps.label, comps.count);
    let solids = count_true_entries(&closed);

    // Reset every neighbor slot, then link the two faces of each two-use edge.
    let mut f: usize = 0;
    while f < num_faces
        invariant
            f <= num_faces,
            faces.len() == num_faces,
            forall|g: int| 0 <= g < num_faces ==> same_face_data(#[trigger] faces@[g], faces0[g]),
            forall|g: int, e: int| 0 <= g < f && 0 <= e < 4 ==> #[trigger] faces@[g].neighbors@[e] == -1,
        decreases num_faces - f,
    {
        faces[f].neighbors = [-1, -1, -1, -1];
        f += 1;
    }
    let mut open: usize = 0;
    let mut non_manifold: usize = 0;
    let mut misoriented: usize = 0;
    let mut i: usize = 0;
    while i < uses.len()
        invariant
            i <= uses.len(),
            us == uses@,
            us == mesh_uses(faces0),
            forall|i: int| 0 <= i < us.len() ==> use_matches_face(faces0, #[trigger] us[i]),
            uses_increasing(us),
            us.len() <= 4 * num_faces,
            num_faces <= i32::MAX,
            faces.len() == num_faces,
            faces0.len() == num_faces,
            forall|g: int| 0 <= g < num_faces ==> same_face_data(#[trigger] faces@[g], faces0[g]),
            before.len() == uses.len(),
            forall|j: int| 0 <= j < uses.len() ==> #[trigger] before@[j] == count_key(us, key_of(us[j]), false, j),
            tallies.total.len() == uses.len(),
            tallies.forward.len() == uses.len(),
            tallies.partner.len() == uses.len(),
            forall|j: int| 0 <= j < uses.len() ==> #[trigger] tallies.total@[j] == edge_multiplicity(us, j),
            forall|j: int| 0 <= j < uses.len() ==> #[trigger] tallies.forward@[j] == count_key(us, key_of(us[j]), true, us.len() as int),
            forall|j: int| 0 <= j < uses.len() && #[trigger] tallies.partner@[j] != usize::MAX ==> (tallies.partner@[j] < uses.len()
                && tallies.partner@[j] != j && key_of(us[tallies.partner@[j] as int]) == key_of(us[j])),
            forall|j: int| 0 <= j < uses.len() && edge_multiplicity(us, j) >= 2 ==> #[trigger] tallies.partner@[j] != usize::MAX,
            open == open_edge_count(us, i as int),
            non_manifold == non_manifold_edge_count(us, i as int),
            misoriented == misoriented_edge_count(us, i as int),
            open <= i,
            non_manifold <= i,
            misoriented <= i,
            forall|j: int|
                0 <= j < i ==> faces@[#[trigger] us[j].face_idx as int].neighbors@[us[j].edge_idx as int] == neighbor_of_use(us, j),
            forall|g: int, e: int|
                0 <= g < num_faces && 0 <= e < 4 && (forall|j: int| 0 <= j < i ==> !(#[trigger] us[j].face_idx as int == g
                    && us[j].edge_idx as int == e)) ==> #[trigger] faces@[g].neighbors@[e] == -1,
        decreases uses.len() - i,
    {
        let u = uses[i];
        let total = tallies.total[i];
        let first = before[i] == 0;
        let lo_ne_hi = u.start != u.end;
        proof {
            assert(use_matches_face(faces0, us[i as int]));
        }
        if first && total == 1 {
            open += 1;
        }
        if first && total > 2 {
            non_manifold += 1;
        }
        if first && total == 2 && lo_ne_hi && tallies.forward[i] != 1 {
            misoriented += 1;
        }
        if total == 2 {
            let p = tallies.partner[i];
            let other_face = uses[p].face_idx;
            proof {
                lemma_other_use_unique(us, i as int, p as int);
                assert(use_matches_face(faces0, us[p as int]));
            }
            let ghost old_faces = faces@;
            faces[u.face_idx].neighbors[u.edge_idx] = other_face as i32;
            proof {
                assert forall|j: int|
                    0 <= j < i implies faces@[#[trigger] us[j].face_idx as int].neighbors@[us[j].edge_idx as int]
                        == neighbor_of_use(us, j) by {
                    assert(us[j].face_idx < us[i as int].face_idx || (us[j].face_idx == us[i as int].face_idx
                        && us[j].edge_idx < us[i as int].edge_idx));
                }
                assert forall|g: int, e: int|
                    0 <= g < num_faces && 0 <= e < 4 && (forall|j: int| 0 <= j < i + 1 ==> !(#[trigger] us[j].face_idx as int == g
                        && us[j].edge_idx as int == e)) implies #[trigger] faces@[g].neighbors@[e] == -1 by {
                    assert(!(us[i as int].face_idx as int == g && us[i as int].edge_idx as int == e));
                }
            }
        } else {
            proof {
                assert(faces@[us[i as int].face_idx as int].neighbors@[us[i as int].edge_idx as int] == -1) by {
                    assert forall|j: int| 0 <= j < i implies !(#[trigger] us[j].face_idx as int == us[i as int].face_idx as int
                        && us[j].edge_idx as int == us[i as int].edge_idx as int) by {
                        assert(us[j].face_idx < us[i as int].face_idx || (us[j].face_idx == us[i as int].face_idx
                            && us[j].edge_idx < us[i as int].edge_idx));
                    }
                }
            }
        }
        i += 1;
    }
    proof {
        assert forall|g: int, e: int|
            0 <= g < num_faces && 0 <= e < 4 && !(is_polygon(faces0[g]) && e < faces0[g].vertex_count) implies #[trigger] faces@[g].neighbors@[e]
                == -1 by {
            assert forall|j: int| 0 <= j < us.len() implies !(#[trigger] us[j].face_idx as int == g && us[j].edge_idx as int == e) by {
                assert(use_matches_face(faces0, us[j]));
            }
        }
    }
    stats.mesh_faces = num_faces;
    stats.mesh_vertices = num_vertices;
    stats.mesh_edges_open = open;
    stats.mesh_edges_non_manifold = non_manifold;
    stats.mesh_edges_inconsistent_orientation = misoriented;
    stats.mesh_faces_degenerate = degenerate.len();
    stats.connected_shells = comps.count;
    stats.solids = solids;
    stats.voids_within_solids = 0;
    TopologyAnalysis { degenerate_faces: degenerate, face_component: comps.label, component_closed: closed }
}

/// Why a mesh fails validation.
#[derive(Debug)]
pub enum MeshValidationError {
    DegenerateFaces { face_indices: Vec<usize> },
    NonManifoldEdges { edge_count: usize },
    InconsistentOrientation { edge_count: usize },
    /// A closed shell whose faces enclose a negative signed volume (normals point inward).
    InvertedNormals { shell_index: usize },
}

/// Shell `c` is the first closed shell marked inverted.
pub open spec fn is_first_inverted_shell(closed: Seq<bool>, inverted: Seq<bool>, c: int) -> bool {
    &&& 0 <= c < closed.len()
    &&& closed[c] && inverted[c]
    &&& forall|d: int| 0 <= d < c ==> !(#[trigger] closed[d] && inverted[d])
}

/// Some closed shell is marked inverted.
pub open spec fn has_inverted_shell(closed: Seq<bool>, inverted: Seq<bool>) -> bool {
    exists|c: int| 0 <= c < closed.len() && #[trigger] closed[c] && inverted[c]
}

/// Decide the outcome of validation, in this order of precedence: the first closed shell
/// whose signed volume is negative (`shell_inverted`), degenerate faces, non-manifold edges,
/// inconsistently oriented edges; otherwise the mesh is valid.
pub fn validation_outcome(
    degenerate_faces: Vec<usize>,
    component_closed: &Vec<bool>,
    shell_inverted: &Vec<bool>,
    stats: &MeshValidationStats,
) -> (r: Result<(), MeshValidationError>)
    requires
        shell_inverted.len() == component_closed.len(),
    ensures
        has_inverted_shell(component_closed@, shell_inverted@) <==> (r matches Err(
            MeshValidationError::InvertedNormals { .. },
        )),
        r matches Err(MeshValidationError::InvertedNormals { shell_index }) ==> is_first_inverted_shell(
            component_closed@,
            shell_inverted@,
            shell_index as int,
        ),
        !has_inverted_shell(component_closed@, shell_inverted@) ==> {
            if degenerate_faces.len() > 0 {
                r matches Err(MeshValidationError::DegenerateFaces { face_indices }) && face_indices@ == degenerate_faces@
            } else if stats.mesh_edges_non_manifold > 0 {
                r matches Err(MeshValidationError::NonManifoldEdges { edge_count }) && edge_count
                    == stats.mesh_edges_non_manifold
            } else if stats.mesh_edges_inconsistent_orientation > 0 {
                r matches Err(MeshValidationError::InconsistentOrientation { edge_count }) && edge_count
                    == stats.mesh_edges_inconsistent_orientation
            } else {
                r is Ok
            }
        },
{
    let mut c: usize = 0;
    while c < component_closed.len()
        invariant
            c <= component_closed.len(),
            shell_inverted.len() == component_closed.len(),
            forall|d: int| 0 <= d < c ==> !(#[trigger] component_closed@[d] && shell_inverted@[d]),
        decreases component_closed.len() - c,
    {
        if component_closed[c] && shell_inverted[c] {
            return Err(MeshValidationError::InvertedNormals { shell_index: c });
        }
        c += 1;
    }
    if degenerate_faces.len() > 0 {
        return Err(MeshValidationError::DegenerateFaces { face_indices: degenerate_faces });
    }
    if stats.mesh_edges_non_manifold > 0 {
        return Err(MeshValidationError::NonManifoldEdges { edge_count: stats.mesh_edges_non_manifold });
    }
    if stats.mesh_edges_inconsistent_orientation > 0 {
        return Err(
            MeshValidationError::InconsistentOrientation { edge_count: stats.mesh_edges_inconsistent_orientation },
        );
    }
    Ok(())
}

/// Face `g` has an edge whose neighbor is `f`.
pub open spec fn points_back(faces: Seq<MeshFace>, g: int, f: int) -> bool {
    exists|k: int| 0 <= k < faces[g].vertex_count && #[trigger] faces[g].neighbors@[k] == f as i32
}

/// Neighbors are mutual: across each edge whose neighbor is a face still in the mesh (with a
/// nonzero vertex count), that neighbor has an edge back to the face.
pub open spec fn neighbors_mutual(faces: Seq<MeshFace>) -> bool {
    forall|f: int, k: int|
        #![trigger faces[f].neighbors@[k]]
        0 <= f < faces.len() && 0 <= k < faces[f].vertex_count && 0 <= faces[f].neighbors@[k] < faces.len()
            && faces[faces[f].neighbors@[k] as int].vertex_count != 0 ==> points_back(faces, faces[f].neighbors@[k] as int, f)
}

/// Validation leaves neighbors mutual: when each edge of each triangle or quad records the
/// other face across a two-face edge (and -1 otherwise), and every other slot is -1, every
/// neighbor has an edge back.
pub proof fn lemma_validated_neighbors_mutual(before: Seq<MeshFace>, after: Seq<MeshFace>)
    requires
        before.len() <= i32::MAX,
        after.len() == before.len(),
        forall|f: int| 0 <= f < before.len() ==> same_face_data(#[trigger] after[f], before[f]),
        forall|f: int| 0 <= f < before.len() ==> (#[trigger] before[f]).vertex_count <= 4,
        forall|i: int|
            0 <= i < mesh_uses(before).len() ==> after[#[trigger] mesh_uses(before)[i].face_idx as int].neighbors@[mesh_uses(
                before,
            )[i].edge_idx as int] == neighbor_of_use(mesh_uses(before), i),
        forall|f: int, e: int|
            0 <= f < before.len() && 0 <= e < 4 && !(is_polygon(before[f]) && e < before[f].vertex_count) ==> #[trigger] after[f].neighbors@[e]
                == -1,
    ensures
        neighbors_mutual(after),
{
    assert forall|f: int, k: int|
        0 <= f < after.len() && 0 <= k < after[f].vertex_count && 0 <= #[trigger] after[f].neighbors@[k] < after.len()
            && after[after[f].neighbors@[k] as int].vertex_count != 0 implies points_back(after, after[f].neighbors@[k] as int, f) by {
        lemma_validated_slot_points_back(before, after, f, k);
    }
}

/// Start vertex of edge `k` of a face.
pub open spec fn edge_start(face: MeshFace, k: int) -> usize {
    face.vertex_indices@[k]
}

/// End vertex of edge `k` of a face.
pub open spec fn edge_end(face: MeshFace, k: int) -> usize {
    face.vertex_indices@[(k + 1) % (face.vertex_count as int)]
}

/// Edge `k2` of face `g` is another edge slot of the mesh over the same undirected edge as
/// edge `k` of face `f`.
pub open spec fn shares_edge(faces: Seq<MeshFace>, f: int, k: int, g: int, k2: int) -> bool {
    let (a, b) = (edge_start(faces[f], k), edge_end(faces[f], k));
    let (c, d) = (edge_start(faces[g], k2), edge_end(faces[g], k2));
    &&& 0 <= g < faces.len()
    &&& 0 <= k2 < faces[g].vertex_count
    &&& (g, k2) != (f, k)
    &&& ((c == a && d == b) || (c == b && d == a))
}

/// The neighbor of a successfully validated mesh across one of its edges: -1 exactly when
/// no other edge slot of the mesh lies on that edge; otherwise a face that runs the same
/// edge the opposite way and names this face as its neighbor across it.
pub open spec fn validated_slot(faces: Seq<MeshFace>, f: int, k: int) -> bool {
    let n = faces[f].neighbors@[k];
    &&& (n == -1 <==> !exists|g: int, k2: int| #[trigger] shares_edge(faces, f, k, g, k2))
    &&& n != -1 ==> {
        let g = n as int;
        &&& 0 <= g < faces.len()
        &&& exists|k2: int|
            0 <= k2 < faces[g].vertex_count && (g, k2) != (f, k) && edge_start(faces[g], k2) == edge_end(faces[f], k)
                && edge_end(faces[g], k2) == edge_start(faces[f], k) && #[trigger] faces[g].neighbors@[k2] == f as i32
    }
}

/// After a validation that succeeds (no degenerate face, no non-manifold edge, no
/// inconsistently oriented edge), every face is a triangle or a quad with a normal; each of its edges has
/// neighbor -1 exactly when no other face uses that edge, and otherwise a neighbor that
/// traverses the edge in the opposite direction and has that edge's neighbor pointing back;
/// the slots past the last edge hold -1.
pub proof fn lemma_validated_neighbors_opposite(
    before: Seq<MeshFace>,
    has_normal: Seq<bool>,
    after: Seq<MeshFace>,
)
    requires
        before.len() <= i32::MAX,
        has_normal.len() == before.len(),
        after.len() == before.len(),
        forall|f: int| 0 <= f < before.len() ==> same_face_data(#[trigger] after[f], before[f]),
        forall|i: int|
            0 <= i < mesh_uses(before).len() ==> after[#[trigger] mesh_uses(before)[i].face_idx as int].neighbors@[mesh_uses(
                before,
            )[i].edge_idx as int] == neighbor_of_use(mesh_uses(before), i),
        forall|f: int, e: int|
            0 <= f < before.len() && 0 <= e < 4 && !(is_polygon(before[f]) && e < before[f].vertex_count) ==> #[trigger] after[f].neighbors@[e]
                == -1,
        degenerate_faces(before, has_normal, before.len() as int).len() == 0,
        non_manifold_edge_count(mesh_uses(before), mesh_uses(before).len() as int) == 0,
        misoriented_edge_count(mesh_uses(before), mesh_uses(before).len() as int) == 0,
    ensures
        forall|f: int| 0 <= f < after.len() ==> is_polygon(#[trigger] after[f]) && has_normal[f],
        forall|f: int, k: int|
            0 <= f < after.len() && 0 <= k < after[f].vertex_count ==> #[trigger] validated_slot(after, f, k),
        forall|f: int, k: int|
            0 <= f < after.len() && after[f].vertex_count <= k < 4 ==> #[trigger] after[f].neighbors@[k] == -1,
{
    lemma_no_degenerate_all_polygons(before, has_normal, before.len() as int);
    assert forall|f: int| 0 <= f < after.len() implies is_polygon(#[trigger] after[f]) && has_normal[f] by {
        assert(same_face_data(after[f], before[f]));
        assert(is_polygon(before[f]) && has_normal[f]);
    }
    assert forall|f: int, k: int| 0 <= f < after.len() && 0 <= k < after[f].vertex_count implies #[trigger] validated_slot(
        after,
        f,
        k,
    ) by {
        lemma_validated_slot(before, after, f, k);
    }
    assert forall|f: int, k: int| 0 <= f < after.len() && after[f].vertex_count <= k < 4 implies #[trigger] after[f].neighbors@[k]
        == -1 by {
        assert(same_face_data(after[f], before[f]));
    }
}

/// A mesh without degenerate faces has only triangles and quads, each with a normal.
proof fn lemma_no_degenerate_all_polygons(faces: Seq<MeshFace>, has_normal: Seq<bool>, n: int)
    requires
        0 <= n <= faces.len(),
        degenerate_faces(faces, has_normal, n).len() == 0,
    ensures
        forall|f: int| 0 <= f < n ==> is_polygon(#[trigger] faces[f]) && has_normal[f],
    decreases n,
{
    if n > 0 {
        assert(!is_degenerate(faces[n - 1], has_normal[n - 1]));
        lemma_no_degenerate_all_polygons(faces, has_normal, n - 1);
        assert forall|f: int| 0 <= f < n implies is_polygon(#[trigger] faces[f]) && has_normal[f] by {
            if f < n - 1 {
                assert(is_polygon(faces[f]));
                assert(has_normal[f]);
            }
        }
    }
}

/// With no non-manifold and no misoriented edge counted, no use is the first use of such an
/// edge.
proof fn lemma_no_bad_first_uses(us: Seq<EdgeUse>, n: int)
    requires
        0 <= n <= us.len(),
        non_manifold_edge_count(us, n) == 0,
        misoriented_edge_count(us, n) == 0,
    ensures
        forall|m: int| 0 <= m < n ==> !#[trigger] is_non_manifold_edge(us, m),
        forall|m: int| 0 <= m < n ==> !#[trigger] is_misoriented_edge(us, m),
    decreases n,
{
    if n > 0 {
        lemma_no_bad_first_uses(us, n - 1);
    }
}

/// Every use has a first use of its edge at or before it.
proof fn lemma_first_use_exists(us: Seq<EdgeUse>, i: int)
    requires
        0 <= i < us.len(),
    ensures
        exists|j: int| 0 <= j <= i && key_of(#[trigger] us[j]) == key_of(us[i]) && is_first_use(us, j),
    decreases i,
{
    let k = key_of(us[i]);
    if count_key(us, k, false, i) != 0 {
        lemma_count_pos_exists(us, k, i);
        let j = choose|j: int| 0 <= j < i && key_of(us[j]) == k;
        lemma_first_use_exists(us, j);
        let j2 = choose|j2: int| 0 <= j2 <= j && key_of(#[trigger] us[j2]) == key_of(us[j]) && is_first_use(us, j2);
        assert(key_of(us[j2]) == key_of(us[i]));
    }
}

/// Among the first `n` uses, when the only uses of edge `k` are `i` and `o`, the uses that
/// run from `k.0` to `k.1` are counted among those two.
proof fn lemma_forward_count_pair(us: Seq<EdgeUse>, k: (usize, usize), n: int, i: int, o: int)
    requires
        0 <= n <= us.len(),
        0 <= i < us.len(),
        0 <= o < us.len(),
        i != o,
        forall|m: int| 0 <= m < us.len() && key_of(#[trigger] us[m]) == k ==> m == i || m == o,
    ensures
        count_key(us, k, true, n) == (if i < n && key_of(us[i]) == k && us[i].start == k.0 {
            1int
        } else {
            0int
        }) + (if o < n && key_of(us[o]) == k && us[o].start == k.0 {
            1int
        } else {
            0int
        }),
    decreases n,
{
    if n > 0 {
        lemma_forward_count_pair(us, k, n - 1, i, o);
        if key_of(us[n - 1]) == k {
            assert(n - 1 == i || n - 1 == o);
        }
    }
}

/// In a mesh without non-manifold and misoriented edges, each use's edge has one or two
/// uses, and the second use runs the opposite way.
proof fn lemma_valid_use_partner(us: Seq<EdgeUse>, i: int)
    requires
        0 <= i < us.len(),
        non_manifold_edge_count(us, us.len() as int) == 0,
        misoriented_edge_count(us, us.len() as int) == 0,
    ensures
        edge_multiplicity(us, i) == 1 || edge_multiplicity(us, i) == 2,
        edge_multiplicity(us, i) == 2 ==> us[other_use(us, i)].start == us[i].end && us[other_use(us, i)].end
            == us[i].start,
{
    let k = key_of(us[i]);
    let len = us.len() as int;
    lemma_count_one(us, k, len, i);
    lemma_first_use_exists(us, i);
    let j = choose|j: int| 0 <= j <= i && key_of(#[trigger] us[j]) == k && is_first_use(us, j);
    lemma_no_bad_first_uses(us, len);
    assert(!is_non_manifold_edge(us, j));
    assert(!is_misoriented_edge(us, j));
    if edge_multiplicity(us, i) == 2 {
        lemma_count_two_exists(us, k, len, i);
        lemma_neighbors_mutual(us, i);
        let o = other_use(us, i);
        assert(key_of(us[o]) == k);
        assert forall|m: int| 0 <= m < len && key_of(#[trigger] us[m]) == k implies m == i || m == o by {
            if m != i && m != o {
                lemma_count_three(us, k, len, i, o, m);
            }
        }
        lemma_forward_count_pair(us, k, len, i, o);
    }
}

/// One edge slot of a successfully validated mesh.
#[verifier::rlimit(60)]
proof fn lemma_validated_slot(before: Seq<MeshFace>, after: Seq<MeshFace>, f: int, k: int)
    requires
        before.len() <= i32::MAX,
        after.len() == before.len(),
        forall|f: int| 0 <= f < before.len() ==> same_face_data(#[trigger] after[f], before[f]),
        forall|f: int| 0 <= f < before.len() ==> is_polygon(#[trigger] before[f]),
        forall|i: int|
            0 <= i < mesh_uses(before).len() ==> after[#[trigger] mesh_uses(before)[i].face_idx as int].neighbors@[mesh_uses(
                before,
            )[i].edge_idx as int] == neighbor_of_use(mesh_uses(before), i),
        non_manifold_edge_count(mesh_uses(before), mesh_uses(before).len() as int) == 0,
        misoriented_edge_count(mesh_uses(before), mesh_uses(before).len() as int) == 0,
        0 <= f < after.len(),
        0 <= k < after[f].vertex_count,
    ensures
        validated_slot(after, f, k),
{
    let us = mesh_uses(before);
    lemma_mesh_uses_shape(before);
    assert(same_face_data(after[f], before[f]));
    assert(is_polygon(before[f]));
    lemma_polygon_edges_are_uses(before, f, k);
    let i = choose|i: int| 0 <= i < us.len() && #[trigger] us[i].face_idx as int == f && us[i].edge_idx as int == k;
    lemma_use_matches(before, i);
    assert(us[i].start == edge_start(after[f], k));
    assert(us[i].end == edge_end(after[f], k));
    assert(after[f].neighbors@[k] == neighbor_of_use(us, i));
    lemma_valid_use_partner(us, i);
    if edge_multiplicity(us, i) == 1 {
        assert forall|g: int, k2: int| !#[trigger] shares_edge(after, f, k, g, k2) by {
            if shares_edge(after, f, k, g, k2) {
                assert(same_face_data(after[g], before[g]));
                assert(is_polygon(before[g]));
                lemma_polygon_edges_are_uses(before, g, k2);
                let j = choose|j: int| 0 <= j < us.len() && #[trigger] us[j].face_idx as int == g && us[j].edge_idx as int == k2;
                lemma_use_matches(before, j);
                assert(key_of(us[j]) == key_of(us[i]));
                lemma_count_two(us, key_of(us[i]), us.len() as int, i, j);
            }
        }
    } else {
        lemma_neighbors_mutual(us, i);
        let o = other_use(us, i);
        lemma_use_matches(before, o);
        let g = us[o].face_idx as int;
        let k2 = us[o].edge_idx as int;
        assert(after[g].neighbors@[k2] == neighbor_of_use(us, o));
        assert(same_face_data(after[g], before[g]));
        assert(us[o].face_idx < us[i].face_idx || us[i].face_idx < us[o].face_idx || us[o].edge_idx != us[i].edge_idx);
        assert(after[f].neighbors@[k] as int == g);
        assert(shares_edge(after, f, k, g, k2));
        assert(after[g].neighbors@[k2] == f as i32);
    }
}

/// Use `j` of a mesh describes an edge of one of its polygons.
proof fn lemma_use_matches(faces: Seq<MeshFace>, j: int)
    requires
        faces.len() <= usize::MAX,
        0 <= j < mesh_uses(faces).len(),
    ensures
        use_matches_face(faces, mesh_uses(faces)[j]),
{
    lemma_mesh_uses_shape(faces);
}

/// One recorded neighbor has an edge back.
#[verifier::rlimit(40)]
proof fn lemma_validated_slot_points_back(before: Seq<MeshFace>, after: Seq<MeshFace>, f: int, k: int)
    requires
        before.len() <= i32::MAX,
        after.len() == before.len(),
        forall|f: int| 0 <= f < before.len() ==> same_face_data(#[trigger] after[f], before[f]),
        forall|f: int| 0 <= f < before.len() ==> (#[trigger] before[f]).vertex_count <= 4,
        forall|i: int|
            0 <= i < mesh_uses(before).len() ==> after[#[trigger] mesh_uses(before)[i].face_idx as int].neighbors@[mesh_uses(
                before,
            )[i].edge_idx as int] == neighbor_of_use(mesh_uses(before), i),
        forall|f: int, e: int|
            0 <= f < before.len() && 0 <= e < 4 && !(is_polygon(before[f]) && e < before[f].vertex_count) ==> #[trigger] after[f].neighbors@[e]
                == -1,
        0 <= f < after.len(),
        0 <= k < after[f].vertex_count,
        0 <= after[f].neighbors@[k] < after.len(),
    ensures
        points_back(after, after[f].neighbors@[k] as int, f),
{
    let us = mesh_uses(before);
    assert(same_face_data(after[f], before[f]));
    assert(before[f].vertex_count <= 4);
    assert(is_polygon(before[f]) && k < before[f].vertex_count) by {
        if !(is_polygon(before[f]) && k < before[f].vertex_count) {
            assert(after[f].neighbors@[k] == -1);
        }
    }
    lemma_polygon_edges_are_uses(before, f, k);
    let i = choose|i: int| 0 <= i < us.len() && #[trigger] us[i].face_idx as int == f && us[i].edge_idx as int == k;
    assert(after[f].neighbors@[k] == neighbor_of_use(us, i));
    assert(edge_multiplicity(us, i) == 2);
    lemma_neighbors_mutual(us, i);
    let j = other_use(us, i);
    lemma_use_matches(before, j);
    let g = us[j].face_idx as int;
    assert(after[f].neighbors@[k] as int == g);
    assert(after[g].neighbors@[us[j].edge_idx as int] == f as i32);
    assert(same_face_data(after[g], before[g]));
    assert(us[j].edge_idx < after[g].vertex_count);
}

/// Neighbors are mutual: across a two-face edge, the other use records this use's face.
pub proof fn lemma_neighbors_mutual(us: Seq<EdgeUse>, i: int)
    requires
        0 <= i < us.len(),
        edge_multiplicity(us, i) == 2,
    ensures
        0 <= other_use(us, i) < us.len(),
        other_use(us, i) != i,
        neighbor_of_use(us, other_use(us, i)) == us[i].face_idx as i32,
{
    let k = key_of(us[i]);
    lemma_count_two_exists(us, k, us.len() as int, i);
    let j = other_use(us, i);
    assert(key_of(us[j]) == k);
    assert(edge_multiplicity(us, j) == 2);
    lemma_other_use_unique(us, j, i);
}

/// An edge used twice has a use other than `i`.
proof fn lemma_count_two_exists(us: Seq<EdgeUse>, k: (usize, usize), n: int, i: int)
    requires
        0 <= i < n <= us.len(),
        key_of(us[i]) == k,
        count_key(us, k, false, n) >= 2,
    ensures
        exists|j: int| 0 <= j < us.len() && j != i && key_of(us[j]) == key_of(us[i]),
    decreases n,
{
    let m = n - 1;
    if key_of(us[m]) == k && m != i {
        assert(key_of(us[m]) == key_of(us[i]));
    } else if m == i {
        lemma_count_pos_exists(us, k, m);
    } else {
        lemma_count_two_exists(us, k, m, i);
    }
}

proof fn lemma_count_pos_exists(us: Seq<EdgeUse>, k: (usize, usize), n: int)
    requires
        0 <= n <= us.len(),
        count_key(us, k, false, n) >= 1,
    ensures
        exists|j: int| 0 <= j < n && key_of(us[j]) == k,
    decreases n,
{
    if key_of(us[n - 1]) != k {
        lemma_count_pos_exists(us, k, n - 1);
    }
}

proof fn lemma_count_true_bound(s: Seq<bool>, n: int)
    requires
        0 <= n,
    ensures
        count_true(s, n) <= n,
        count_true(s, n) == n ==> forall|c: int| 0 <= c < n ==> #[trigger] s[c],
    decreases n,
{
    if n > 0 {
        lemma_count_true_bound(s, n - 1);
    }
}

/// There are never more solids (closed shells) than shells.
pub proof fn lemma_solids_at_most_shells(closed: Seq<bool>)
    ensures
        count_true(closed, closed.len() as int) <= closed.len(),
{
    lemma_count_true_bound(closed, closed.len() as int);
}

proof fn lemma_no_open_or_non_manifold(us: Seq<EdgeUse>, n: int)
    requires
        0 <= n <= us.len(),
        forall|i: int| 0 <= i < us.len() ==> #[trigger] edge_multiplicity(us, i) == 2,
    ensures
        open_edge_count(us, n) == 0,
        non_manifold_edge_count(us, n) == 0,
    decreases n,
{
    if n > 0 {
        lemma_no_open_or_non_manifold(us, n - 1);
        assert(edge_multiplicity(us, n - 1) == 2);
    }
}

/// When every shell is closed (as many solids as shells), the mesh has no open and no
/// non-manifold edges.
pub proof fn lemma_all_closed_no_open_edges(us: Seq<EdgeUse>, label: Seq<usize>, closed: Seq<bool>)
    requires
        forall|i: int| 0 <= i < us.len() ==> #[trigger] label[us[i].face_idx as int] < closed.len(),
        forall|c: int| 0 <= c < closed.len() ==> #[trigger] closed[c] == component_closed(us, label, c),
        count_true(closed, closed.len() as int) == closed.len(),
    ensures
        open_edge_count(us, us.len() as int) == 0,
        non_manifold_edge_count(us, us.len() as int) == 0,
{
    lemma_count_true_bound(closed, closed.len() as int);
    assert forall|i: int| 0 <= i < us.len() implies #[trigger] edge_multiplicity(us, i) == 2 by {
        let c = label[us[i].face_idx as int] as int;
        assert(closed[c]);
        assert(component_closed(us, label, c));
    }
    lemma_no_open_or_non_manifold(us, us.len() as int);
}

/// Every edge of every triangle or quad occurs among the mesh's edge uses.
pub proof fn lemma_polygon_edges_are_uses(faces: Seq<MeshFace>, f: int, e: int)
    requires
        faces.len() <= usize::MAX,
        0 <= f < faces.len(),
        is_polygon(faces[f]),
        0 <= e < faces[f].vertex_count,
    ensures
        exists|i: int|
            0 <= i < mesh_uses(faces).len() && #[trigger] mesh_uses(faces)[i].face_idx as int == f
                && mesh_uses(faces)[i].edge_idx as int == e,
{
    lemma_mesh_uses_prefix(faces, f);
    lemma_mesh_uses_prefix(faces, f + 1);
    let t = faces.take(f + 1);
    assert(t.drop_last() == faces.take(f));
    assert(t.last() == faces[f]);
    let a = mesh_uses(faces.take(f));
    let b = face_uses(f, faces[f]);
    assert(mesh_uses(t) == a + b);
    let i = a.len() + e;
    assert(i < mesh_uses(t).len());
    assert(mesh_uses(t) == mesh_uses(faces).take(mesh_uses(t).len() as int));
    assert(mesh_uses(faces)[i] == mesh_uses(t)[i]);
    assert(mesh_uses(t)[i] == b[e]);
    assert(b[e].face_idx as int == f);
    assert(b[e].edge_idx as int == e);
}

} // verus!
