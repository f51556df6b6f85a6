//! Surface selection bookkeeping (stage 2.6): candidates built from the hypotheses, the
//! faces a chosen candidate takes over, and the single-face planar fallback.
//!
//! Which candidate wins a round is decided by comparing areas, computed elsewhere; this
//! module keeps the assignment of faces to selected surfaces.

use vstd::prelude::*;
use crate::topology::MeshFace;
use crate::adjacency::{strictly_increasing, insert_sorted};

verus! {

/// Identifies a selected surface hypothesis by type and index.
#[derive(Debug, Clone, Copy, PartialEq, Eq, Structural)]
pub enum SelectedSurface {
    Planar(usize),
    Cylindrical(usize),
    Spherical(usize),
    Conical(usize),
    Toroidal(usize),
}

/// Kinds of surface hypotheses.
#[derive(Debug, Clone, Copy, PartialEq, Eq, Structural)]
pub enum SurfaceKind {
    Planar,
    Cylindrical,
    Spherical,
    Conical,
    Toroidal,
}

/// The selected surface of a hypothesis of kind `kind` and index `index`.
pub open spec fn spec_surface_of(kind: SurfaceKind, index: usize) -> SelectedSurface {
    match kind {
        SurfaceKind::Planar => SelectedSurface::Planar(index),
        SurfaceKind::Cylindrical => SelectedSurface::Cylindrical(index),
        SurfaceKind::Spherical => SelectedSurface::Spherical(index),
        SurfaceKind::Conical => SelectedSurface::Conical(index),
        SurfaceKind::Toroidal => SelectedSurface::Toroidal(index),
    }
}

/// The selected surface of a hypothesis of kind `kind` and index `index`.
pub fn surface_of(kind: SurfaceKind, index: usize) -> (r: SelectedSurface)
    ensures
        r == spec_surface_of(kind, index),
{
    match kind {
        SurfaceKind::Planar => SelectedSurface::Planar(index),
        SurfaceKind::Cylindrical => SelectedSurface::Cylindrical(index),
        SurfaceKind::Spherical => SelectedSurface::Spherical(index),
        SurfaceKind::Conical => SelectedSurface::Conical(index),
        SurfaceKind::Toroidal => SelectedSurface::Toroidal(index),
    }
}

/// A hypothesis competing for faces.
#[derive(Debug)]
pub struct Candidate {
    pub kind: SurfaceKind,
    pub hypothesis_index: usize,
    pub faces: Vec<usize>,
}

/// The candidates of a list of hypotheses of one kind (given by their face lists): every
/// hypothesis, or for planes only those with more than one face.
pub open spec fn kind_candidates(kind: SurfaceKind, lists: Seq<Seq<usize>>, n: int) -> Seq<(SurfaceKind, usize, Seq<usize>)>
    decreases n,
{
    if n <= 0 {
        Seq::empty()
    } else if kind != SurfaceKind::Planar || lists[n - 1].len() > 1 {
        kind_candidates(kind, lists, n - 1).push((kind, (n - 1) as usize, lists[n - 1]))
    } else {
        kind_candidates(kind, lists, n - 1)
    }
}

/// The abstract content of a candidate.
pub open spec fn candidate_view(c: Candidate) -> (SurfaceKind, usize, Seq<usize>) {
    (c.kind, c.hypothesis_index, c.faces@)
}

/// Append the candidates of one kind.
pub fn push_candidates(out: &mut Vec<Candidate>, kind: SurfaceKind, lists: &Vec<Vec<usize>>)
    requires
        lists.len() < usize::MAX,
    ensures
        final(out).len() == old(out).len() + kind_candidates(kind, Seq::new(lists.len() as nat, |i: int| lists@[i]@), lists.len() as int).len(),
        forall|i: int| 0 <= i < old(out).len() ==> #[trigger] candidate_view(final(out)@[i]) == candidate_view(old(out)@[i]),
        forall|i: int|
            0 <= i < final(out).len() - old(out).len() ==> #[trigger] candidate_view(final(out)@[old(out).len() + i])
                == kind_candidates(kind, Seq::new(lists.len() as nat, |i: int| lists@[i]@), lists.len() as int)[i],
{
    let ghost lv = Seq::new(lists.len() as nat, |i: int| lists@[i]@);
    let ghost base = out@;
    let mut h: usize = 0;
    while h < lists.len()
        invariant
            h <= lists.len(),
            lists.len() < usize::MAX,
            lv == Seq::new(lists.len() as nat, |i: int| lists@[i]@),
            out.len() == base.len() + kind_candidates(kind, lv, h as int).len(),
            forall|i: int| 0 <= i < base.len() ==> #[trigger] candidate_view(out@[i]) == candidate_view(base[i]),
            forall|i: int|
                0 <= i < out.len() - base.len() ==> #[trigger] candidate_view(out@[base.len() + i]) == kind_candidates(kind, lv, h as int)[i],
        decreases lists.len() - h,
    {
        let is_planar = match kind {
            SurfaceKind::Planar => true,
            _ => false,
        };
        if !is_planar || lists[h].len() > 1 {
            let faces = copy_list(&lists[h]);
            let ghost prev = out@;
            out.push(Candidate { kind, hypothesis_index: h, faces });
            proof {
                assert forall|i: int| 0 <= i < out.len() - base.len() implies #[trigger] candidate_view(out@[base.len() + i])
                    == kind_candidates(kind, lv, h + 1 as int)[i] by {
                    if i < prev.len() - base.len() {
                        assert(out@[base.len() + i] == prev[base.len() + i]);
                    }
                }
                assert forall|i: int| 0 <= i < base.len() implies #[trigger] candidate_view(out@[i]) == candidate_view(base[i]) by {
                    assert(out@[i] == prev[i]);
                }
            }
        }
        h += 1;
    }
}

fn copy_list(v: &Vec<usize>) -> (r: Vec<usize>)
    ensures
        r@ == v@,
{
    let mut r: Vec<usize> = Vec::new();
    let mut i: usize = 0;
    while i < v.len()
        invariant
            i <= v.len(),
            r@ == v@.take(i as int),
        decreases v.len() - i,
    {
        r.push(v[i]);
        i += 1;
        proof {
            assert(v@.take(i as int) == v@.take(i - 1 as int).push(v@[i - 1]));
        }
    }
    proof {
        assert(v@.take(v.len() as int) == v@);
    }
    r
}

/// The faces of `faces` not yet assigned, in order.
pub open spec fn unassigned_of(faces: Seq<usize>, assigned: Seq<bool>, n: int) -> Seq<usize>
    decreases n,
{
    if n <= 0 {
        Seq::empty()
    } else if !assigned[faces[n - 1] as int] {
        unassigned_of(faces, assigned, n - 1).push(faces[n - 1])
    } else {
        unassigned_of(faces, assigned, n - 1)
    }
}

/// Vertex `v` is a corner of one of the listed faces.
pub open spec fn vertex_of_faces(mesh: Seq<MeshFace>, faces: Seq<usize>, v: usize) -> bool {
    exists|t: int, k: int|
        0 <= t < faces.len() && 0 <= k < mesh[faces[t] as int].vertex_count && #[trigger] mesh[faces[t] as int].vertex_indices@[k] == v
}

/// The state of surface selection: which faces are taken, and the surfaces chosen so far.
pub struct SurfaceSelection {
    pub assigned: Vec<bool>,
    pub selected: Vec<SelectedSurface>,
}

/// The faces a candidate takes over and their vertices.
#[derive(Debug)]
pub struct Taken {
    pub faces: Vec<usize>,
    pub vertices: Vec<usize>,
}

impl SurfaceSelection {
    /// No face taken, no surface selected.
    pub fn new(num_faces: usize) -> (r: Self)
        ensures
            r.assigned.len() == num_faces,
            forall|f: int| 0 <= f < num_faces ==> !#[trigger] r.assigned@[f],
            r.selected@ == Seq::<SelectedSurface>::empty(),
    {
        let mut assigned: Vec<bool> = Vec::new();
        let mut f: usize = 0;
        while f < num_faces
            invariant
                f <= num_faces,
                assigned.len() == f,
                forall|g: int| 0 <= g < f ==> !#[trigger] assigned@[g],
            decreases num_faces - f,
        {
            assigned.push(false);
            f += 1;
        }
        SurfaceSelection { assigned, selected: Vec::new() }
    }

    /// Select `candidate`: it takes its faces that are still unassigned (in its order);
    /// those become assigned and the candidate's surface is appended to the selection.
    /// Returns the faces taken and the sorted distinct vertices of those faces.
    pub fn take(&mut self, candidate: &Candidate, mesh: &Vec<MeshFace>) -> (r: Taken)
        requires
            forall|t: int| 0 <= t < candidate.faces.len() ==> #[trigger] candidate.faces@[t] < old(self).assigned.len(),
            old(self).assigned.len() == mesh.len(),
            forall|f: int| 0 <= f < mesh.len() ==> (#[trigger] mesh@[f]).vertex_count <= 4,
        ensures
            r.faces@ == unassigned_of(candidate.faces@, old(self).assigned@, candidate.faces.len() as int),
            forall|x: usize| #[trigger] r.faces@.contains(x) <==> (candidate.faces@.contains(x) && !old(self).assigned@[x as int]),
            r.faces.len() <= candidate.faces.len(),
            final(self).assigned.len() == old(self).assigned.len(),
            forall|f: int|
                0 <= f < old(self).assigned.len() ==> #[trigger] final(self).assigned@[f] == (old(self).assigned@[f]
                    || candidate.faces@.contains(f as usize)),
            final(self).selected@ == old(self).selected@.push(spec_surface_of(candidate.kind, candidate.hypothesis_index)),
            strictly_increasing(r.vertices@),
            forall|v: usize| #[trigger] r.vertices@.contains(v) <==> vertex_of_faces(mesh@, r.faces@, v),
            forall|t: int, k: int|
                0 <= t < r.faces.len() && 0 <= k < mesh@[r.faces@[t] as int].vertex_count ==> r.vertices@.contains(
                    #[trigger] mesh@[r.faces@[t] as int].vertex_indices@[k],
                ),
            forall|v: usize|
                #[trigger] r.vertices@.contains(v) ==> exists|t: int, k: int|
                    0 <= t < r.faces.len() && 0 <= k < mesh@[r.faces@[t] as int].vertex_count
                        && #[trigger] mesh@[r.faces@[t] as int].vertex_indices@[k] == v,
    {
        let cf = &candidate.faces;
        let ghost a0 = self.assigned@;
        let ghost s0 = self.selected@;
        let mut sel: Vec<usize> = Vec::new();
        let mut t: usize = 0;
        while t < cf.len()
            invariant
                t <= cf.len(),
                self.assigned@ == a0,
                forall|q: int| 0 <= q < cf.len() ==> #[trigger] cf@[q] < a0.len(),
                sel@ == unassigned_of(cf@, a0, t as int),
                forall|q: int| 0 <= q < sel.len() ==> #[trigger] sel@[q] < a0.len(),
                self.selected@ == s0,
            decreases cf.len() - t,
        {
            if !self.assigned[cf[t]] {
                sel.push(cf[t]);
            }
            t += 1;
        }
        let mut t: usize = 0;
        while t < cf.len()
            invariant
                t <= cf.len(),
                self.assigned.len() == a0.len(),
                forall|q: int| 0 <= q < cf.len() ==> #[trigger] cf@[q] < a0.len(),
                forall|f: int| 0 <= f < a0.len() ==> #[trigger] self.assigned@[f] == (a0[f] || cf@.take(t as int).contains(f as usize)),
                self.selected@ == s0,
            decreases cf.len() - t,
        {
            let f = cf[t];
            self.assigned.set(f, true);
            proof {
                assert forall|g: int| 0 <= g < a0.len() implies #[trigger] self.assigned@[g] == (a0[g] || cf@.take(t + 1 as int).contains(
                    g as usize,
                )) by {
                    let tk = cf@.take(t + 1 as int);
                    if g == f as int {
                        assert(tk[t as int] == f);
                    } else {
                        if tk.contains(g as usize) {
                            let q = choose|q: int| 0 <= q < t + 1 && tk[q] == g as usize;
                            assert(cf@.take(t as int)[q] == g as usize);
                        }
                        if cf@.take(t as int).contains(g as usize) {
                            let q = choose|q: int| 0 <= q < t && cf@.take(t as int)[q] == g as usize;
                            assert(tk[q] == g as usize);
                        }
                    }
                }
            }
            t += 1;
        }
        proof {
            assert(cf@.take(cf.len() as int) == cf@);
        }
        proof {
            lemma_unassigned_members(cf@, a0, cf.len() as int);
        }
        let vertices = vertices_of_faces(mesh, &sel);
        self.selected.push(surface_of(candidate.kind, candidate.hypothesis_index));
        let r = Taken { faces: sel, vertices };
        proof {
            lemma_corners_listed(mesh@, r.faces@, r.vertices@);
        }
        r
    }

    /// Assign every face still unassigned to its own single-face planar hypothesis, in face
    /// order.
    pub fn finish(self, mesh: &Vec<MeshFace>) -> (r: Vec<SelectedSurface>)
        requires
            self.assigned.len() == mesh.len(),
            forall|f: int| 0 <= f < mesh.len() && !self.assigned@[f] ==> (#[trigger] mesh@[f]).planar_hypothesis >= 0,
        ensures
            r@ == self.selected@ + remaining_planar(mesh@, self.assigned@, mesh.len() as int),
            r.len() >= self.selected.len(),
            r@.take(self.selected.len() as int) == self.selected@,
            finishes_in_face_order(mesh@, self.assigned@, r@.skip(self.selected.len() as int)),
    {
        let mut out = self.selected;
        let ghost base = out@;
        let mut f: usize = 0;
        while f < mesh.len()
            invariant
                f <= mesh.len(),
                self.assigned.len() == mesh.len(),
                forall|f: int| 0 <= f < mesh.len() && !self.assigned@[f] ==> (#[trigger] mesh@[f]).planar_hypothesis >= 0,
                out@ == base + remaining_planar(mesh@, self.assigned@, f as int),
            decreases mesh.len() - f,
        {
            if !self.assigned[f] {
                let pi = mesh[f].planar_hypothesis;
                out.push(SelectedSurface::Planar(pi as usize));
            }
            f += 1;
        }
        proof {
            let rest = remaining_planar(mesh@, self.assigned@, mesh.len() as int);
            lemma_remaining_planar(mesh@, self.assigned@, mesh.len() as int);
            assert(out@.take(base.len() as int) == base);
            assert(out@.skip(base.len() as int) == rest);
            assert(fallbacks_in_face_order(mesh@, self.assigned@, rest, unassigned_faces(self.assigned@, mesh.len() as int)));
        }
        out
    }
}

/// `rest` holds one planar fallback per unassigned face, in face order: `fs` lists exactly
/// the unassigned faces, ascending, and `rest[j]` is face `fs[j]`'s planar hypothesis.
pub open spec fn fallbacks_in_face_order(mesh: Seq<MeshFace>, assigned: Seq<bool>, rest: Seq<SelectedSurface>, fs: Seq<int>) -> bool {
    &&& fs.len() == rest.len()
    &&& forall|j: int|
        #![trigger fs[j]]
        0 <= j < fs.len() ==> 0 <= fs[j] < mesh.len() && !assigned[fs[j]] && rest[j] == SelectedSurface::Planar(
            mesh[fs[j]].planar_hypothesis as usize,
        )
    &&& forall|j1: int, j2: int| 0 <= j1 < j2 < fs.len() ==> #[trigger] fs[j1] < #[trigger] fs[j2]
    &&& forall|f: int| 0 <= f < mesh.len() && !#[trigger] assigned[f] ==> fs.contains(f)
}

/// The surfaces after the selected ones are the planar fallbacks of the unassigned faces, in
/// face order.
pub open spec fn finishes_in_face_order(mesh: Seq<MeshFace>, assigned: Seq<bool>, rest: Seq<SelectedSurface>) -> bool {
    exists|fs: Seq<int>| fallbacks_in_face_order(mesh, assigned, rest, fs)
}

/// The unassigned faces among the first `n`, ascending.
spec fn unassigned_faces(assigned: Seq<bool>, n: int) -> Seq<int>
    decreases n,
{
    if n <= 0 {
        Seq::empty()
    } else if !assigned[n - 1] {
        unassigned_faces(assigned, n - 1).push(n - 1)
    } else {
        unassigned_faces(assigned, n - 1)
    }
}

proof fn lemma_remaining_planar(mesh: Seq<MeshFace>, assigned: Seq<bool>, n: int)
    requires
        0 <= n <= mesh.len(),
    ensures
        unassigned_faces(assigned, n).len() == remaining_planar(mesh, assigned, n).len(),
        forall|j: int|
            #![trigger unassigned_faces(assigned, n)[j]]
            0 <= j < unassigned_faces(assigned, n).len() ==> 0 <= unassigned_faces(assigned, n)[j] < n && !assigned[unassigned_faces(
                assigned,
                n,
            )[j]] && remaining_planar(mesh, assigned, n)[j] == SelectedSurface::Planar(
                mesh[unassigned_faces(assigned, n)[j]].planar_hypothesis as usize,
            ),
        forall|j1: int, j2: int|
            0 <= j1 < j2 < unassigned_faces(assigned, n).len() ==> #[trigger] unassigned_faces(assigned, n)[j1]
                < #[trigger] unassigned_faces(assigned, n)[j2],
        forall|f: int| 0 <= f < n && !#[trigger] assigned[f] ==> unassigned_faces(assigned, n).contains(f),
    decreases n,
{
    if n > 0 {
        lemma_remaining_planar(mesh, assigned, n - 1);
        let a = unassigned_faces(assigned, n - 1);
        let b = unassigned_faces(assigned, n);
        let ra = remaining_planar(mesh, assigned, n - 1);
        let rb = remaining_planar(mesh, assigned, n);
        if !assigned[n - 1] {
            assert forall|j: int| #![trigger b[j]] 0 <= j < b.len() implies 0 <= b[j] < n && !assigned[b[j]] && rb[j]
                == SelectedSurface::Planar(mesh[b[j]].planar_hypothesis as usize) by {
                if j < a.len() {
                    assert(b[j] == a[j]);
                    assert(rb[j] == ra[j]);
                }
            }
            assert forall|j1: int, j2: int| 0 <= j1 < j2 < b.len() implies #[trigger] b[j1] < #[trigger] b[j2] by {
                assert(b[j1] == a[j1]);
                if j2 < a.len() {
                    assert(b[j2] == a[j2]);
                }
            }
            assert forall|f: int| 0 <= f < n && !#[trigger] assigned[f] implies b.contains(f) by {
                if f < n - 1 {
                    let j = choose|j: int| 0 <= j < a.len() && a[j] == f;
                    assert(b[j] == a[j]);
                } else {
                    assert(b[b.len() - 1] == f);
                }
            }
        } else {
            assert forall|f: int| 0 <= f < n && !#[trigger] assigned[f] implies b.contains(f) by {
                assert(f < n - 1);
            }
        }
    }
}

/// The planar fallback surfaces of the unassigned faces among the first `n`.
pub open spec fn remaining_planar(mesh: Seq<MeshFace>, assigned: Seq<bool>, n: int) -> Seq<SelectedSurface>
    decreases n,
{
    if n <= 0 {
        Seq::empty()
    } else if !assigned[n - 1] {
        remaining_planar(mesh, assigned, n - 1).push(SelectedSurface::Planar(mesh[n - 1].planar_hypothesis as usize))
    } else {
        remaining_planar(mesh, assigned, n - 1)
    }
}

/// A list holding exactly the corners of some faces holds every corner of each, and
/// nothing else.
proof fn lemma_corners_listed(mesh: Seq<MeshFace>, faces: Seq<usize>, list: Seq<usize>)
    requires
        forall|v: usize| #[trigger] list.contains(v) <==> vertex_of_faces(mesh, faces, v),
    ensures
        forall|t: int, k: int|
            0 <= t < faces.len() && 0 <= k < mesh[faces[t] as int].vertex_count ==> list.contains(
                #[trigger] mesh[faces[t] as int].vertex_indices@[k],
            ),
        forall|v: usize|
            #[trigger] list.contains(v) ==> exists|t: int, k: int|
                0 <= t < faces.len() && 0 <= k < mesh[faces[t] as int].vertex_count && #[trigger] mesh[faces[t] as int].vertex_indices@[k]
                    == v,
{
    assert forall|t: int, k: int| 0 <= t < faces.len() && 0 <= k < mesh[faces[t] as int].vertex_count implies list.contains(
        #[trigger] mesh[faces[t] as int].vertex_indices@[k],
    ) by {
        assert(vertex_of_faces(mesh, faces, mesh[faces[t] as int].vertex_indices@[k]));
    }
    assert forall|v: usize| #[trigger] list.contains(v) implies exists|t: int, k: int|
        0 <= t < faces.len() && 0 <= k < mesh[faces[t] as int].vertex_count && #[trigger] mesh[faces[t] as int].vertex_indices@[k]
            == v by {
        assert(vertex_of_faces(mesh, faces, v));
    }
}

/// The unassigned faces among the first `n` listed are exactly the listed faces not
/// assigned, and no more than `n`.
proof fn lemma_unassigned_members(faces: Seq<usize>, assigned: Seq<bool>, n: int)
    requires
        0 <= n <= faces.len(),
    ensures
        forall|x: usize| #[trigger] unassigned_of(faces, assigned, n).contains(x) <==> (faces.take(n).contains(x)
            && !assigned[x as int]),
        unassigned_of(faces, assigned, n).len() <= n,
    decreases n,
{
    if n > 0 {
        lemma_unassigned_members(faces, assigned, n - 1);
        let a = unassigned_of(faces, assigned, n - 1);
        let b = unassigned_of(faces, assigned, n);
        let t0 = faces.take(n - 1);
        let t1 = faces.take(n);
        assert forall|x: usize| #[trigger] b.contains(x) <==> (t1.contains(x) && !assigned[x as int]) by {
            if b.contains(x) {
                let j = choose|j: int| 0 <= j < b.len() && b[j] == x;
                if j < a.len() {
                    assert(b[j] == a[j]);
                    assert(a.contains(x));
                    let q = choose|q: int| 0 <= q < t0.len() && t0[q] == x;
                    assert(t1[q] == x);
                } else {
                    assert(x == faces[n - 1]);
                    assert(t1[n - 1] == x);
                }
            }
            if t1.contains(x) && !assigned[x as int] {
                let q = choose|q: int| 0 <= q < t1.len() && t1[q] == x;
                if q < n - 1 {
                    assert(t0[q] == x);
                    assert(a.contains(x));
                    let j = choose|j: int| 0 <= j < a.len() && a[j] == x;
                    assert(b[j] == x);
                } else {
                    assert(b[b.len() - 1] == x);
                }
            }
        }
    }
}

/// The sorted distinct corner vertices of the listed faces.
pub fn vertices_of_faces(mesh: &Vec<MeshFace>, faces: &Vec<usize>) -> (r: Vec<usize>)
    requires
        forall|t: int| 0 <= t < faces.len() ==> #[trigger] faces@[t] < mesh.len(),
        forall|f: int| 0 <= f < mesh.len() ==> (#[trigger] mesh@[f]).vertex_count <= 4,
    ensures
        strictly_increasing(r@),
        forall|v: usize| #[trigger] r@.contains(v) <==> vertex_of_faces(mesh@, faces@, v),
        forall|t: int, k: int|
            0 <= t < faces.len() && 0 <= k < mesh@[faces@[t] as int].vertex_count ==> r@.contains(
                #[trigger] mesh@[faces@[t] as int].vertex_indices@[k],
            ),
        forall|v: usize|
            #[trigger] r@.contains(v) ==> exists|t: int, k: int|
                0 <= t < faces.len() && 0 <= k < mesh@[faces@[t] as int].vertex_count && #[trigger] mesh@[faces@[t] as int].vertex_indices@[k]
                    == v,
{
    let mut out: Vec<usize> = Vec::new();
    let mut t: usize = 0;
    while t < faces.len()
        invariant
            t <= faces.len(),
            forall|t: int| 0 <= t < faces.len() ==> #[trigger] faces@[t] < mesh.len(),
            forall|f: int| 0 <= f < mesh.len() ==> (#[trigger] mesh@[f]).vertex_count <= 4,
            strictly_increasing(out@),
            forall|v: usize| #[trigger] out@.contains(v) <==> vertex_of_faces(mesh@, faces@.take(t as int), v),
        decreases faces.len() - t,
    {
        let face = mesh[faces[t]];
        let vc = face.vertex_count as usize;
        let mut k: usize = 0;
        while k < vc
            invariant
                t < faces.len(),
                forall|t: int| 0 <= t < faces.len() ==> #[trigger] faces@[t] < mesh.len(),
                face == mesh@[faces@[t as int] as int],
                vc == face.vertex_count,
                vc <= 4,
                k <= vc,
                strictly_increasing(out@),
                forall|v: usize|
                    #[trigger] out@.contains(v) <==> (vertex_of_faces(mesh@, faces@.take(t as int), v) || exists|j: int|
                        0 <= j < k && face.vertex_indices@[j] == v),
            decreases vc - k,
        {
            insert_sorted(&mut out, face.vertex_indices[k]);
            proof {
                assert forall|v: usize|
                    #[trigger] out@.contains(v) <==> (vertex_of_faces(mesh@, faces@.take(t as int), v) || exists|j: int|
                        0 <= j < k + 1 && face.vertex_indices@[j] == v) by {
                    if v == face.vertex_indices@[k as int] {
                        assert(face.vertex_indices@[k as int] == v);
                    }
                    if exists|j: int| 0 <= j < k + 1 && face.vertex_indices@[j] == v {
                        let j = choose|j: int| 0 <= j < k + 1 && face.vertex_indices@[j] == v;
                        if j < k {
                            assert(exists|j: int| 0 <= j < k && face.vertex_indices@[j] == v);
                        }
                    }
                }
            }
            k += 1;
        }
        proof {
            let prev = faces@.take(t as int);
            let next = faces@.take(t + 1 as int);
            assert forall|v: usize| #[trigger] out@.contains(v) <==> vertex_of_faces(mesh@, next, v) by {
                if vertex_of_faces(mesh@, next, v) {
                    let (q, j) = choose|q: int, j: int|
                        0 <= q < next.len() && 0 <= j < mesh@[next[q] as int].vertex_count
                            && #[trigger] mesh@[next[q] as int].vertex_indices@[j] == v;
                    if q < t {
                        assert(prev[q] == next[q]);
                        assert(mesh@[prev[q] as int].vertex_indices@[j] == v);
                    } else {
                        assert(next[q] == faces@[t as int]);
                        assert(exists|j: int| 0 <= j < vc && face.vertex_indices@[j] == v);
                    }
                }
                if vertex_of_faces(mesh@, prev, v) {
                    let (q, j) = choose|q: int, j: int|
                        0 <= q < prev.len() && 0 <= j < mesh@[prev[q] as int].vertex_count
                            && #[trigger] mesh@[prev[q] as int].vertex_indices@[j] == v;
                    assert(next[q] == prev[q]);
                    assert(mesh@[next[q] as int].vertex_indices@[j] == v);
                }
                if exists|j: int| 0 <= j < vc && face.vertex_indices@[j] == v {
                    let j = choose|j: int| 0 <= j < vc && face.vertex_indices@[j] == v;
                    assert(next[t as int] == faces@[t as int]);
                    assert(mesh@[next[t as int] as int].vertex_indices@[j] == v);
                }
            }
        }
        t += 1;
    }
    proof {
        assert(faces@.take(faces.len() as int) == faces@);
        lemma_corners_listed(mesh@, faces@, out@);
    }
    out
}

/// The face lists of the hypotheses of each kind.
#[derive(Debug)]
pub struct HypothesisFaces {
    pub planar: Vec<Vec<usize>>,
    pub cylindrical: Vec<Vec<usize>>,
    pub spherical: Vec<Vec<usize>>,
    pub conical: Vec<Vec<usize>>,
    pub toroidal: Vec<Vec<usize>>,
}

/// The face lists of one kind.
pub open spec fn kind_lists(h: HypothesisFaces, kind: SurfaceKind) -> Seq<Vec<usize>> {
    match kind {
        SurfaceKind::Planar => h.planar@,
        SurfaceKind::Cylindrical => h.cylindrical@,
        SurfaceKind::Spherical => h.spherical@,
        SurfaceKind::Conical => h.conical@,
        SurfaceKind::Toroidal => h.toroidal@,
    }
}

/// The kind and hypothesis index of a selected surface.
pub open spec fn surface_parts(s: SelectedSurface) -> (SurfaceKind, usize) {
    match s {
        SelectedSurface::Planar(i) => (SurfaceKind::Planar, i),
        SelectedSurface::Cylindrical(i) => (SurfaceKind::Cylindrical, i),
        SelectedSurface::Spherical(i) => (SurfaceKind::Spherical, i),
        SelectedSurface::Conical(i) => (SurfaceKind::Conical, i),
        SelectedSurface::Toroidal(i) => (SurfaceKind::Toroidal, i),
    }
}

/// The selected surface names an existing hypothesis.
pub open spec fn surface_exists(h: HypothesisFaces, s: SelectedSurface) -> bool {
    surface_parts(s).1 < kind_lists(h, surface_parts(s).0).len()
}

/// The faces of the hypothesis a selected surface names.
pub open spec fn spec_surface_faces(h: HypothesisFaces, s: SelectedSurface) -> Seq<usize> {
    kind_lists(h, surface_parts(s).0)[surface_parts(s).1 as int]@
}

/// The faces of the hypothesis a selected surface names.
pub fn surface_faces<'a>(surface: SelectedSurface, hypotheses: &'a HypothesisFaces) -> (r: &'a Vec<usize>)
    requires
        surface_exists(*hypotheses, surface),
    ensures
        r@ == spec_surface_faces(*hypotheses, surface),
{
    match surface {
        SelectedSurface::Planar(i) => &hypotheses.planar[i],
        SelectedSurface::Cylindrical(i) => &hypotheses.cylindrical[i],
        SelectedSurface::Spherical(i) => &hypotheses.spherical[i],
        SelectedSurface::Conical(i) => &hypotheses.conical[i],
        SelectedSurface::Toroidal(i) => &hypotheses.toroidal[i],
    }
}

/// The face lists of the selected surfaces, in selection order.
pub fn selected_face_lists(selected: &Vec<SelectedSurface>, hypotheses: &HypothesisFaces) -> (r: Vec<Vec<usize>>)
    requires
        forall|k: int| 0 <= k < selected.len() ==> surface_exists(*hypotheses, #[trigger] selected@[k]),
    ensures
        r.len() == selected.len(),
        forall|k: int| 0 <= k < r.len() ==> (#[trigger] r@[k])@ == spec_surface_faces(*hypotheses, selected@[k]),
{
    let mut out: Vec<Vec<usize>> = Vec::new();
    let mut k: usize = 0;
    while k < selected.len()
        invariant
            k <= selected.len(),
            forall|q: int| 0 <= q < selected.len() ==> surface_exists(*hypotheses, #[trigger] selected@[q]),
            out.len() == k,
            forall|q: int| 0 <= q < k ==> (#[trigger] out@[q])@ == spec_surface_faces(*hypotheses, selected@[q]),
        decreases selected.len() - k,
    {
        let faces = surface_faces(selected[k], hypotheses);
        out.push(copy_list(faces));
        k += 1;
    }
    out
}

/// The faces of the first `n` faces that have vertex `v` among their corners, once per such
/// corner, in face order.
pub open spec fn incident_faces(mesh: Seq<MeshFace>, v: usize, n: int) -> Seq<usize>
    decreases n,
{
    if n <= 0 {
        Seq::empty()
    } else {
        incident_faces(mesh, v, n - 1) + corner_hits(mesh[n - 1], (n - 1) as usize, v, mesh[n - 1].vertex_count as int)
    }
}

/// Face `f` once for each of the first `k` corners of `face` that is vertex `v`.
pub open spec fn corner_hits(face: MeshFace, f: usize, v: usize, k: int) -> Seq<usize>
    decreases k,
{
    if k <= 0 {
        Seq::empty()
    } else if face.vertex_indices@[k - 1] == v {
        corner_hits(face, f, v, k - 1).push(f)
    } else {
        corner_hits(face, f, v, k - 1)
    }
}

/// For each mesh vertex, the faces having it as a corner.
pub fn build_vertex_to_faces_map(mesh: &Vec<MeshFace>, num_vertices: usize) -> (r: Vec<Vec<usize>>)
    requires
        forall|g: int| 0 <= g < mesh.len() ==> 1 <= (#[trigger] mesh@[g]).vertex_count <= 4,
        forall|g: int, k: int| 0 <= g < mesh.len() && 0 <= k < mesh@[g].vertex_count ==> (#[trigger] mesh@[g].vertex_indices@[k]) < num_vertices,
    ensures
        r.len() == num_vertices,
        forall|v: int| 0 <= v < num_vertices ==> (#[trigger] r@[v])@ == incident_faces(mesh@, v as usize, mesh.len() as int),
{
    let mut vtf: Vec<Vec<usize>> = Vec::new();
    let mut v: usize = 0;
    while v < num_vertices
        invariant
            v <= num_vertices,
            vtf.len() == v,
            forall|w: int| 0 <= w < v ==> (#[trigger] vtf@[w])@ == Seq::<usize>::empty(),
        decreases num_vertices - v,
    {
        vtf.push(Vec::new());
        v += 1;
    }
    let mut f: usize = 0;
    while f < mesh.len()
        invariant
            f <= mesh.len(),
            vtf.len() == num_vertices,
            forall|g: int| 0 <= g < mesh.len() ==> 1 <= (#[trigger] mesh@[g]).vertex_count <= 4,
            forall|g: int, k: int| 0 <= g < mesh.len() && 0 <= k < mesh@[g].vertex_count ==> (#[trigger] mesh@[g].vertex_indices@[k]) < num_vertices,
            forall|w: int| 0 <= w < num_vertices ==> (#[trigger] vtf@[w])@ == incident_faces(mesh@, w as usize, f as int),
        decreases mesh.len() - f,
    {
        let face = mesh[f];
        let vc = face.vertex_count as usize;
        let ghost base = Seq::new(num_vertices as nat, |w: int| vtf@[w]@);
        let mut k: usize = 0;
        while k < vc
            invariant
                f < mesh.len(),
                face == mesh@[f as int],
                vc == face.vertex_count,
                1 <= vc <= 4,
                k <= vc,
                vtf.len() == num_vertices,
                forall|j: int| 0 <= j < vc ==> (#[trigger] face.vertex_indices@[j]) < num_vertices,
                forall|w: int| 0 <= w < num_vertices ==> (#[trigger] vtf@[w])@ == base[w] + corner_hits(face, f, w as usize, k as int),
            decreases vc - k,
        {
            let vi = face.vertex_indices[k];
            let mut list = copy_list(&vtf[vi]);
            list.push(f);
            let ghost before = vtf@;
            vtf.set(vi, list);
            proof {
                assert forall|w: int| 0 <= w < num_vertices implies (#[trigger] vtf@[w])@ == base[w] + corner_hits(face, f, w as usize, k + 1) by {
                    if w == vi as int {
                        assert(vtf@[w]@ == before[w]@.push(f));
                    } else {
                        assert(vtf@[w] == before[w]);
                    }
                }
            }
            k += 1;
        }
        proof {
            assert forall|w: int| 0 <= w < num_vertices implies (#[trigger] vtf@[w])@ == incident_faces(mesh@, w as usize, f + 1) by {
                assert(base[w] == incident_faces(mesh@, w as usize, f as int));
            }
        }
        f += 1;
    }
    vtf
}

} // verus!
