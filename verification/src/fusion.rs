//! Coplanar triangle fusion (stage 1.3): pairs of adjacent triangles that together form a
//! flat, strictly convex quad are merged into that quad, greedily in face order.
//!
//! Whether a merge is geometrically admissible (the fourth vertex lies on the first
//! triangle's plane within tolerance and the quad is strictly convex) is handed in as a
//! table `merge_ok[f][e]`: merging face `f` with its neighbor across edge `e`.

use vstd::prelude::*;
use crate::topology::{MeshFace, MeshValidationStats, is_polygon, neighbors_mutual, points_back};

verus! {

/// A selected merge: triangle `face` across its edge `edge` with triangle `other`, whose
/// edge `other_edge` is the shared one.
#[derive(Debug, Clone, Copy, PartialEq, Eq, Structural)]
pub struct MergePair {
    pub face: usize,
    pub edge: usize,
    pub other: usize,
    pub other_edge: usize,
}

/// The first of the three edges of `face` whose neighbor is `target`.
pub open spec fn spec_back_edge(face: MeshFace, target: int) -> Option<int> {
    if face.neighbors@[0] as int == target {
        Some(0)
    } else if face.neighbors@[1] as int == target {
        Some(1)
    } else if face.neighbors@[2] as int == target {
        Some(2)
    } else {
        None
    }
}

/// Find which edge of face `other` points back to face `target`.
pub fn back_edge(faces: &Vec<MeshFace>, other: usize, target: usize) -> (r: Option<usize>)
    requires
        other < faces.len(),
    ensures
        r matches Some(k) ==> spec_back_edge(faces@[other as int], target as int) == Some(k as int),
        r is None ==> spec_back_edge(faces@[other as int], target as int) is None,
{
    let face = faces[other];
    let mut k: usize = 0;
    while k < 3
        invariant
            k <= 3,
            other < faces.len(),
            face == faces@[other as int],
            forall|j: int| 0 <= j < k ==> face.neighbors@[j] as int != target as int,
        decreases 3 - k,
    {
        let nb = face.neighbors[k];
        if nb >= 0 && nb as usize == target {
            return Some(k);
        }
        k += 1;
    }
    None
}

/// Merging triangle `fi` across its edge `ei` is possible given the faces merged so far.
pub open spec fn merge_candidate(
    faces: Seq<MeshFace>,
    merge_ok: Seq<[bool; 3]>,
    merged: Seq<bool>,
    fi: int,
    ei: int,
) -> bool {
    let ni = faces[fi].neighbors@[ei] as int;
    &&& ni >= 0
    &&& ni > fi
    &&& ni < faces.len()
    &&& !merged[ni]
    &&& faces[ni].vertex_count == 3
    &&& spec_back_edge(faces[ni], fi) is Some
    &&& merge_ok[fi]@[ei]
}

/// The first edge of triangle `fi` across which it can merge.
pub open spec fn first_merge_edge(faces: Seq<MeshFace>, merge_ok: Seq<[bool; 3]>, merged: Seq<bool>, fi: int) -> Option<
    int,
> {
    if merge_candidate(faces, merge_ok, merged, fi, 0) {
        Some(0)
    } else if merge_candidate(faces, merge_ok, merged, fi, 1) {
        Some(1)
    } else if merge_candidate(faces, merge_ok, merged, fi, 2) {
        Some(2)
    } else {
        None
    }
}

/// Greedy selection over faces `0..n`: each unmerged triangle merges across its first
/// possible edge; both faces are then taken.
pub open spec fn greedy_merges(faces: Seq<MeshFace>, merge_ok: Seq<[bool; 3]>, n: int) -> (Seq<bool>, Seq<MergePair>)
    decreases n,
{
    if n <= 0 {
        (Seq::new(faces.len(), |i: int| false), Seq::empty())
    } else {
        let (merged, pairs) = greedy_merges(faces, merge_ok, n - 1);
        let fi = n - 1;
        if merged[fi] || faces[fi].vertex_count != 3 {
            (merged, pairs)
        } else {
            match first_merge_edge(faces, merge_ok, merged, fi) {
                Some(ei) => {
                    let ni = faces[fi].neighbors@[ei] as int;
                    let eni = spec_back_edge(faces[ni], fi)->Some_0;
                    (
                        merged.update(fi, true).update(ni, true),
                        pairs.push(
                            MergePair {
                                face: fi as usize,
                                edge: ei as usize,
                                other: ni as usize,
                                other_edge: eni as usize,
                            },
                        ),
                    )
                },
                None => (merged, pairs),
            }
        }
    }
}

/// Phase 1: choose the merge pairs greedily in face order.
fn select_merge_pairs(faces: &Vec<MeshFace>, merge_ok: &Vec<[bool; 3]>) -> (r: Vec<MergePair>)
    requires
        merge_ok.len() == faces.len(),
        faces.len() <= i32::MAX,
    ensures
        r@ == greedy_merges(faces@, merge_ok@, faces.len() as int).1,
{
    let n = faces.len();
    let mut merged: Vec<bool> = Vec::new();
    let mut i: usize = 0;
    while i < n
        invariant
            i <= n,
            n == faces.len(),
            merged.len() == i,
            forall|j: int| 0 <= j < i ==> !#[trigger] merged@[j],
        decreases n - i,
    {
        merged.push(false);
        i += 1;
    }
    proof {
        assert(merged@ == greedy_merges(faces@, merge_ok@, 0).0);
    }
    let mut pairs: Vec<MergePair> = Vec::new();
    let mut fi: usize = 0;
    while fi < n
        invariant
            fi <= n,
            n == faces.len(),
            n <= i32::MAX,
            merge_ok.len() == n,
            merged.len() == n,
            (merged@, pairs@) == greedy_merges(faces@, merge_ok@, fi as int),
        decreases n - fi,
    {
        let ghost prev = greedy_merges(faces@, merge_ok@, fi as int);
        proof {
            assert(greedy_merges(faces@, merge_ok@, fi + 1) == {
                let (m, p) = prev;
                if m[fi as int] || faces@[fi as int].vertex_count != 3 {
                    (m, p)
                } else {
                    match first_merge_edge(faces@, merge_ok@, m, fi as int) {
                        Some(ei) => {
                            let ni = faces@[fi as int].neighbors@[ei] as int;
                            let eni = spec_back_edge(faces@[ni], fi as int)->Some_0;
                            (
                                m.update(fi as int, true).update(ni, true),
                                p.push(
                                    MergePair {
                                        face: fi,
                                        edge: ei as usize,
                                        other: ni as usize,
                                        other_edge: eni as usize,
                                    },
                                ),
                            )
                        },
                        None => (m, p),
                    }
                }
            });
        }
        if !merged[fi] && faces[fi].vertex_count == 3 {
            let mut ei: usize = 0;
            let mut done = false;
            while ei < 3 && !done
                invariant
                    fi < n,
                    n == faces.len(),
                    n <= i32::MAX,
                    merge_ok.len() == n,
                    merged.len() == n,
                    ei <= 3,
                    !done ==> (merged@, pairs@) == prev,
                    !done ==> forall|j: int| 0 <= j < ei ==> !merge_candidate(faces@, merge_ok@, merged@, fi as int, j),
                    !prev.0[fi as int],
                    faces@[fi as int].vertex_count == 3,
                    done ==> (merged@, pairs@) == greedy_merges(faces@, merge_ok@, fi + 1),
                    prev == greedy_merges(faces@, merge_ok@, fi as int),
                decreases 3 - ei + if done { 0int } else { 1int },
            {
                let ni = faces[fi].neighbors[ei];
                if ni >= 0 && ni as usize > fi && (ni as usize) < n && !merged[ni as usize]
                    && faces[ni as usize].vertex_count == 3 {
                    let nu = ni as usize;
                    match back_edge(faces, nu, fi) {
                        Some(eni) => {
                            if merge_ok[fi][ei] {
                                proof {
                                    assert(merge_candidate(faces@, merge_ok@, merged@, fi as int, ei as int));
                                    assert(first_merge_edge(faces@, merge_ok@, merged@, fi as int) == Some(ei as int));
                                }
                                merged.set(fi, true);
                                merged.set(nu, true);
                                pairs.push(MergePair { face: fi, edge: ei, other: nu, other_edge: eni });
                                done = true;
                            }
                        },
                        None => {},
                    }
                }
                if !done {
                    ei += 1;
                }
            }
            proof {
                if !done {
                    assert(first_merge_edge(faces@, merge_ok@, merged@, fi as int) is None);
                }
            }
        }
        fi += 1;
    }
    pairs
}

/// Properties of the greedy selection over faces `0..n`.
pub open spec fn greedy_wf(faces: Seq<MeshFace>, merge_ok: Seq<[bool; 3]>, merged: Seq<bool>, pairs: Seq<MergePair>, n: int) -> bool {
    &&& merged.len() == faces.len()
    &&& forall|t: int| 0 <= t < pairs.len() ==> {
        let p = #[trigger] pairs[t];
        &&& p.face < p.other < faces.len()
        &&& p.face < n
        &&& p.edge < 3
        &&& p.other_edge < 3
        &&& faces[p.face as int].vertex_count == 3
        &&& faces[p.other as int].vertex_count == 3
        &&& faces[p.face as int].neighbors@[p.edge as int] == p.other as i32
        &&& faces[p.other as int].neighbors@[p.other_edge as int] == p.face as i32
        &&& merge_ok[p.face as int]@[p.edge as int]
        &&& merged[p.face as int]
        &&& merged[p.other as int]
    }
    &&& forall|x: int| 0 <= x < faces.len() && #[trigger] merged[x] ==> exists|t: int|
        0 <= t < pairs.len() && (#[trigger] pairs[t].face == x || pairs[t].other == x)
    &&& forall|t1: int, t2: int|
        0 <= t1 < t2 < pairs.len() ==> {
            let p = #[trigger] pairs[t1];
            let q = #[trigger] pairs[t2];
            &&& p.face < q.face
            &&& p.face != q.other
            &&& p.other != q.face
            &&& p.other != q.other
        }
}

/// The greedy merges form a matching of edge-adjacent triangle pairs, in face order.
pub proof fn lemma_greedy_merges_matching(faces: Seq<MeshFace>, merge_ok: Seq<[bool; 3]>, n: int)
    requires
        0 <= n <= faces.len(),
        faces.len() <= i32::MAX,
    ensures
        greedy_wf(faces, merge_ok, greedy_merges(faces, merge_ok, n).0, greedy_merges(faces, merge_ok, n).1, n),
    decreases n,
{
    if n > 0 {
        lemma_greedy_merges_matching(faces, merge_ok, n - 1);
        let (m, ps) = greedy_merges(faces, merge_ok, n - 1);
        let fi = n - 1;
        if !(m[fi] || faces[fi].vertex_count != 3) {
            match first_merge_edge(faces, merge_ok, m, fi) {
                Some(ei) => {
                    let ni = faces[fi].neighbors@[ei] as int;
                    let eni = spec_back_edge(faces[ni], fi)->Some_0;
                    let p = MergePair { face: fi as usize, edge: ei as usize, other: ni as usize, other_edge: eni as usize };
                    let m2 = m.update(fi, true).update(ni, true);
                    let ps2 = ps.push(p);
                    assert(merge_candidate(faces, merge_ok, m, fi, ei));
                    assert forall|t: int| 0 <= t < ps.len() implies ps[t].face != fi && ps[t].other != fi
                        && ps[t].face != ni && ps[t].other != ni by {
                        assert(m[ps[t].face as int] && m[ps[t].other as int]);
                    }
                    assert forall|x: int| 0 <= x < faces.len() && #[trigger] m2[x] implies exists|t: int|
                        0 <= t < ps2.len() && (#[trigger] ps2[t].face == x || ps2[t].other == x) by {
                        if x == fi || x == ni {
                            assert(ps2[ps.len() as int] == p);
                            assert(ps2[ps.len() as int].face as int == x || ps2[ps.len() as int].other as int == x);
                        } else {
                            assert(m[x]);
                            let t = choose|t: int| 0 <= t < ps.len() && (#[trigger] ps[t].face == x || ps[t].other == x);
                            assert(ps2[t] == ps[t]);
                        }
                    }
                    assert forall|t: int| 0 <= t < ps2.len() implies {
                        let q = #[trigger] ps2[t];
                        &&& q.face < q.other < faces.len()
                        &&& q.face < n
                        &&& q.edge < 3
                        &&& q.other_edge < 3
                        &&& faces[q.face as int].vertex_count == 3
                        &&& faces[q.other as int].vertex_count == 3
                        &&& faces[q.face as int].neighbors@[q.edge as int] == q.other as i32
                        &&& faces[q.other as int].neighbors@[q.other_edge as int] == q.face as i32
                        &&& merge_ok[q.face as int]@[q.edge as int]
                        &&& m2[q.face as int]
                        &&& m2[q.other as int]
                    } by {
                        if t < ps.len() {
                            assert(ps2[t] == ps[t]);
                        }
                    }
                    assert forall|t1: int, t2: int| 0 <= t1 < t2 < ps2.len() implies {
                        let p1 = #[trigger] ps2[t1];
                        let q = #[trigger] ps2[t2];
                        &&& p1.face < q.face
                        &&& p1.face != q.other
                        &&& p1.other != q.face
                        &&& p1.other != q.other
                    } by {
                        assert(ps2[t1] == ps[t1]);
                        if t2 < ps.len() {
                            assert(ps2[t2] == ps[t2]);
                        }
                    }
                },
                None => {},
            }
        }
    }
}

/// The outcome of merging `p.face` with `p.other` on the face at index `g`.
pub open spec fn merge_applied(before: Seq<MeshFace>, after: Seq<MeshFace>, p: MergePair) -> bool {
    let f = before[p.face as int];
    let o = before[p.other as int];
    let e = p.edge as int;
    let oe = p.other_edge as int;
    let s0 = f.vertex_indices@[e];
    let s1 = f.vertex_indices@[(e + 1) % 3];
    let a = f.vertex_indices@[(e + 2) % 3];
    let b = o.vertex_indices@[(oe + 2) % 3];
    let n2 = o.neighbors@[(oe + 1) % 3];
    let n3 = o.neighbors@[(oe + 2) % 3];
    let quad_neighbors = seq![f.neighbors@[(e + 1) % 3], f.neighbors@[(e + 2) % 3], n2, n3];
    &&& after.len() == before.len()
    &&& forall|g: int|
        0 <= g < before.len() ==> {
            let base_vc: u8 = if g == p.face { 4 } else { before[g].vertex_count };
            let base_vi = if g == p.face { seq![s1, a, s0, b] } else { before[g].vertex_indices@ };
            let base_nb = if g == p.face { quad_neighbors } else { before[g].neighbors@ };
            let rewired = g == n2 as int || g == n3 as int;
            &&& (#[trigger] after[g]).vertex_count == if g == p.other { 0u8 } else { base_vc }
            &&& after[g].vertex_indices@ == base_vi
            &&& after[g].planar_hypothesis == before[g].planar_hypothesis
            &&& after[g].cylindrical_hypothesis == before[g].cylindrical_hypothesis
            &&& after[g].spherical_hypothesis == before[g].spherical_hypothesis
            &&& after[g].conical_hypothesis == before[g].conical_hypothesis
            &&& after[g].toroidal_hypothesis == before[g].toroidal_hypothesis
            &&& forall|k: int|
                0 <= k < 4 ==> #[trigger] after[g].neighbors@[k] == if rewired && k < base_vc && base_nb[k]
                    == p.other as i32 {
                    p.face as i32
                } else {
                    base_nb[k]
                }
        }
}

/// `after` results from applying the merges in order to `before`.
pub open spec fn merges_applied(before: Seq<MeshFace>, pairs: Seq<MergePair>, after: Seq<MeshFace>) -> bool {
    exists|chain: Seq<Seq<MeshFace>>|
        #![trigger chain.len()]
        chain.len() == pairs.len() + 1 && chain[0] == before && chain.last() == after && forall|t: int|
            0 <= t < pairs.len() ==> merge_applied(#[trigger] chain[t], chain[t + 1], pairs[t])
}

/// Faces have at most four vertices and their edge neighbors are valid face indices or negative.
pub open spec fn faces_neighbors_in_range(faces: Seq<MeshFace>) -> bool {
    &&& forall|g: int| 0 <= g < faces.len() ==> (#[trigger] faces[g]).vertex_count <= 4
    &&& forall|g: int, k: int|
        0 <= g < faces.len() && 0 <= k < faces[g].vertex_count ==> (#[trigger] faces[g].neighbors@[k]) < faces.len()
}

/// In face `g`, replace the neighbor `from` by `to` on its first `vertex_count` edges.
fn rewire_neighbor(faces: &mut Vec<MeshFace>, g: usize, from: i32, to: i32)
    requires
        g < old(faces).len(),
        old(faces)@[g as int].vertex_count <= 4,
    ensures
        final(faces).len() == old(faces).len(),
        forall|h: int| 0 <= h < old(faces).len() && h != g ==> #[trigger] final(faces)@[h] == old(faces)@[h],
        final(faces)@[g as int].vertex_count == old(faces)@[g as int].vertex_count,
        final(faces)@[g as int].vertex_indices == old(faces)@[g as int].vertex_indices,
        final(faces)@[g as int].planar_hypothesis == old(faces)@[g as int].planar_hypothesis,
        final(faces)@[g as int].cylindrical_hypothesis == old(faces)@[g as int].cylindrical_hypothesis,
        final(faces)@[g as int].spherical_hypothesis == old(faces)@[g as int].spherical_hypothesis,
        final(faces)@[g as int].conical_hypothesis == old(faces)@[g as int].conical_hypothesis,
        final(faces)@[g as int].toroidal_hypothesis == old(faces)@[g as int].toroidal_hypothesis,
        forall|k: int|
            0 <= k < 4 ==> #[trigger] final(faces)@[g as int].neighbors@[k] == if k < old(faces)@[g as int].vertex_count
                && old(faces)@[g as int].neighbors@[k] == from {
                to
            } else {
                old(faces)@[g as int].neighbors@[k]
            },
{
    let vc = faces[g].vertex_count as usize;
    let ghost f0 = faces@;
    let mut k: usize = 0;
    while k < vc
        invariant
            vc == f0[g as int].vertex_count,
            vc <= 4,
            k <= vc,
            g < f0.len(),
            faces.len() == f0.len(),
            forall|h: int| 0 <= h < f0.len() && h != g ==> #[trigger] faces@[h] == f0[h],
            faces@[g as int].vertex_count == f0[g as int].vertex_count,
            faces@[g as int].vertex_indices == f0[g as int].vertex_indices,
            faces@[g as int].planar_hypothesis == f0[g as int].planar_hypothesis,
            faces@[g as int].cylindrical_hypothesis == f0[g as int].cylindrical_hypothesis,
            faces@[g as int].spherical_hypothesis == f0[g as int].spherical_hypothesis,
            faces@[g as int].conical_hypothesis == f0[g as int].conical_hypothesis,
            faces@[g as int].toroidal_hypothesis == f0[g as int].toroidal_hypothesis,
            forall|j: int|
                0 <= j < 4 ==> #[trigger] faces@[g as int].neighbors@[j] == if j < k && f0[g as int].neighbors@[j] == from {
                    to
                } else {
                    f0[g as int].neighbors@[j]
                },
        decreases vc - k,
    {
        if faces[g].neighbors[k] == from {
            faces[g].neighbors[k] = to;
        }
        k += 1;
    }
}

fn mod3(x: usize) -> (r: usize)
    requires
        x < 6,
    ensures
        r as int == x as int % 3,
        r < 3,
{
    if x >= 3 {
        x - 3
    } else {
        x
    }
}

/// Phase 2 for one pair: turn `p.face` into the quad, point the other triangle's outer
/// neighbors back at the quad, and empty `p.other`.
fn apply_merge(faces: &mut Vec<MeshFace>, p: MergePair)
    requires
        p.face < p.other < old(faces).len(),
        old(faces).len() <= i32::MAX,
        p.edge < 3,
        p.other_edge < 3,
        old(faces)@[p.face as int].vertex_count == 3,
        old(faces)@[p.other as int].vertex_count == 3,
        faces_neighbors_in_range(old(faces)@),
    ensures
        merge_applied(old(faces)@, final(faces)@, p),
        faces_neighbors_in_range(final(faces)@),
{
    let ghost f0 = faces@;
    let fi = p.face;
    let ni = p.other;
    let fface = faces[fi];
    let oface = faces[ni];
    let e1 = mod3(p.edge + 1);
    let e2 = mod3(p.edge + 2);
    let o1 = mod3(p.other_edge + 1);
    let o2 = mod3(p.other_edge + 2);
    let s0 = fface.vertex_indices[p.edge];
    let s1 = fface.vertex_indices[e1];
    let a = fface.vertex_indices[e2];
    let b = oface.vertex_indices[o2];
    let n0 = fface.neighbors[e1];
    let n1 = fface.neighbors[e2];
    let n2 = oface.neighbors[o1];
    let n3 = oface.neighbors[o2];
    faces[fi].vertex_count = 4;
    faces[fi].vertex_indices = [s1, a, s0, b];
    faces[fi].neighbors = [n0, n1, n2, n3];
    let ghost f1 = faces@;
    proof {
        assert(f1[fi as int].vertex_indices@ == seq![s1, a, s0, b]);
        assert(f1[fi as int].neighbors@ == seq![n0, n1, n2, n3]);
    }
    if n2 >= 0 {
        rewire_neighbor(faces, n2 as usize, ni as i32, fi as i32);
    }
    let ghost f2 = faces@;
    if n3 >= 0 {
        rewire_neighbor(faces, n3 as usize, ni as i32, fi as i32);
    }
    let ghost f3 = faces@;
    faces[ni].vertex_count = 0;
    proof {
        let after = faces@;
        assert forall|g: int| 0 <= g < f0.len() implies {
            let base_vc: u8 = if g == p.face { 4 } else { f0[g].vertex_count };
            let base_vi = if g == p.face { seq![s1, a, s0, b] } else { f0[g].vertex_indices@ };
            let base_nb = if g == p.face { seq![n0, n1, n2, n3] } else { f0[g].neighbors@ };
            let rewired = g == n2 as int || g == n3 as int;
            &&& (#[trigger] after[g]).vertex_count == if g == p.other { 0u8 } else { base_vc }
            &&& after[g].vertex_indices@ == base_vi
            &&& after[g].planar_hypothesis == f0[g].planar_hypothesis
            &&& after[g].cylindrical_hypothesis == f0[g].cylindrical_hypothesis
            &&& after[g].spherical_hypothesis == f0[g].spherical_hypothesis
            &&& after[g].conical_hypothesis == f0[g].conical_hypothesis
            &&& after[g].toroidal_hypothesis == f0[g].toroidal_hypothesis
            &&& forall|k: int|
                0 <= k < 4 ==> #[trigger] after[g].neighbors@[k] == if rewired && k < base_vc && base_nb[k]
                    == p.other as i32 {
                    p.face as i32
                } else {
                    base_nb[k]
                }
        } by {
            assert(f1[g].vertex_count == (if g == p.face { 4u8 } else { f0[g].vertex_count }));
            assert(f1[g].vertex_indices@ == (if g == p.face { seq![s1, a, s0, b] } else { f0[g].vertex_indices@ }));
            assert(f1[g].neighbors@ == (if g == p.face { seq![n0, n1, n2, n3] } else { f0[g].neighbors@ }));
            assert forall|k: int| 0 <= k < 4 implies #[trigger] after[g].neighbors@[k] == if (g == n2 as int || g == n3 as int) && k
                < f1[g].vertex_count && f1[g].neighbors@[k] == p.other as i32 {
                p.face as i32
            } else {
                f1[g].neighbors@[k]
            } by {
                assert(after[g].neighbors@[k] == f3[g].neighbors@[k]);
                if n2 >= 0 && g == n2 as int {
                    assert(f2[g].neighbors@[k] == (if k < f1[g].vertex_count && f1[g].neighbors@[k] == ni as i32 {
                        fi as i32
                    } else {
                        f1[g].neighbors@[k]
                    }));
                } else {
                    assert(f2[g] == f1[g]);
                }
                if n3 >= 0 && g == n3 as int {
                    assert(f2[g].vertex_count == f1[g].vertex_count);
                } else {
                    assert(f3[g] == f2[g]);
                }
            }
        }
        assert(merge_applied(f0, after, p));
        assert forall|g: int, k: int|
            0 <= g < after.len() && 0 <= k < after[g].vertex_count implies (#[trigger] after[g].neighbors@[k]) < after.len() by {
            assert(after[g].vertex_count <= 4);
            if g == fi as int {
                assert(f0[fi as int].neighbors@[e1 as int] < f0.len());
                assert(f0[fi as int].neighbors@[e2 as int] < f0.len());
                assert(f0[ni as int].neighbors@[o1 as int] < f0.len());
                assert(f0[ni as int].neighbors@[o2 as int] < f0.len());
            } else {
                assert(k < f0[g].vertex_count);
            }
        }
    }
}

/// Number of faces among the first `n` that are kept (have a nonzero vertex count).
pub open spec fn kept_before(faces: Seq<MeshFace>, n: int) -> nat
    decreases n,
{
    if n <= 0 {
        0
    } else {
        kept_before(faces, n - 1) + if faces[n - 1].vertex_count != 0 {
            1nat
        } else {
            0nat
        }
    }
}

/// Index of face `f` after removing the emptied faces, or -1 if it is removed.
pub open spec fn compact_index(faces: Seq<MeshFace>, f: int) -> int {
    if faces[f].vertex_count != 0 {
        kept_before(faces, f) as int
    } else {
        -1
    }
}

/// `after` is `before` without its emptied faces, neighbor indices renumbered.
pub open spec fn compacted(before: Seq<MeshFace>, after: Seq<MeshFace>) -> bool {
    &&& after.len() == kept_before(before, before.len() as int)
    &&& forall|f: int|
        0 <= f < before.len() && before[f].vertex_count != 0 ==> {
            let g = #[trigger] after[kept_before(before, f) as int];
            &&& g.vertex_count == before[f].vertex_count
            &&& g.vertex_indices == before[f].vertex_indices
            &&& g.planar_hypothesis == before[f].planar_hypothesis
            &&& g.cylindrical_hypothesis == before[f].cylindrical_hypothesis
            &&& g.spherical_hypothesis == before[f].spherical_hypothesis
            &&& g.conical_hypothesis == before[f].conical_hypothesis
            &&& g.toroidal_hypothesis == before[f].toroidal_hypothesis
            &&& forall|k: int|
                0 <= k < 4 ==> #[trigger] g.neighbors@[k] == if k < before[f].vertex_count && before[f].neighbors@[k] >= 0 {
                    compact_index(before, before[f].neighbors@[k] as int) as i32
                } else {
                    before[f].neighbors@[k]
                }
        }
}

proof fn lemma_kept_before_mono(faces: Seq<MeshFace>, a: int, b: int)
    requires
        0 <= a <= b,
    ensures
        kept_before(faces, a) <= kept_before(faces, b),
        kept_before(faces, b) <= kept_before(faces, a) + (b - a),
    decreases b - a,
{
    if a < b {
        lemma_kept_before_mono(faces, a, b - 1);
    }
}

proof fn lemma_kept_before_strict(faces: Seq<MeshFace>, a: int, b: int)
    requires
        0 <= a < b,
        faces[a].vertex_count != 0,
    ensures
        kept_before(faces, a) < kept_before(faces, b),
{
    lemma_kept_before_mono(faces, a + 1, b);
}

/// Phase 3: drop emptied faces and renumber neighbor references.
fn compact_faces(faces: &Vec<MeshFace>) -> (r: Vec<MeshFace>)
    requires
        faces_neighbors_in_range(faces@),
        faces.len() <= i32::MAX,
    ensures
        compacted(faces@, r@),
{
    let n = faces.len();
    let mut new_index: Vec<i32> = Vec::new();
    let mut out: Vec<MeshFace> = Vec::new();
    let mut f: usize = 0;
    while f < n
        invariant
            f <= n,
            n == faces.len(),
            n <= i32::MAX,
            new_index.len() == f,
            out.len() == kept_before(faces@, f as int),
            out.len() <= f,
            forall|g: int| 0 <= g < f ==> #[trigger] new_index@[g] as int == compact_index(faces@, g),
            forall|g: int| 0 <= g < f && faces@[g].vertex_count != 0 ==> #[trigger] out@[kept_before(faces@, g) as int] == faces@[g],
            faces_neighbors_in_range(faces@),
            forall|q: int| 0 <= q < out.len() ==> (#[trigger] out@[q]).vertex_count <= 4,
            forall|q: int, k: int|
                0 <= q < out.len() && 0 <= k < out@[q].vertex_count ==> (#[trigger] out@[q].neighbors@[k]) < n,
        decreases n - f,
    {
        if faces[f].vertex_count != 0 {
            new_index.push(out.len() as i32);
            out.push(faces[f]);
        } else {
            new_index.push(-1);
        }
        proof {
            assert forall|g: int| 0 <= g < f + 1 && faces@[g].vertex_count != 0 implies #[trigger] out@[kept_before(faces@, g) as int]
                == faces@[g] by {
                if g < f {
                    lemma_kept_before_strict(faces@, g, f as int);
                }
            }
        }
        f += 1;
    }
    let ghost plain = out@;
    let mut j: usize = 0;
    while j < out.len()
        invariant
            j <= out.len(),
            out.len() == plain.len(),
            n == faces.len(),
            new_index.len() == n,
            faces_neighbors_in_range(faces@),
            forall|g: int| 0 <= g < n ==> #[trigger] new_index@[g] as int == compact_index(faces@, g),
            forall|q: int| j <= q < out.len() ==> #[trigger] out@[q] == plain[q],
            forall|q: int| 0 <= q < j ==> {
                let g = #[trigger] out@[q];
                let h = plain[q];
                &&& g.vertex_count == h.vertex_count
                &&& g.vertex_indices == h.vertex_indices
                &&& g.planar_hypothesis == h.planar_hypothesis
                &&& g.cylindrical_hypothesis == h.cylindrical_hypothesis
                &&& g.spherical_hypothesis == h.spherical_hypothesis
                &&& g.conical_hypothesis == h.conical_hypothesis
                &&& g.toroidal_hypothesis == h.toroidal_hypothesis
                &&& forall|k: int|
                    0 <= k < 4 ==> #[trigger] g.neighbors@[k] == if k < h.vertex_count && h.neighbors@[k] >= 0 {
                        compact_index(faces@, h.neighbors@[k] as int) as i32
                    } else {
                        h.neighbors@[k]
                    }
            },
            forall|q: int| 0 <= q < plain.len() ==> (#[trigger] plain[q]).vertex_count <= 4,
            forall|q: int, k: int|
                0 <= q < plain.len() && 0 <= k < plain[q].vertex_count ==> (#[trigger] plain[q].neighbors@[k]) < n,
        decreases out.len() - j,
    {
        let vc = out[j].vertex_count as usize;
        let ghost snap = out@;
        let mut k: usize = 0;
        while k < vc
            invariant
                j < out.len(),
                out.len() == plain.len(),
                vc == plain[j as int].vertex_count,
                vc <= 4,
                k <= vc,
                new_index.len() == n,
                forall|g: int| 0 <= g < n ==> #[trigger] new_index@[g] as int == compact_index(faces@, g),
                forall|q: int| 0 <= q < out.len() && q != j ==> #[trigger] out@[q] == snap[q],
                out@[j as int].vertex_count == plain[j as int].vertex_count,
                out@[j as int].vertex_indices == plain[j as int].vertex_indices,
                out@[j as int].planar_hypothesis == plain[j as int].planar_hypothesis,
                out@[j as int].cylindrical_hypothesis == plain[j as int].cylindrical_hypothesis,
                out@[j as int].spherical_hypothesis == plain[j as int].spherical_hypothesis,
                out@[j as int].conical_hypothesis == plain[j as int].conical_hypothesis,
                out@[j as int].toroidal_hypothesis == plain[j as int].toroidal_hypothesis,
                forall|q: int, k: int|
                    0 <= q < plain.len() && 0 <= k < plain[q].vertex_count ==> (#[trigger] plain[q].neighbors@[k]) < n,
                forall|m: int|
                    0 <= m < 4 ==> #[trigger] out@[j as int].neighbors@[m] == if m < k && plain[j as int].neighbors@[m] >= 0 {
                        compact_index(faces@, plain[j as int].neighbors@[m] as int) as i32
                    } else {
                        plain[j as int].neighbors@[m]
                    },
            decreases vc - k,
        {
            let nb = out[j].neighbors[k];
            if nb >= 0 {
                proof {
                    assert(plain[j as int].neighbors@[k as int] < n);
                }
                let mapped = new_index[nb as usize];
                out[j].neighbors[k] = mapped;
            }
            k += 1;
        }
        j += 1;
    }
    proof {
        assert forall|f: int| 0 <= f < faces.len() && faces@[f].vertex_count != 0 implies {
            let g = #[trigger] out@[kept_before(faces@, f) as int];
            &&& g.vertex_count == faces@[f].vertex_count
            &&& g.vertex_indices == faces@[f].vertex_indices
            &&& g.planar_hypothesis == faces@[f].planar_hypothesis
            &&& g.cylindrical_hypothesis == faces@[f].cylindrical_hypothesis
            &&& g.spherical_hypothesis == faces@[f].spherical_hypothesis
            &&& g.conical_hypothesis == faces@[f].conical_hypothesis
            &&& g.toroidal_hypothesis == faces@[f].toroidal_hypothesis
            &&& forall|k: int|
                0 <= k < 4 ==> #[trigger] g.neighbors@[k] == if k < faces@[f].vertex_count && faces@[f].neighbors@[k] >= 0 {
                    compact_index(faces@, faces@[f].neighbors@[k] as int) as i32
                } else {
                    faces@[f].neighbors@[k]
                }
        } by {
            lemma_kept_before_strict(faces@, f, faces.len() as int);
            assert(plain[kept_before(faces@, f) as int] == faces@[f]);
        }
    }
    out
}

/// Fuse adjacent coplanar triangle pairs into quads (stage 1.3).
///
/// Triangles are visited in order; an unmerged triangle merges across the first of its
/// edges whose neighbor is a later, unmerged triangle pointing back at it and for which
/// `merge_ok` admits the quad. Each merged pair becomes one quad (in the place of the first
/// triangle, with vertices `[s1, a, s0, b]`), the second triangle's outer neighbors are
/// pointed at the quad, emptied faces are removed and neighbor indices renumbered.
/// `mesh_faces` and `mesh_quads` are updated; when nothing merges nothing changes.
pub fn fuse_coplanar_triangles(faces: &mut Vec<MeshFace>, merge_ok: &Vec<[bool; 3]>, stats: &mut MeshValidationStats)
    requires
        old(faces).len() <= i32::MAX,
        merge_ok.len() == old(faces).len(),
        faces_neighbors_in_range(old(faces)@),
    ensures
        fused(old(faces)@, merge_ok@, final(faces)@),
        greedy_wf(
            old(faces)@,
            merge_ok@,
            greedy_merges(old(faces)@, merge_ok@, old(faces).len() as int).0,
            greedy_merges(old(faces)@, merge_ok@, old(faces).len() as int).1,
            old(faces).len() as int,
        ),
        ({
            let pairs = greedy_merges(old(faces)@, merge_ok@, old(faces).len() as int).1;
            &&& pairs.len() == 0 ==> *final(stats) == *old(stats)
            &&& pairs.len() > 0 ==> {
                &&& *final(stats) == (MeshValidationStats {
                    mesh_faces: final(faces).len(),
                    mesh_quads: pairs.len() as usize,
                    ..*old(stats)
                })
            }
        }),
{
    let ghost f0 = faces@;
    let pairs = select_merge_pairs(faces, merge_ok);
    proof {
        lemma_greedy_merges_matching(f0, merge_ok@, f0.len() as int);
    }
    if pairs.len() == 0 {
        return;
    }
    let ghost mut chain: Seq<Seq<MeshFace>> = seq![f0];
    let mut t: usize = 0;
    while t < pairs.len()
        invariant
            t <= pairs.len(),
            pairs@ == greedy_merges(f0, merge_ok@, f0.len() as int).1,
            greedy_wf(f0, merge_ok@, greedy_merges(f0, merge_ok@, f0.len() as int).0, pairs@, f0.len() as int),
            faces.len() == f0.len(),
            f0.len() <= i32::MAX,
            faces_neighbors_in_range(faces@),
            chain.len() == t + 1,
            chain[0] == f0,
            chain.last() == faces@,
            forall|s: int| 0 <= s < t ==> merge_applied(#[trigger] chain[s], chain[s + 1], pairs@[s]),
            forall|g: int|
                0 <= g < f0.len() && (forall|s: int| 0 <= s < t ==> #[trigger] pairs@[s].face != g && pairs@[s].other != g)
                    ==> #[trigger] faces@[g].vertex_count == f0[g].vertex_count,
        decreases pairs.len() - t,
    {
        let p = pairs[t];
        let ghost before = faces@;
        proof {
            assert(pairs@[t as int] == p);
            assert forall|s: int| 0 <= s < t implies #[trigger] pairs@[s].face != p.face as int && pairs@[s].other != p.face as int by {
                assert(pairs@[s].face < p.face);
            }
            assert forall|s: int| 0 <= s < t implies #[trigger] pairs@[s].face != p.other as int && pairs@[s].other != p.other as int by {}
        }
        apply_merge(faces, p);
        proof {
            let new_chain = chain.push(faces@);
            assert forall|s: int| 0 <= s < t + 1 implies merge_applied(#[trigger] new_chain[s], new_chain[s + 1], pairs@[s]) by {
                if s < t {
                    assert(new_chain[s] == chain[s] && new_chain[s + 1] == chain[s + 1]);
                } else {
                    assert(new_chain[s] == before);
                }
            }
            assert forall|g: int|
                0 <= g < f0.len() && (forall|s: int| 0 <= s < t + 1 ==> #[trigger] pairs@[s].face != g && pairs@[s].other != g)
                    implies #[trigger] faces@[g].vertex_count == f0[g].vertex_count by {
                assert(pairs@[t as int].face != g && pairs@[t as int].other != g);
                assert(before[g].vertex_count == f0[g].vertex_count);
                assert(faces@[g].vertex_count == before[g].vertex_count);
            }
            chain = new_chain;
        }
        t += 1;
    }
    let ghost mid = faces@;
    proof {
        assert(merges_applied(f0, pairs@, mid)) by {
            assert(chain.len() == pairs@.len() + 1);
        }
    }
    let compacted_faces = compact_faces(faces);
    *faces = compacted_faces;
    stats.mesh_faces = faces.len();
    stats.mesh_quads = pairs.len();
}

/// The faces of fusion: unchanged when nothing merges, else the merges applied in order and
/// the emptied faces removed.
pub open spec fn fused(before: Seq<MeshFace>, merge_ok: Seq<[bool; 3]>, after: Seq<MeshFace>) -> bool {
    let pairs = greedy_merges(before, merge_ok, before.len() as int).1;
    &&& pairs.len() == 0 ==> after == before
    &&& pairs.len() > 0 ==> exists|mid: Seq<MeshFace>| #[trigger] merges_applied(before, pairs, mid) && compacted(mid, after)
}

/// Pair `p` can be merged in `faces`: two different triangles pointing at each other.
pub open spec fn pair_ready(faces: Seq<MeshFace>, p: MergePair) -> bool {
    &&& p.face < faces.len()
    &&& p.other < faces.len()
    &&& p.face != p.other
    &&& p.edge < 3
    &&& p.other_edge < 3
    &&& faces[p.face as int].vertex_count == 3
    &&& faces[p.other as int].vertex_count == 3
    &&& faces[p.face as int].neighbors@[p.edge as int] == p.other as i32
    &&& faces[p.other as int].neighbors@[p.other_edge as int] == p.face as i32
}

proof fn lemma_mod3(e: int)
    requires
        0 <= e < 3,
    ensures
        (e + 1) % 3 != e,
        (e + 2) % 3 != e,
        (e + 1) % 3 != (e + 2) % 3,
        0 <= (e + 1) % 3 < 3,
        0 <= (e + 2) % 3 < 3,
{
}

/// One merge keeps neighbors mutual and in range.
#[verifier::rlimit(60)]
proof fn lemma_merge_keeps_mutual(before: Seq<MeshFace>, after: Seq<MeshFace>, p: MergePair)
    requires
        merge_applied(before, after, p),
        pair_ready(before, p),
        neighbors_mutual(before),
        faces_neighbors_in_range(before),
        before.len() <= i32::MAX,
    ensures
        neighbors_mutual(after),
        faces_neighbors_in_range(after),
{
    let fi = p.face as int;
    let ni = p.other as int;
    let e = p.edge as int;
    let oe = p.other_edge as int;
    let f = before[fi];
    let o = before[ni];
    lemma_mod3(e);
    lemma_mod3(oe);
    let n0 = f.neighbors@[(e + 1) % 3];
    let n1 = f.neighbors@[(e + 2) % 3];
    let n2 = o.neighbors@[(oe + 1) % 3];
    let n3 = o.neighbors@[(oe + 2) % 3];
    assert(n0 < before.len() && n1 < before.len() && n2 < before.len() && n3 < before.len()) by {
        assert(before[fi].neighbors@[(e + 1) % 3] < before.len());
        assert(before[fi].neighbors@[(e + 2) % 3] < before.len());
        assert(before[ni].neighbors@[(oe + 1) % 3] < before.len());
        assert(before[ni].neighbors@[(oe + 2) % 3] < before.len());
    }
    assert(faces_neighbors_in_range(after)) by {
        assert forall|g: int| 0 <= g < after.len() implies (#[trigger] after[g]).vertex_count <= 4 by {}
        assert forall|g: int, k: int| 0 <= g < after.len() && 0 <= k < after[g].vertex_count implies (#[trigger] after[g].neighbors@[k])
            < after.len() by {
            if g != fi && g != ni {
                assert(before[g].neighbors@[k] < before.len());
            }
        }
    }
    assert forall|g: int, k: int|
        0 <= g < after.len() && 0 <= k < after[g].vertex_count && 0 <= #[trigger] after[g].neighbors@[k] < after.len()
            && after[after[g].neighbors@[k] as int].vertex_count != 0 implies points_back(after, after[g].neighbors@[k] as int, g) by {
        let t = after[g].neighbors@[k] as int;
        assert(after[g].neighbors@[k] == t as i32);
        assert(t != ni);
        if t == g {
            assert(after[g].neighbors@[k] == g as i32);
        } else if g == fi {
            if t == fi {
            } else if k == 0 || k == 1 {
                let src = if k == 0 { (e + 1) % 3 } else { (e + 2) % 3 };
                assert(before[fi].neighbors@[src] == t as i32);
                assert(before[t].vertex_count != 0);
                assert(before[fi].neighbors@[src] < before.len());
                assert(points_back(before, t, fi));
                let k2 = choose|k2: int| 0 <= k2 < before[t].vertex_count && #[trigger] before[t].neighbors@[k2] == fi as i32;
                assert(after[t].neighbors@[k2] == fi as i32);
            } else {
                let src = if k == 2 { (oe + 1) % 3 } else { (oe + 2) % 3 };
                assert(before[ni].neighbors@[src] == t as i32);
                assert(before[t].vertex_count != 0);
                assert(before[ni].neighbors@[src] < before.len());
                assert(points_back(before, t, ni));
                let k2 = choose|k2: int| 0 <= k2 < before[t].vertex_count && #[trigger] before[t].neighbors@[k2] == ni as i32;
                assert(t == n2 || t == n3);
                assert(after[t].neighbors@[k2] == fi as i32);
            }
        } else {
            assert(g != ni);
            let rewired = g == n2 as int || g == n3 as int;
            if rewired && before[g].neighbors@[k] == ni as i32 {
                assert(t == fi);
                if g == n2 as int {
                    assert(after[fi].neighbors@[2] == g as i32);
                } else {
                    assert(after[fi].neighbors@[3] == g as i32);
                }
            } else {
                assert(before[g].neighbors@[k] == t as i32);
                assert(before[g].neighbors@[k] < before.len());
                if t == fi {
                    assert(before[t].vertex_count != 0);
                    assert(points_back(before, fi, g));
                    let k2 = choose|k2: int| 0 <= k2 < before[fi].vertex_count && #[trigger] before[fi].neighbors@[k2] == g as i32;
                    assert(k2 != e);
                    if k2 == (e + 1) % 3 {
                        assert(after[fi].neighbors@[0] == g as i32);
                    } else {
                        assert(after[fi].neighbors@[1] == g as i32);
                    }
                } else {
                    assert(before[t].vertex_count != 0);
                    assert(points_back(before, t, g));
                    let k2 = choose|k2: int| 0 <= k2 < before[t].vertex_count && #[trigger] before[t].neighbors@[k2] == g as i32;
                    assert(after[t].neighbors@[k2] == g as i32);
                }
            }
        }
    }
}

/// A merge leaves a pair of two other faces ready.
proof fn lemma_merge_keeps_ready(before: Seq<MeshFace>, after: Seq<MeshFace>, p: MergePair, q: MergePair)
    requires
        merge_applied(before, after, p),
        pair_ready(before, p),
        pair_ready(before, q),
        q.face != p.face && q.face != p.other && q.other != p.face && q.other != p.other,
        before.len() <= i32::MAX,
    ensures
        pair_ready(after, q),
{
    let g = q.face as int;
    let h = q.other as int;
    assert(after[g].vertex_count == before[g].vertex_count);
    assert(after[h].vertex_count == before[h].vertex_count);
    assert(before[g].neighbors@[q.edge as int] != p.other as i32);
    assert(after[g].neighbors@[q.edge as int] == before[g].neighbors@[q.edge as int]);
    assert(before[h].neighbors@[q.other_edge as int] != p.other as i32);
    assert(after[h].neighbors@[q.other_edge as int] == before[h].neighbors@[q.other_edge as int]);
}

/// Merging the pairs in order keeps neighbors mutual and in range.
proof fn lemma_merges_keep_mutual(chain: Seq<Seq<MeshFace>>, pairs: Seq<MergePair>, t: int)
    requires
        chain.len() == pairs.len() + 1,
        0 <= t <= pairs.len(),
        forall|s: int| 0 <= s < pairs.len() ==> merge_applied(#[trigger] chain[s], chain[s + 1], pairs[s]),
        forall|s: int| 0 <= s < pairs.len() ==> pair_ready(chain[0], #[trigger] pairs[s]),
        forall|s1: int, s2: int|
            0 <= s1 < s2 < pairs.len() ==> {
                let a = #[trigger] pairs[s1];
                let b = #[trigger] pairs[s2];
                &&& a.face != b.face
                &&& a.face != b.other
                &&& a.other != b.face
                &&& a.other != b.other
            },
        neighbors_mutual(chain[0]),
        faces_neighbors_in_range(chain[0]),
        chain[0].len() <= i32::MAX,
    ensures
        neighbors_mutual(chain[t]),
        faces_neighbors_in_range(chain[t]),
        chain[t].len() == chain[0].len(),
        forall|s: int| t <= s < pairs.len() ==> pair_ready(chain[t], #[trigger] pairs[s]),
    decreases t,
{
    if t > 0 {
        lemma_merges_keep_mutual(chain, pairs, t - 1);
        let p = pairs[t - 1];
        assert(merge_applied(chain[t - 1], chain[t], p));
        assert(pair_ready(chain[t - 1], p));
        lemma_merge_keeps_mutual(chain[t - 1], chain[t], p);
        assert forall|s: int| t <= s < pairs.len() implies pair_ready(chain[t], #[trigger] pairs[s]) by {
            assert(pair_ready(chain[t - 1], pairs[s]));
            let a = pairs[t - 1];
            let b = pairs[s];
            assert(a.face != b.face && a.face != b.other && a.other != b.face && a.other != b.other);
            lemma_merge_keeps_ready(chain[t - 1], chain[t], p, pairs[s]);
        }
    }
}

/// Every position below the number of kept faces is the new index of some kept face.
proof fn lemma_kept_before_onto(faces: Seq<MeshFace>, n: int, i: int)
    requires
        0 <= n <= faces.len(),
        0 <= i < kept_before(faces, n),
    ensures
        exists|f: int| 0 <= f < n && faces[f].vertex_count != 0 && #[trigger] kept_before(faces, f) == i,
    decreases n,
{
    if n > 0 {
        if i < kept_before(faces, n - 1) {
            lemma_kept_before_onto(faces, n - 1, i);
            let f = choose|f: int| 0 <= f < n - 1 && faces[f].vertex_count != 0 && #[trigger] kept_before(faces, f) == i;
        } else {
            assert(faces[n - 1].vertex_count != 0);
            assert(kept_before(faces, n - 1) == i);
        }
    }
}

/// Removing emptied faces keeps neighbors mutual.
proof fn lemma_compaction_keeps_mutual(before: Seq<MeshFace>, after: Seq<MeshFace>)
    requires
        compacted(before, after),
        neighbors_mutual(before),
        faces_neighbors_in_range(before),
        before.len() <= i32::MAX,
    ensures
        neighbors_mutual(after),
{
    lemma_kept_before_mono(before, 0, before.len() as int);
    assert forall|g2: int, k: int|
        0 <= g2 < after.len() && 0 <= k < after[g2].vertex_count && 0 <= #[trigger] after[g2].neighbors@[k] < after.len()
            && after[after[g2].neighbors@[k] as int].vertex_count != 0 implies points_back(after, after[g2].neighbors@[k] as int, g2) by {
        lemma_kept_before_onto(before, before.len() as int, g2);
        let g = choose|f: int| 0 <= f < before.len() && before[f].vertex_count != 0 && #[trigger] kept_before(before, f) == g2;
        let gf = before[g];
        assert(after[kept_before(before, g) as int] == after[g2]);
        assert(after[g2].vertex_count == gf.vertex_count);
        let nb = gf.neighbors@[k];
        assert(nb < before.len());
        lemma_kept_before_mono(before, g, before.len() as int);
        assert(nb >= 0) by {
            if nb < 0 {
                assert(after[g2].neighbors@[k] == nb);
            }
        }
        let t = nb as int;
        assert(before[t].vertex_count != 0) by {
            if before[t].vertex_count == 0 {
                assert(compact_index(before, t) == -1);
                assert(after[g2].neighbors@[k] == -1i32);
            }
        }
        lemma_kept_before_mono(before, t, before.len() as int);
        lemma_kept_before_strict(before, t, before.len() as int);
        let t2 = kept_before(before, t) as int;
        assert(after[g2].neighbors@[k] == t2 as i32);
        assert(before[g].neighbors@[k] == t as i32);
        assert(points_back(before, t, g));
        let k2 = choose|k2: int| 0 <= k2 < before[t].vertex_count && #[trigger] before[t].neighbors@[k2] == g as i32;
        assert(after[t2].vertex_count == before[t].vertex_count);
        lemma_kept_before_strict(before, g, before.len() as int);
        assert(after[t2].neighbors@[k2] == compact_index(before, g) as i32);
        assert(after[t2].neighbors@[k2] == g2 as i32);
        assert(after[g2].neighbors@[k] as int == t2);
        assert(0 <= k2 < after[t2].vertex_count);
    }
}

/// Fusion keeps neighbors mutual: if across every edge the neighboring face has an edge back,
/// the same holds of the fused mesh.
pub proof fn lemma_fusion_keeps_neighbors_mutual(before: Seq<MeshFace>, merge_ok: Seq<[bool; 3]>, after: Seq<MeshFace>)
    requires
        faces_neighbors_in_range(before),
        before.len() <= i32::MAX,
        neighbors_mutual(before),
        fused(before, merge_ok, after),
    ensures
        neighbors_mutual(after),
{
    let (merged, pairs) = greedy_merges(before, merge_ok, before.len() as int);
    if pairs.len() > 0 {
        lemma_greedy_merges_matching(before, merge_ok, before.len() as int);
        let mid = choose|mid: Seq<MeshFace>| #[trigger] merges_applied(before, pairs, mid) && compacted(mid, after);
        let chain = choose|chain: Seq<Seq<MeshFace>>|
            #![trigger chain.len()]
            chain.len() == pairs.len() + 1 && chain[0] == before && chain.last() == mid && forall|t: int|
                0 <= t < pairs.len() ==> merge_applied(#[trigger] chain[t], chain[t + 1], pairs[t]);
        assert forall|s: int| 0 <= s < pairs.len() implies pair_ready(chain[0], #[trigger] pairs[s]) by {
            let p = pairs[s];
            assert(p.face < p.other);
        }
        assert forall|s1: int, s2: int| 0 <= s1 < s2 < pairs.len() implies {
            let a = #[trigger] pairs[s1];
            let b = #[trigger] pairs[s2];
            &&& a.face != b.face
            &&& a.face != b.other
            &&& a.other != b.face
            &&& a.other != b.other
        } by {
            assert(pairs[s1].face < pairs[s2].face);
        }
        lemma_merges_keep_mutual(chain, pairs, pairs.len() as int);
        assert(chain[pairs.len() as int] == mid);
        lemma_compaction_keeps_mutual(mid, after);
    }
}

/// Number of emptied faces (vertex count zero) among the first `n`.
pub open spec fn emptied_before(faces: Seq<MeshFace>, n: int) -> nat
    decreases n,
{
    if n <= 0 {
        0
    } else {
        emptied_before(faces, n - 1) + if faces[n - 1].vertex_count == 0 {
            1nat
        } else {
            0nat
        }
    }
}

proof fn lemma_kept_plus_emptied(faces: Seq<MeshFace>, n: int)
    requires
        0 <= n,
    ensures
        kept_before(faces, n) + emptied_before(faces, n) == n,
    decreases n,
{
    if n > 0 {
        lemma_kept_plus_emptied(faces, n - 1);
    }
}

proof fn lemma_none_emptied(faces: Seq<MeshFace>, n: int)
    requires
        0 <= n <= faces.len(),
        forall|g: int| 0 <= g < faces.len() ==> is_polygon(#[trigger] faces[g]),
    ensures
        emptied_before(faces, n) == 0,
    decreases n,
{
    if n > 0 {
        lemma_none_emptied(faces, n - 1);
        assert(is_polygon(faces[n - 1]));
    }
}

/// A merge empties exactly one more face: the second triangle.
proof fn lemma_emptied_step(before: Seq<MeshFace>, after: Seq<MeshFace>, p: MergePair, n: int)
    requires
        merge_applied(before, after, p),
        pair_ready(before, p),
        0 <= n <= before.len(),
    ensures
        emptied_before(after, n) == emptied_before(before, n) + if (p.other as int) < n {
            1int
        } else {
            0int
        },
    decreases n,
{
    if n > 0 {
        lemma_emptied_step(before, after, p, n - 1);
        let g = n - 1;
        assert(after[g].vertex_count == if g == p.other {
            0u8
        } else if g == p.face {
            4u8
        } else {
            before[g].vertex_count
        });
    }
}

/// Along the merges every face is emptied, a triangle or a quad, and each merge empties one
/// face.
proof fn lemma_merges_shape(chain: Seq<Seq<MeshFace>>, pairs: Seq<MergePair>, t: int)
    requires
        chain.len() == pairs.len() + 1,
        0 <= t <= pairs.len(),
        forall|s: int| 0 <= s < pairs.len() ==> merge_applied(#[trigger] chain[s], chain[s + 1], pairs[s]),
        forall|s: int| 0 <= s < pairs.len() ==> pair_ready(chain[0], #[trigger] pairs[s]),
        forall|s1: int, s2: int|
            0 <= s1 < s2 < pairs.len() ==> {
                let a = #[trigger] pairs[s1];
                let b = #[trigger] pairs[s2];
                &&& a.face != b.face
                &&& a.face != b.other
                &&& a.other != b.face
                &&& a.other != b.other
            },
        neighbors_mutual(chain[0]),
        faces_neighbors_in_range(chain[0]),
        chain[0].len() <= i32::MAX,
        forall|g: int| 0 <= g < chain[0].len() ==> is_polygon(#[trigger] chain[0][g]),
    ensures
        chain[t].len() == chain[0].len(),
        forall|g: int|
            0 <= g < chain[t].len() ==> (#[trigger] chain[t][g]).vertex_count == 0 || is_polygon(chain[t][g]),
        emptied_before(chain[t], chain[t].len() as int) == t,
    decreases t,
{
    lemma_merges_keep_mutual(chain, pairs, t);
    if t == 0 {
        lemma_none_emptied(chain[0], chain[0].len() as int);
    } else {
        lemma_merges_shape(chain, pairs, t - 1);
        lemma_merges_keep_mutual(chain, pairs, t - 1);
        let p = pairs[t - 1];
        assert(merge_applied(chain[t - 1], chain[t], p));
        assert(pair_ready(chain[t - 1], p));
        lemma_emptied_step(chain[t - 1], chain[t], p, chain[0].len() as int);
        assert forall|g: int| 0 <= g < chain[t].len() implies (#[trigger] chain[t][g]).vertex_count == 0 || is_polygon(
            chain[t][g],
        ) by {
            assert(chain[t - 1][g].vertex_count == 0 || is_polygon(chain[t - 1][g]));
        }
    }
}

/// Removing emptied faces keeps the other faces' shapes and leaves neighbors in range.
proof fn lemma_compaction_shape(before: Seq<MeshFace>, after: Seq<MeshFace>)
    requires
        compacted(before, after),
        faces_neighbors_in_range(before),
        before.len() <= i32::MAX,
        forall|g: int| 0 <= g < before.len() ==> (#[trigger] before[g]).vertex_count == 0 || is_polygon(before[g]),
    ensures
        after.len() == before.len() - emptied_before(before, before.len() as int),
        forall|g: int| 0 <= g < after.len() ==> is_polygon(#[trigger] after[g]),
        faces_neighbors_in_range(after),
{
    lemma_kept_plus_emptied(before, before.len() as int);
    lemma_kept_before_mono(before, 0, before.len() as int);
    assert forall|g2: int| 0 <= g2 < after.len() implies is_polygon(#[trigger] after[g2]) && forall|k: int|
        0 <= k < after[g2].vertex_count ==> (#[trigger] after[g2].neighbors@[k]) < after.len() by {
        lemma_kept_before_onto(before, before.len() as int, g2);
        let g = choose|f: int| 0 <= f < before.len() && before[f].vertex_count != 0 && #[trigger] kept_before(before, f) == g2;
        assert(after[kept_before(before, g) as int] == after[g2]);
        assert(before[g].vertex_count == 0 || is_polygon(before[g]));
        assert forall|k: int| 0 <= k < after[g2].vertex_count implies (#[trigger] after[g2].neighbors@[k]) < after.len() by {
            let nb = before[g].neighbors@[k];
            assert(nb < before.len());
            if nb >= 0 {
                let t = nb as int;
                if before[t].vertex_count != 0 {
                    lemma_kept_before_strict(before, t, before.len() as int);
                }
            }
        }
    }
}

/// Fusion of a mesh of triangles and quads with mutual neighbors: the greedy merges join
/// edge-adjacent triangle pairs admitted by `merge_ok`, in face order, with no triangle in
/// two merges; the fused mesh has one face fewer per merge, every face is still a triangle
/// or a quad, and every neighbor index is below the number of faces.
pub proof fn lemma_fusion_shape(before: Seq<MeshFace>, merge_ok: Seq<[bool; 3]>, after: Seq<MeshFace>)
    requires
        faces_neighbors_in_range(before),
        before.len() <= i32::MAX,
        neighbors_mutual(before),
        forall|g: int| 0 <= g < before.len() ==> is_polygon(#[trigger] before[g]),
        fused(before, merge_ok, after),
    ensures
        greedy_wf(
            before,
            merge_ok,
            greedy_merges(before, merge_ok, before.len() as int).0,
            greedy_merges(before, merge_ok, before.len() as int).1,
            before.len() as int,
        ),
        after.len() == before.len() - greedy_merges(before, merge_ok, before.len() as int).1.len(),
        forall|g: int| 0 <= g < after.len() ==> is_polygon(#[trigger] after[g]),
        faces_neighbors_in_range(after),
{
    lemma_greedy_merges_matching(before, merge_ok, before.len() as int);
    let (merged, pairs) = greedy_merges(before, merge_ok, before.len() as int);
    if pairs.len() > 0 {
        let mid = choose|mid: Seq<MeshFace>| #[trigger] merges_applied(before, pairs, mid) && compacted(mid, after);
        let chain = choose|chain: Seq<Seq<MeshFace>>|
            #![trigger chain.len()]
            chain.len() == pairs.len() + 1 && chain[0] == before && chain.last() == mid && forall|t: int|
                0 <= t < pairs.len() ==> merge_applied(#[trigger] chain[t], chain[t + 1], pairs[t]);
        assert forall|s: int| 0 <= s < pairs.len() implies pair_ready(chain[0], #[trigger] pairs[s]) by {
            let p = pairs[s];
            assert(p.face < p.other);
        }
        assert forall|s1: int, s2: int| 0 <= s1 < s2 < pairs.len() implies {
            let a = #[trigger] pairs[s1];
            let b = #[trigger] pairs[s2];
            &&& a.face != b.face
            &&& a.face != b.other
            &&& a.other != b.face
            &&& a.other != b.other
        } by {
            assert(pairs[s1].face < pairs[s2].face);
        }
        lemma_merges_keep_mutual(chain, pairs, pairs.len() as int);
        lemma_merges_shape(chain, pairs, pairs.len() as int);
        assert(chain[pairs.len() as int] == mid);
        lemma_compaction_shape(mid, after);
    }
}

/// The corners of the quad that merge `p` makes of `faces`: `[s1, a, s0, b]`, where `s0`
/// to `s1` is the shared edge, `a` the first triangle's third corner and `b` the second's.
pub open spec fn merge_quad(faces: Seq<MeshFace>, p: MergePair) -> Seq<usize> {
    let f = faces[p.face as int];
    let o = faces[p.other as int];
    let e = p.edge as int;
    let oe = p.other_edge as int;
    seq![f.vertex_indices@[(e + 1) % 3], f.vertex_indices@[(e + 2) % 3], f.vertex_indices@[e], o.vertex_indices@[(oe + 2) % 3]]
}

/// The quad of merge `p` of `before` is a face of `after`.
pub open spec fn quad_placed(before: Seq<MeshFace>, p: MergePair, after: Seq<MeshFace>) -> bool {
    exists|g: int| 0 <= g < after.len() && after[g].vertex_count == 4 && #[trigger] after[g].vertex_indices@ == merge_quad(before, p)
}

/// Number of quads among the first `n` faces.
pub open spec fn quads_before(faces: Seq<MeshFace>, n: int) -> nat
    decreases n,
{
    if n <= 0 {
        0
    } else {
        quads_before(faces, n - 1) + if faces[n - 1].vertex_count == 4 {
            1nat
        } else {
            0nat
        }
    }
}

/// A merge makes exactly one more quad: the first triangle.
proof fn lemma_quads_step(before: Seq<MeshFace>, after: Seq<MeshFace>, p: MergePair, n: int)
    requires
        merge_applied(before, after, p),
        pair_ready(before, p),
        0 <= n <= before.len(),
    ensures
        quads_before(after, n) == quads_before(before, n) + if (p.face as int) < n {
            1int
        } else {
            0int
        },
    decreases n,
{
    if n > 0 {
        lemma_quads_step(before, after, p, n - 1);
        let g = n - 1;
        assert(after[g].vertex_count == if g == p.other {
            0u8
        } else if g == p.face {
            4u8
        } else {
            before[g].vertex_count
        });
    }
}

/// One step of `lemma_merges_quads`: the faces' corners after merge `t - 1`.
#[verifier::rlimit(40)]
proof fn lemma_merge_quads_step(chain: Seq<Seq<MeshFace>>, pairs: Seq<MergePair>, t: int)
    requires
        chain.len() == pairs.len() + 1,
        0 < t <= pairs.len(),
        merge_applied(chain[t - 1], chain[t], pairs[t - 1]),
        forall|s1: int, s2: int|
            0 <= s1 < s2 < pairs.len() ==> {
                let a = #[trigger] pairs[s1];
                let b = #[trigger] pairs[s2];
                &&& a.face != b.face
                &&& a.face != b.other
                &&& a.other != b.face
                &&& a.other != b.other
            },
        pair_ready(chain[t - 1], pairs[t - 1]),
        forall|s: int| 0 <= s < pairs.len() ==> pair_ready(chain[0], #[trigger] pairs[s]),
        chain[t - 1].len() == chain[0].len(),
        forall|s: int|
            0 <= s < t - 1 ==> (#[trigger] chain[t - 1][pairs[s].face as int]).vertex_count == 4
                && chain[t - 1][pairs[s].face as int].vertex_indices@ == merge_quad(chain[0], pairs[s])
                && chain[t - 1][pairs[s].other as int].vertex_count == 0,
        forall|f: int|
            0 <= f < chain[0].len() && (forall|s: int| 0 <= s < t - 1 ==> #[trigger] pairs[s].face != f && pairs[s].other != f)
                ==> (#[trigger] chain[t - 1][f]).vertex_count == chain[0][f].vertex_count && chain[t - 1][f].vertex_indices
                == chain[0][f].vertex_indices,
    ensures
        forall|s: int|
            0 <= s < t ==> (#[trigger] chain[t][pairs[s].face as int]).vertex_count == 4
                && chain[t][pairs[s].face as int].vertex_indices@ == merge_quad(chain[0], pairs[s])
                && chain[t][pairs[s].other as int].vertex_count == 0,
        forall|f: int|
            0 <= f < chain[0].len() && (forall|s: int| 0 <= s < t ==> #[trigger] pairs[s].face != f && pairs[s].other != f)
                ==> (#[trigger] chain[t][f]).vertex_count == chain[0][f].vertex_count && chain[t][f].vertex_indices
                == chain[0][f].vertex_indices,
{
    let p = pairs[t - 1];
    let b = chain[t - 1];
    let a = chain[t];
    assert forall|s: int| 0 <= s < t - 1 implies #[trigger] pairs[s].face != p.face && pairs[s].other != p.face
        && pairs[s].face != p.other && pairs[s].other != p.other by {
        let x = pairs[s];
        assert(x.face != p.face && x.face != p.other && x.other != p.face && x.other != p.other);
    }
    assert(b[p.face as int].vertex_indices == chain[0][p.face as int].vertex_indices);
    assert(b[p.other as int].vertex_indices == chain[0][p.other as int].vertex_indices);
    assert(merge_quad(b, p) == merge_quad(chain[0], p));
    assert(a[p.face as int].vertex_indices@ == merge_quad(b, p));
    assert forall|s: int| 0 <= s < t implies (#[trigger] a[pairs[s].face as int]).vertex_count == 4
        && a[pairs[s].face as int].vertex_indices@ == merge_quad(chain[0], pairs[s]) && a[pairs[s].other as int].vertex_count
        == 0 by {
        if s < t - 1 {
            let x = pairs[s];
            assert(b[x.face as int].vertex_count == 4);
            assert(a[x.face as int].vertex_count == b[x.face as int].vertex_count);
            assert(a[x.face as int].vertex_indices == b[x.face as int].vertex_indices);
            assert(a[x.other as int].vertex_count == b[x.other as int].vertex_count);
        }
    }
    assert forall|f: int|
        0 <= f < chain[0].len() && (forall|s: int| 0 <= s < t ==> #[trigger] pairs[s].face != f && pairs[s].other != f)
            implies (#[trigger] a[f]).vertex_count == chain[0][f].vertex_count && a[f].vertex_indices
            == chain[0][f].vertex_indices by {
        assert(pairs[t - 1].face != f && pairs[t - 1].other != f);
        assert forall|s: int| 0 <= s < t - 1 implies #[trigger] pairs[s].face != f && pairs[s].other != f by {
            assert(pairs[s].face != f && pairs[s].other != f);
        }
        assert(a[f].vertex_count == b[f].vertex_count);
    }
}

/// Along the merges: each merged first triangle is its merge's quad, each second triangle
/// is emptied, every other face keeps its corners, and each merge adds one quad.
#[verifier::rlimit(40)]
proof fn lemma_merges_quads(chain: Seq<Seq<MeshFace>>, pairs: Seq<MergePair>, t: int)
    requires
        chain.len() == pairs.len() + 1,
        0 <= t <= pairs.len(),
        forall|s: int| 0 <= s < pairs.len() ==> merge_applied(#[trigger] chain[s], chain[s + 1], pairs[s]),
        forall|s: int| 0 <= s < pairs.len() ==> pair_ready(chain[0], #[trigger] pairs[s]),
        forall|s1: int, s2: int|
            0 <= s1 < s2 < pairs.len() ==> {
                let a = #[trigger] pairs[s1];
                let b = #[trigger] pairs[s2];
                &&& a.face != b.face
                &&& a.face != b.other
                &&& a.other != b.face
                &&& a.other != b.other
            },
        neighbors_mutual(chain[0]),
        faces_neighbors_in_range(chain[0]),
        chain[0].len() <= i32::MAX,
    ensures
        chain[t].len() == chain[0].len(),
        forall|s: int|
            0 <= s < t ==> (#[trigger] chain[t][pairs[s].face as int]).vertex_count == 4
                && chain[t][pairs[s].face as int].vertex_indices@ == merge_quad(chain[0], pairs[s])
                && chain[t][pairs[s].other as int].vertex_count == 0,
        forall|f: int|
            0 <= f < chain[0].len() && (forall|s: int| 0 <= s < t ==> #[trigger] pairs[s].face != f && pairs[s].other != f)
                ==> (#[trigger] chain[t][f]).vertex_count == chain[0][f].vertex_count && chain[t][f].vertex_indices
                == chain[0][f].vertex_indices,
        quads_before(chain[t], chain[t].len() as int) == quads_before(chain[0], chain[0].len() as int) + t,
    decreases t,
{
    lemma_merges_keep_mutual(chain, pairs, t);
    if t > 0 {
        lemma_merges_quads(chain, pairs, t - 1);
        lemma_merges_keep_mutual(chain, pairs, t - 1);
        let p = pairs[t - 1];
        let b = chain[t - 1];
        let a = chain[t];
        assert(merge_applied(b, a, p));
        assert(pair_ready(b, p));
        lemma_quads_step(b, a, p, b.len() as int);
        lemma_merge_quads_step(chain, pairs, t);
    }
}

/// Removing emptied faces keeps the number of quads, and moves the face at `f` to
/// `kept_before(before, f)`.
proof fn lemma_compaction_quads(before: Seq<MeshFace>, after: Seq<MeshFace>, n: int)
    requires
        compacted(before, after),
        0 <= n <= before.len(),
    ensures
        quads_before(after, kept_before(before, n) as int) == quads_before(before, n),
    decreases n,
{
    if n > 0 {
        lemma_compaction_quads(before, after, n - 1);
        if before[n - 1].vertex_count != 0 {
            let k = kept_before(before, n - 1) as int;
            assert(after[k].vertex_count == before[n - 1].vertex_count);
        }
    }
}

/// Where the merged quads and the input quads go in the compacted mesh.
#[verifier::rlimit(40)]
proof fn lemma_fused_quads_placed(before: Seq<MeshFace>, mid: Seq<MeshFace>, after: Seq<MeshFace>, pairs: Seq<MergePair>)
    requires
        compacted(mid, after),
        mid.len() == before.len(),
        forall|s: int| 0 <= s < pairs.len() ==> (#[trigger] pairs[s]).face < before.len() && pairs[s].other < before.len(),
        forall|s: int|
            0 <= s < pairs.len() ==> (#[trigger] mid[pairs[s].face as int]).vertex_count == 4
                && mid[pairs[s].face as int].vertex_indices@ == merge_quad(before, pairs[s])
                && mid[pairs[s].other as int].vertex_count == 0,
        forall|f: int|
            0 <= f < before.len() && (forall|s: int| 0 <= s < pairs.len() ==> #[trigger] pairs[s].face != f && pairs[s].other != f)
                ==> (#[trigger] mid[f]).vertex_count == before[f].vertex_count && mid[f].vertex_indices
                == before[f].vertex_indices,
    ensures
        forall|t: int| 0 <= t < pairs.len() ==> #[trigger] quad_placed(before, pairs[t], after),
        forall|g: int|
            0 <= g < after.len() && (#[trigger] after[g]).vertex_count == 4 ==> (exists|f: int|
                0 <= f < before.len() && before[f].vertex_count == 4 && #[trigger] before[f].vertex_indices
                    == after[g].vertex_indices) || (exists|t: int|
                0 <= t < pairs.len() && after[g].vertex_indices@ == merge_quad(before, #[trigger] pairs[t])),
{
    let n = pairs.len() as int;
    lemma_kept_before_mono(mid, 0, mid.len() as int);
    assert forall|t: int| 0 <= t < pairs.len() implies #[trigger] quad_placed(before, pairs[t], after) by {
        let f = pairs[t].face as int;
        assert(mid[f].vertex_count == 4);
        lemma_kept_before_strict(mid, f, mid.len() as int);
        let g = kept_before(mid, f) as int;
        assert(after[g].vertex_indices == mid[f].vertex_indices);
        assert(0 <= g < after.len() && after[g].vertex_count == 4 && after[g].vertex_indices@ == merge_quad(before, pairs[t]));
    }
    assert forall|g: int| 0 <= g < after.len() && (#[trigger] after[g]).vertex_count == 4 implies (exists|f: int|
        0 <= f < before.len() && before[f].vertex_count == 4 && #[trigger] before[f].vertex_indices
            == after[g].vertex_indices) || (exists|t: int|
        0 <= t < pairs.len() && after[g].vertex_indices@ == merge_quad(before, #[trigger] pairs[t])) by {
        lemma_kept_before_onto(mid, mid.len() as int, g);
        let f = choose|f: int| 0 <= f < mid.len() && mid[f].vertex_count != 0 && #[trigger] kept_before(mid, f) == g;
        assert(after[kept_before(mid, f) as int] == after[g]);
        if exists|s: int| 0 <= s < n && #[trigger] pairs[s].face == f {
            let s = choose|s: int| 0 <= s < n && #[trigger] pairs[s].face == f;
            assert(after[g].vertex_indices@ == merge_quad(before, pairs[s]));
        } else if exists|s: int| 0 <= s < n && #[trigger] pairs[s].other == f {
            let s = choose|s: int| 0 <= s < n && #[trigger] pairs[s].other == f;
            assert(mid[pairs[s].face as int].vertex_count == 4);
            assert(mid[pairs[s].other as int].vertex_count == 0);
        } else {
            assert forall|s: int| 0 <= s < n implies #[trigger] pairs[s].face != f && pairs[s].other != f by {}
            assert(mid[f].vertex_count == before[f].vertex_count);
            assert(before[f].vertex_indices == after[g].vertex_indices);
        }
    }
}

/// Fusion makes exactly one quad per merge: the merge's quad `[s1, a, s0, b]` is a face of
/// the fused mesh, every quad of the fused mesh is either a quad of the input or the quad of
/// a merge, and the fused mesh has as many quads as the input plus the merges.
pub proof fn lemma_fusion_quads(before: Seq<MeshFace>, merge_ok: Seq<[bool; 3]>, after: Seq<MeshFace>)
    requires
        faces_neighbors_in_range(before),
        before.len() <= i32::MAX,
        neighbors_mutual(before),
        fused(before, merge_ok, after),
    ensures
        ({
            let pairs = greedy_merges(before, merge_ok, before.len() as int).1;
            &&& forall|t: int| 0 <= t < pairs.len() ==> #[trigger] quad_placed(before, pairs[t], after)
            &&& forall|g: int|
                0 <= g < after.len() && (#[trigger] after[g]).vertex_count == 4 ==> (exists|f: int|
                    0 <= f < before.len() && before[f].vertex_count == 4 && #[trigger] before[f].vertex_indices
                        == after[g].vertex_indices) || (exists|t: int|
                    0 <= t < pairs.len() && after[g].vertex_indices@ == merge_quad(before, #[trigger] pairs[t]))
            &&& quads_before(after, after.len() as int) == quads_before(before, before.len() as int) + pairs.len()
        }),
{
    lemma_greedy_merges_matching(before, merge_ok, before.len() as int);
    let (merged, pairs) = greedy_merges(before, merge_ok, before.len() as int);
    if pairs.len() > 0 {
        let mid = choose|mid: Seq<MeshFace>| #[trigger] merges_applied(before, pairs, mid) && compacted(mid, after);
        let chain = choose|chain: Seq<Seq<MeshFace>>|
            #![trigger chain.len()]
            chain.len() == pairs.len() + 1 && chain[0] == before && chain.last() == mid && forall|t: int|
                0 <= t < pairs.len() ==> merge_applied(#[trigger] chain[t], chain[t + 1], pairs[t]);
        assert forall|s: int| 0 <= s < pairs.len() implies pair_ready(chain[0], #[trigger] pairs[s]) by {
            let p = pairs[s];
            assert(p.face < p.other);
        }
        assert forall|s1: int, s2: int| 0 <= s1 < s2 < pairs.len() implies {
            let a = #[trigger] pairs[s1];
            let b = #[trigger] pairs[s2];
            &&& a.face != b.face
            &&& a.face != b.other
            &&& a.other != b.face
            &&& a.other != b.other
        } by {
            assert(pairs[s1].face < pairs[s2].face);
        }
        let n = pairs.len() as int;
        lemma_merges_quads(chain, pairs, n);
        assert(chain[n] == mid);
        lemma_compaction_quads(mid, after, mid.len() as int);
        lemma_fused_quads_placed(before, mid, after, pairs);
    } else {
        assert forall|g: int| 0 <= g < after.len() && (#[trigger] after[g]).vertex_count == 4 implies exists|f: int|
            0 <= f < before.len() && before[f].vertex_count == 4 && #[trigger] before[f].vertex_indices
                == after[g].vertex_indices by {
            assert(before[g].vertex_indices == after[g].vertex_indices);
        }
    }
}

/// A face merged after the first `m` faces stays merged after more faces.
proof fn lemma_greedy_merged_grows(faces: Seq<MeshFace>, merge_ok: Seq<[bool; 3]>, m: int, m2: int, x: int)
    requires
        0 <= m <= m2 <= faces.len(),
        faces.len() <= i32::MAX,
        0 <= x < faces.len(),
        greedy_merges(faces, merge_ok, m).0[x],
    ensures
        greedy_merges(faces, merge_ok, m2).0[x],
    decreases m2 - m,
{
    if m2 > m {
        lemma_greedy_merged_grows(faces, merge_ok, m, m2 - 1, x);
        lemma_greedy_merges_matching(faces, merge_ok, m2 - 1);
        let (mg, ps) = greedy_merges(faces, merge_ok, m2 - 1);
        let fi = m2 - 1;
        if !(mg[fi] || faces[fi].vertex_count != 3) {
            match first_merge_edge(faces, merge_ok, mg, fi) {
                Some(ei) => {
                    let ni = faces[fi].neighbors@[ei] as int;
                    assert(merge_candidate(faces, merge_ok, mg, fi, ei));
                    assert(mg.update(fi, true).update(ni, true)[x]);
                },
                None => {},
            }
        }
    }
}

/// The greedy merges leave no mergeable pair behind: when triangle `fi` and a later triangle
/// point at each other across an edge of `fi` that `merge_ok` admits, one of the two is in
/// some merge.
pub proof fn lemma_greedy_merges_maximal(faces: Seq<MeshFace>, merge_ok: Seq<[bool; 3]>, fi: int, ei: int, k: int)
    requires
        faces.len() <= i32::MAX,
        0 <= fi < faces.len(),
        0 <= ei < 3,
        0 <= k < 3,
        faces[fi].vertex_count == 3,
        fi < faces[fi].neighbors@[ei] < faces.len(),
        faces[faces[fi].neighbors@[ei] as int].vertex_count == 3,
        faces[faces[fi].neighbors@[ei] as int].neighbors@[k] == fi as i32,
        merge_ok[fi]@[ei],
    ensures
        ({
            let pairs = greedy_merges(faces, merge_ok, faces.len() as int).1;
            let ni = faces[fi].neighbors@[ei] as int;
            exists|t: int|
                0 <= t < pairs.len() && (#[trigger] pairs[t].face == fi || pairs[t].other == fi || pairs[t].face == ni
                    || pairs[t].other == ni)
        }),
{
    let n = faces.len() as int;
    let ni = faces[fi].neighbors@[ei] as int;
    lemma_greedy_merges_matching(faces, merge_ok, fi);
    lemma_greedy_merges_matching(faces, merge_ok, fi + 1);
    lemma_greedy_merges_matching(faces, merge_ok, n);
    let (mg, ps) = greedy_merges(faces, merge_ok, fi);
    let mg1 = greedy_merges(faces, merge_ok, fi + 1).0;
    // After face `fi` is visited, `fi` or its neighbor is merged.
    let x: int = if mg1[fi] { fi } else { ni };
    if mg[fi] {
        lemma_greedy_merged_grows(faces, merge_ok, fi, fi + 1, fi);
    } else {
        match first_merge_edge(faces, merge_ok, mg, fi) {
            Some(e2) => {
                assert(mg1 == mg.update(fi, true).update(faces[fi].neighbors@[e2] as int, true));
                assert(mg1[fi]);
            },
            None => {
                assert(spec_back_edge(faces[ni], fi) is Some) by {
                    assert(faces[ni].neighbors@[k] as int == fi);
                }
                assert(!merge_candidate(faces, merge_ok, mg, fi, ei));
                assert(mg[ni]);
                lemma_greedy_merged_grows(faces, merge_ok, fi, fi + 1, ni);
            },
        }
    }
    assert(mg1[x]);
    lemma_greedy_merged_grows(faces, merge_ok, fi + 1, n, x);
    let (mn, pn) = greedy_merges(faces, merge_ok, n);
    assert(mn[x]);
    let t = choose|t: int| 0 <= t < pn.len() && (#[trigger] pn[t].face == x || pn[t].other == x);
    assert(pn[t].face == fi || pn[t].other == fi || pn[t].face == ni || pn[t].other == ni);
}

/// The greedy selection over the first `m` faces is a prefix of the selection over more
/// faces, and the merges added later are of later faces.
proof fn lemma_greedy_pairs_prefix(faces: Seq<MeshFace>, merge_ok: Seq<[bool; 3]>, m: int, m2: int)
    requires
        0 <= m <= m2 <= faces.len(),
    ensures
        greedy_merges(faces, merge_ok, m).1.len() <= greedy_merges(faces, merge_ok, m2).1.len(),
        forall|t: int|
            0 <= t < greedy_merges(faces, merge_ok, m).1.len() ==> #[trigger] greedy_merges(faces, merge_ok, m2).1[t]
                == greedy_merges(faces, merge_ok, m).1[t],
        forall|t: int|
            greedy_merges(faces, merge_ok, m).1.len() <= t < greedy_merges(faces, merge_ok, m2).1.len() ==> m
                <= #[trigger] greedy_merges(faces, merge_ok, m2).1[t].face,
    decreases m2 - m,
{
    if m2 > m {
        lemma_greedy_pairs_prefix(faces, merge_ok, m, m2 - 1);
        let a = greedy_merges(faces, merge_ok, m2 - 1).1;
        let b = greedy_merges(faces, merge_ok, m2).1;
        assert(b == a || (b.len() == a.len() + 1 && b.drop_last() == a && b.last().face == m2 - 1));
        assert forall|t: int| 0 <= t < greedy_merges(faces, merge_ok, m).1.len() implies #[trigger] b[t]
            == greedy_merges(faces, merge_ok, m).1[t] by {
            assert(a[t] == greedy_merges(faces, merge_ok, m).1[t]);
            if b != a {
                assert(b[t] == b.drop_last()[t]);
            }
        }
        assert forall|t: int| greedy_merges(faces, merge_ok, m).1.len() <= t < b.len() implies m <= #[trigger] b[t].face by {
            if t < a.len() {
                assert(m <= a[t].face);
                if b != a {
                    assert(b[t] == b.drop_last()[t]);
                }
            }
        }
    }
}

/// Each merge is across the first edge of its triangle that admitted one: across every
/// earlier edge of that triangle that leads to a later triangle pointing back, with
/// `merge_ok` admitting it, that triangle was already taken by an earlier merge.
pub proof fn lemma_greedy_merge_first_edge(faces: Seq<MeshFace>, merge_ok: Seq<[bool; 3]>, t: int, e: int, k: int)
    requires
        faces.len() <= i32::MAX,
        0 <= t < greedy_merges(faces, merge_ok, faces.len() as int).1.len(),
        0 <= e < greedy_merges(faces, merge_ok, faces.len() as int).1[t].edge,
        0 <= k < 3,
        ({
            let fi = greedy_merges(faces, merge_ok, faces.len() as int).1[t].face as int;
            let ni = faces[fi].neighbors@[e];
            &&& fi < ni < faces.len()
            &&& faces[ni as int].vertex_count == 3
            &&& faces[ni as int].neighbors@[k] == fi as i32
            &&& merge_ok[fi]@[e]
        }),
    ensures
        ({
            let pairs = greedy_merges(faces, merge_ok, faces.len() as int).1;
            let ni = faces[pairs[t].face as int].neighbors@[e] as int;
            exists|t2: int| 0 <= t2 < t && (#[trigger] pairs[t2].face == ni || pairs[t2].other == ni)
        }),
{
    let n = faces.len() as int;
    let pairs = greedy_merges(faces, merge_ok, n).1;
    lemma_greedy_merges_matching(faces, merge_ok, n);
    let fi = pairs[t].face as int;
    let ni = faces[fi].neighbors@[e] as int;
    assert(fi < n);
    lemma_greedy_merges_matching(faces, merge_ok, fi);
    let (mg, ps) = greedy_merges(faces, merge_ok, fi);
    let ps1 = greedy_merges(faces, merge_ok, fi + 1).1;
    lemma_greedy_pairs_prefix(faces, merge_ok, fi, n);
    lemma_greedy_pairs_prefix(faces, merge_ok, fi + 1, n);
    assert(t >= ps.len()) by {
        if t < ps.len() {
            assert(pairs[t] == ps[t]);
            assert(ps[t].face < fi);
        }
    }
    assert(ps1 != ps) by {
        if ps1 == ps {
            assert(fi + 1 <= pairs[t].face);
        }
    }
    assert(!(mg[fi] || faces[fi].vertex_count != 3));
    let ei = first_merge_edge(faces, merge_ok, mg, fi)->Some_0;
    assert(ps1.len() == ps.len() + 1);
    assert(t == ps.len()) by {
        if t > ps.len() {
            assert(fi + 1 <= pairs[t].face);
        }
    }
    assert(pairs[t] == ps1[t]);
    assert(ps1[t].edge == ei);
    assert(e < ei);
    assert(!merge_candidate(faces, merge_ok, mg, fi, e));
    assert(spec_back_edge(faces[ni], fi) is Some) by {
        assert(faces[ni].neighbors@[k] as int == fi);
    }
    assert(mg[ni]);
    let t2 = choose|t2: int| 0 <= t2 < ps.len() && (#[trigger] ps[t2].face == ni || ps[t2].other == ni);
    assert(pairs[t2] == ps[t2]);
}

} // verus!
