//! Breadth-first region growing over mesh faces, as used to grow a surface hypothesis from
//! its seed faces.
//!
//! The region starts with its seed faces. Faces are expanded in the order they joined the
//! region; for each, its edge neighbors are offered in edge order, skipping missing
//! neighbors, faces not available to this region, and faces already in it. Whether an
//! offered face fits the surface is the caller's decision: it either accepts the face, which
//! joins the region (and is expanded in turn), or asks for the next candidate.

use vstd::prelude::*;
use crate::topology::MeshFace;

verus! {

/// The state of a growing region, by value.
pub struct GrowthView {
    /// The faces of the region, seeds first, in the order they joined.
    pub members: Seq<usize>,
    /// Per face: whether it is in the region.
    pub claimed: Seq<bool>,
    /// Per face: whether it may join the region.
    pub available: Seq<bool>,
    /// The member being expanded.
    pub pos: int,
    /// The next edge slot of that member to look at.
    pub slot: int,
    /// The face last offered, with the index of the member it was reached from.
    pub pending: Option<(usize, int)>,
    /// For each member, the index of the member it was reached from (-1 for a seed).
    pub parents: Seq<int>,
    /// The mesh the region grows on.
    pub mesh: Seq<MeshFace>,
    /// The number of seeds.
    pub num_seeds: int,
}

/// A region growing over the faces of a mesh.
pub struct RegionGrowth {
    members: Vec<usize>,
    claimed: Vec<bool>,
    available: Vec<bool>,
    pos: usize,
    slot: usize,
    pending: Option<(usize, usize)>,
    num_seeds: usize,
    parents: Ghost<Seq<int>>,
    mesh: Ghost<Seq<MeshFace>>,
}

/// The next face to offer, scanning from member `pos`, edge slot `slot`: the face, and the
/// member and slot to continue from.
pub open spec fn scan(mesh: Seq<MeshFace>, members: Seq<usize>, claimed: Seq<bool>, available: Seq<bool>, pos: int, slot: int) -> (
    Option<usize>,
    int,
    int,
)
    decreases members.len() - pos, 256 - slot,
{
    if pos < 0 || pos >= members.len() || slot < 0 || slot > 255 {
        (None, members.len() as int, 0)
    } else if slot >= mesh[members[pos] as int].vertex_count {
        scan(mesh, members, claimed, available, pos + 1, 0)
    } else {
        let ni = mesh[members[pos] as int].neighbors@[slot];
        if ni < 0 || !available[ni as int] || claimed[ni as int] {
            scan(mesh, members, claimed, available, pos, slot + 1)
        } else {
            (Some(ni as usize), pos, slot + 1)
        }
    }
}

/// The face the next offer makes.
pub open spec fn offered(s: GrowthView) -> Option<usize> {
    scan(s.mesh, s.members, s.claimed, s.available, s.pos, s.slot).0
}

/// The state after the next offer: the cursor past the offered face (past every member when
/// there is none), and the offered face pending.
pub open spec fn after_offer(s: GrowthView) -> GrowthView {
    let (c, p, k) = scan(s.mesh, s.members, s.claimed, s.available, s.pos, s.slot);
    GrowthView {
        pos: p,
        slot: k,
        pending: match c {
            Some(f) => Some((f, p)),
            None => None,
        },
        ..s
    }
}

/// Faces `f` and `g` are edge neighbors in `mesh`: some edge slot of `g` names `f`.
pub open spec fn neighbor_of(mesh: Seq<MeshFace>, f: usize, g: usize) -> bool {
    exists|k: int| 0 <= k < mesh[g as int].vertex_count && mesh[g as int].neighbors@[k] == f as i32
}

/// Faces have one to four edges, and every neighbor is -1 or a face of the mesh.
pub open spec fn mesh_well_formed(mesh: Seq<MeshFace>) -> bool {
    &&& forall|g: int| 0 <= g < mesh.len() ==> 1 <= (#[trigger] mesh[g]).vertex_count <= 4
    &&& forall|g: int, k: int| 0 <= g < mesh.len() && 0 <= k < mesh[g].vertex_count ==> -1 <= (#[trigger] mesh[g].neighbors@[k]) < mesh.len()
}

impl GrowthView {
    /// The region's invariant: members are distinct faces of the mesh, exactly the claimed
    /// ones; every member after the seeds is an available face, an edge neighbor of an
    /// earlier member; the cursor lies within the members.
    pub open spec fn wf(self) -> bool {
        &&& mesh_well_formed(self.mesh)
        &&& self.claimed.len() == self.mesh.len()
        &&& self.available.len() == self.mesh.len()
        &&& self.members.no_duplicates()
        &&& forall|k: int| 0 <= k < self.members.len() ==> #[trigger] self.members[k] < self.mesh.len()
        &&& forall|f: int| 0 <= f < self.mesh.len() ==> (#[trigger] self.claimed[f] <==> self.members.contains(f as usize))
        &&& 0 <= self.num_seeds <= self.members.len()
        &&& self.parents.len() == self.members.len()
        &&& forall|k: int| 0 <= k < self.num_seeds ==> #[trigger] self.parents[k] == -1
        &&& forall|k: int|
            self.num_seeds <= k < self.members.len() ==> {
                &&& 0 <= #[trigger] self.parents[k] < k
                &&& self.available[self.members[k] as int]
                &&& neighbor_of(self.mesh, self.members[k], self.members[self.parents[k]])
            }
        &&& 0 <= self.pos <= self.members.len()
        &&& 0 <= self.slot <= 4
        &&& self.pending matches Some((c, p)) ==> {
            &&& c < self.mesh.len()
            &&& !self.claimed[c as int]
            &&& self.available[c as int]
            &&& 0 <= p < self.members.len()
            &&& neighbor_of(self.mesh, c, self.members[p])
        }
    }
}

impl View for RegionGrowth {
    type V = GrowthView;

    closed spec fn view(&self) -> GrowthView {
        GrowthView {
            members: self.members@,
            claimed: self.claimed@,
            available: self.available@,
            pos: self.pos as int,
            slot: self.slot as int,
            pending: match self.pending {
                Some((c, p)) => Some((c, p as int)),
                None => None,
            },
            parents: self.parents@,
            mesh: self.mesh@,
            num_seeds: self.num_seeds as int,
        }
    }
}

/// The members after `scan` skips a slot or a member keep their invariant; what it offers is a
/// neighbor of the member it stops at.
proof fn lemma_scan(mesh: Seq<MeshFace>, members: Seq<usize>, claimed: Seq<bool>, available: Seq<bool>, pos: int, slot: int)
    requires
        mesh_well_formed(mesh),
        claimed.len() == mesh.len(),
        available.len() == mesh.len(),
        forall|k: int| 0 <= k < members.len() ==> #[trigger] members[k] < mesh.len(),
        0 <= pos <= members.len(),
        0 <= slot <= 4,
    ensures
        ({
            let (c, p, s) = scan(mesh, members, claimed, available, pos, slot);
            &&& 0 <= p <= members.len()
            &&& 0 <= s <= 4
            &&& c is None ==> p == members.len()
            &&& c matches Some(f) ==> {
                &&& p < members.len()
                &&& f < mesh.len()
                &&& !claimed[f as int]
                &&& available[f as int]
                &&& neighbor_of(mesh, f, members[p])
            }
        }),
    decreases members.len() - pos, 256 - slot,
{
    if pos < members.len() {
        let g = members[pos] as int;
        assert(1 <= mesh[g].vertex_count <= 4);
        if slot >= mesh[g].vertex_count {
            lemma_scan(mesh, members, claimed, available, pos + 1, 0);
        } else {
            let ni = mesh[g].neighbors@[slot];
            assert(-1 <= mesh[g].neighbors@[slot] < mesh.len());
            if ni < 0 || !available[ni as int] || claimed[ni as int] {
                lemma_scan(mesh, members, claimed, available, pos, slot + 1);
            } else {
                assert(mesh[g].neighbors@[slot] == (ni as usize) as i32);
            }
        }
    }
}

/// What `scan` finds, stated slot by slot: the face named by the first edge slot, from member
/// `pos`, slot `slot` on, that names an available face not in the region; every slot passed
/// over names none; with no offer, no slot from there on names one.
proof fn lemma_scan_first(mesh: Seq<MeshFace>, members: Seq<usize>, claimed: Seq<bool>, available: Seq<bool>, pos: int, slot: int)
    requires
        mesh_well_formed(mesh),
        claimed.len() == mesh.len(),
        available.len() == mesh.len(),
        forall|k: int| 0 <= k < members.len() ==> #[trigger] members[k] < mesh.len(),
        0 <= pos <= members.len(),
        0 <= slot <= 4,
    ensures
        ({
            let (c, p, s) = scan(mesh, members, claimed, available, pos, slot);
            &&& c is None ==> forall|q: int, k: int|
                pos <= q < members.len() && (q > pos || k >= slot) && 0 <= k < mesh[members[q] as int].vertex_count
                    && #[trigger] mesh[members[q] as int].neighbors@[k] >= 0 ==> !available[mesh[members[q] as int].neighbors@[k] as int]
                    || claimed[mesh[members[q] as int].neighbors@[k] as int]
            &&& c matches Some(f) ==> {
                &&& pos <= p < members.len()
                &&& 1 <= s <= mesh[members[p] as int].vertex_count
                &&& (p > pos || s - 1 >= slot)
                &&& mesh[members[p] as int].neighbors@[s - 1] == f as i32
                &&& available[f as int]
                &&& !claimed[f as int]
                &&& forall|q: int, k: int|
                    pos <= q <= p && (q > pos || k >= slot) && (q < p || k < s - 1) && 0 <= k < mesh[members[q] as int].vertex_count
                        && #[trigger] mesh[members[q] as int].neighbors@[k] >= 0 ==> !available[mesh[members[q] as int].neighbors@[k] as int]
                        || claimed[mesh[members[q] as int].neighbors@[k] as int]
            }
        }),
    decreases members.len() - pos, 256 - slot,
{
    if pos < members.len() {
        let g = members[pos] as int;
        assert(1 <= mesh[g].vertex_count <= 4);
        if slot >= mesh[g].vertex_count {
            lemma_scan_first(mesh, members, claimed, available, pos + 1, 0);
        } else {
            let ni = mesh[g].neighbors@[slot];
            assert(-1 <= mesh[g].neighbors@[slot] < mesh.len());
            if ni < 0 || !available[ni as int] || claimed[ni as int] {
                lemma_scan_first(mesh, members, claimed, available, pos, slot + 1);
            } else {
                assert(mesh[g].neighbors@[slot] == (ni as usize) as i32);
            }
        }
    }
}

/// The offer of a growing region is the face named by the first edge slot, from the cursor
/// on (members in the order they joined, each member's slots in order up to its vertex
/// count), that names an available face not yet in the region; every slot passed over names
/// no such face; and there is no offer only when no slot from the cursor on names one.
pub proof fn lemma_offer_is_first_open_slot(s: GrowthView)
    requires
        s.wf(),
    ensures
        offered(s) is None ==> forall|q: int, k: int|
            s.pos <= q < s.members.len() && (q > s.pos || k >= s.slot) && 0 <= k < s.mesh[s.members[q] as int].vertex_count
                && #[trigger] s.mesh[s.members[q] as int].neighbors@[k] >= 0 ==> !s.available[s.mesh[s.members[q] as int].neighbors@[k] as int]
                || s.claimed[s.mesh[s.members[q] as int].neighbors@[k] as int],
        offered(s) matches Some(f) ==> {
            let p = after_offer(s).pos;
            let n = after_offer(s).slot;
            &&& s.pos <= p < s.members.len()
            &&& 1 <= n <= s.mesh[s.members[p] as int].vertex_count
            &&& (p > s.pos || n - 1 >= s.slot)
            &&& s.mesh[s.members[p] as int].neighbors@[n - 1] == f as i32
            &&& s.available[f as int]
            &&& !s.claimed[f as int]
            &&& forall|q: int, k: int|
                s.pos <= q <= p && (q > s.pos || k >= s.slot) && (q < p || k < n - 1) && 0 <= k < s.mesh[s.members[q] as int].vertex_count
                    && #[trigger] s.mesh[s.members[q] as int].neighbors@[k] >= 0 ==> !s.available[s.mesh[s.members[q] as int].neighbors@[k] as int]
                    || s.claimed[s.mesh[s.members[q] as int].neighbors@[k] as int]
        },
{
    lemma_scan_first(s.mesh, s.members, s.claimed, s.available, s.pos, s.slot);
}

fn copy_flags(v: &Vec<bool>) -> (r: Vec<bool>)
    ensures
        r@ == v@,
{
    let mut r: Vec<bool> = Vec::new();
    let mut i: usize = 0;
    while i < v.len()
        invariant
            i <= v.len(),
            r@ == v@.take(i as int),
        decreases v.len() - i,
    {
        r.push(v[i]);
        i += 1;
        proof {
            assert(v@.take(i as int) == v@.take(i - 1 as int).push(v@[i - 1]));
        }
    }
    proof {
        assert(v@.take(v.len() as int) == v@);
    }
    r
}

impl RegionGrowth {
    /// Start a region from its seed faces, on `faces`, where `available` says which faces
    /// may join.
    pub fn new(seeds: &Vec<usize>, faces: &Vec<MeshFace>, available: &Vec<bool>) -> (r: Self)
        requires
            mesh_well_formed(faces@),
            available.len() == faces.len(),
            seeds@.no_duplicates(),
            forall|k: int| 0 <= k < seeds.len() ==> #[trigger] seeds@[k] < faces.len(),
        ensures
            r@.wf(),
            r@.members == seeds@,
            r@.num_seeds == seeds.len(),
            r@.mesh == faces@,
            r@.available == available@,
            r@.pos == 0,
            r@.slot == 0,
            r@.pending is None,
    {
        let mut claimed: Vec<bool> = Vec::new();
        let mut i: usize = 0;
        while i < faces.len()
            invariant
                i <= faces.len(),
                claimed.len() == i,
                forall|f: int| 0 <= f < i ==> #[trigger] claimed@[f] == seeds@.contains(f as usize),
            decreases faces.len() - i,
        {
            let mut hit = false;
            let mut k: usize = 0;
            while k < seeds.len()
                invariant
                    k <= seeds.len(),
                    hit == seeds@.take(k as int).contains(i),
                decreases seeds.len() - k,
            {
                proof {
                    assert(seeds@.take(k + 1 as int) == seeds@.take(k as int).push(seeds@[k as int]));
                }
                if seeds[k] == i {
                    hit = true;
                }
                proof {
                    let t0 = seeds@.take(k as int);
                    let t1 = seeds@.take(k + 1 as int);
                    if seeds@[k as int] == i {
                        assert(t1[k as int] == i);
                    }
                    if t0.contains(i) {
                        let j = choose|j: int| 0 <= j < t0.len() && t0[j] == i;
                        assert(t1[j] == i);
                    }
                    if t1.contains(i) {
                        let j = choose|j: int| 0 <= j < t1.len() && t1[j] == i;
                        if j < k {
                            assert(t0[j] == i);
                        }
                    }
                }
                k += 1;
            }
            proof {
                assert(seeds@.take(seeds.len() as int) == seeds@);
            }
            claimed.push(hit);
            i += 1;
        }
        let mut members: Vec<usize> = Vec::new();
        let mut k: usize = 0;
        while k < seeds.len()
            invariant
                k <= seeds.len(),
                members@ == seeds@.take(k as int),
            decreases seeds.len() - k,
        {
            members.push(seeds[k]);
            k += 1;
            proof {
                assert(seeds@.take(k as int) == seeds@.take(k - 1 as int).push(seeds@[k - 1]));
            }
        }
        proof {
            assert(seeds@.take(seeds.len() as int) == seeds@);
        }
        let r = RegionGrowth {
            members,
            claimed,
            available: copy_flags(available),
            pos: 0,
            slot: 0,
            pending: None,
            num_seeds: seeds.len(),
            parents: Ghost(Seq::new(seeds.len() as nat, |k: int| -1)),
            mesh: Ghost(faces@),
        };
        r
    }

    /// The faces of the region, seeds first, in the order they joined.
    pub fn members(&self) -> (r: &Vec<usize>)
        ensures
            r@ == self@.members,
    {
        &self.members
    }

    /// Offer the next face to test, or `None` when every member has been expanded. A face
    /// offered before and not accepted is dropped.
    pub fn next_candidate(&mut self, faces: &Vec<MeshFace>) -> (r: Option<usize>)
        requires
            old(self)@.wf(),
            faces@ == old(self)@.mesh,
        ensures
            final(self)@.wf(),
            r == offered(old(self)@),
            final(self)@ == after_offer(old(self)@),
            ({
                let s = old(self)@;
                r is None ==> forall|q: int, k: int|
                    s.pos <= q < s.members.len() && (q > s.pos || k >= s.slot) && 0 <= k < s.mesh[s.members[q] as int].vertex_count
                        && #[trigger] s.mesh[s.members[q] as int].neighbors@[k] >= 0 ==> !s.available[s.mesh[s.members[q] as int].neighbors@[k] as int]
                        || s.claimed[s.mesh[s.members[q] as int].neighbors@[k] as int]
            }),
            ({
                let s = old(self)@;
                let p = final(self)@.pos;
                let n = final(self)@.slot;
                r matches Some(f) ==> {
                    &&& s.pos <= p < s.members.len()
                    &&& 1 <= n <= s.mesh[s.members[p] as int].vertex_count
                    &&& (p > s.pos || n - 1 >= s.slot)
                    &&& s.mesh[s.members[p] as int].neighbors@[n - 1] == f as i32
                    &&& s.available[f as int]
                    &&& !s.claimed[f as int]
                    &&& forall|q: int, k: int|
                        s.pos <= q <= p && (q > s.pos || k >= s.slot) && (q < p || k < n - 1) && 0 <= k
                            < s.mesh[s.members[q] as int].vertex_count && #[trigger] s.mesh[s.members[q] as int].neighbors@[k] >= 0
                            ==> !s.available[s.mesh[s.members[q] as int].neighbors@[k] as int]
                            || s.claimed[s.mesh[s.members[q] as int].neighbors@[k] as int]
                }
            }),
    {
        let ghost s = self@;
        proof {
            lemma_scan(s.mesh, s.members, s.claimed, s.available, s.pos, s.slot);
        }
        loop
            invariant
                s == old(self)@,
                s.wf(),
                self@.wf(),
                faces@ == self@.mesh,
                self@.members == s.members,
                self@.claimed == s.claimed,
                self@.available == s.available,
                self@.parents == s.parents,
                self@.mesh == s.mesh,
                self@.num_seeds == s.num_seeds,
                self@.pending == s.pending,
                scan(s.mesh, s.members, s.claimed, s.available, self.pos as int, self.slot as int) == scan(
                    s.mesh,
                    s.members,
                    s.claimed,
                    s.available,
                    s.pos,
                    s.slot,
                ),
            decreases self.members.len() - self.pos, 256 - self.slot,
        {
            if self.pos >= self.members.len() {
                self.pending = None;
                self.slot = 0;
                proof {
                    assert(self.pos as int == s.members.len());
                    assert(self@.pending is None);
                    assert(self@ == (GrowthView { pos: s.members.len() as int, slot: 0, pending: None, ..s }));
                    assert(scan(s.mesh, s.members, s.claimed, s.available, self.pos as int, self.slot as int) == (
                    None::<usize>, s.members.len() as int, 0int));
                    assert(self@ == after_offer(s));
                    lemma_offer_is_first_open_slot(s);
                }
                return None;
            }
            let g = self.members[self.pos];
            proof {
                assert(g < s.mesh.len());
                assert(1 <= s.mesh[g as int].vertex_count <= 4);
            }
            if self.slot >= faces[g].vertex_count as usize {
                self.pos = self.pos + 1;
                self.slot = 0;
            } else {
                let ni = faces[g].neighbors[self.slot];
                proof {
                    assert(-1 <= s.mesh[g as int].neighbors@[self.slot as int] < s.mesh.len());
                }
                if ni < 0 || !self.available[ni as usize] || self.claimed[ni as usize] {
                    self.slot = self.slot + 1;
                } else {
                    let p = self.pos;
                    self.slot = self.slot + 1;
                    self.pending = Some((ni as usize, p));
                    proof {
                        lemma_scan(s.mesh, s.members, s.claimed, s.available, p as int, (self.slot - 1) as int);
                        assert(self@ == (GrowthView { pos: p as int, slot: self.slot as int, pending: Some((ni as usize, p as int)), ..s }));
                        assert(self@ == after_offer(s));
                        lemma_offer_is_first_open_slot(s);
                    }
                    return Some(ni as usize);
                }
            }
        }
    }

    /// Accept the face last offered: it joins the region.
    pub fn accept(&mut self)
        requires
            old(self)@.wf(),
            old(self)@.pending is Some,
        ensures
            final(self)@.wf(),
            ({
                let s = old(self)@;
                let (c, p) = s.pending->Some_0;
                final(self)@ == (GrowthView {
                    members: s.members.push(c),
                    claimed: s.claimed.update(c as int, true),
                    parents: s.parents.push(p),
                    pending: None,
                    ..s
                })
            }),
    {
        let ghost s = self@;
        let (c, p) = match self.pending {
            Some(x) => x,
            None => (0, 0),
        };
        self.members.push(c);
        self.claimed.set(c, true);
        self.pending = None;
        self.parents = Ghost(self.parents@.push(p as int));
        proof {
            let t = self@;
            assert(t.mesh.len() == self.claimed.len());
            assert forall|f: int| 0 <= f < t.mesh.len() implies (#[trigger] t.claimed[f] <==> t.members.contains(f as usize)) by {
                if f == c as int {
                    assert(t.members[t.members.len() - 1] == c);
                } else {
                    assert(s.claimed[f] <==> s.members.contains(f as usize));
                    if s.members.contains(f as usize) {
                        let k = choose|k: int| 0 <= k < s.members.len() && s.members[k] == f as usize;
                        assert(t.members[k] == f as usize);
                    }
                    if t.members.contains(f as usize) {
                        let k = choose|k: int| 0 <= k < t.members.len() && t.members[k] == f as usize;
                        assert(t.members[s.members.len() as int] == c);
                        assert(t.members[k] != c);
                        assert(k < s.members.len());
                        assert(s.members[k] == f as usize);
                    }
                }
            }
            assert(t.members.no_duplicates()) by {
                assert(!s.members.contains(c)) by {
                    assert(!s.claimed[c as int]);
                }
                assert forall|a: int, b: int| 0 <= a < t.members.len() && 0 <= b < t.members.len() && a != b implies t.members[a]
                    != t.members[b] by {
                    if a < s.members.len() && b < s.members.len() {
                    } else if a < s.members.len() {
                        assert(s.members.contains(s.members[a]));
                    } else {
                        assert(s.members.contains(s.members[b]));
                    }
                }
            }
            assert forall|k: int| s.num_seeds <= k < t.members.len() implies {
                &&& 0 <= #[trigger] t.parents[k] < k
                &&& t.available[t.members[k] as int]
                &&& neighbor_of(t.mesh, t.members[k], t.members[t.parents[k]])
            } by {
                if k < s.members.len() {
                    assert(t.parents[k] == s.parents[k]);
                    assert(t.members[s.parents[k]] == s.members[s.parents[k]]);
                } else {
                    assert(t.parents[k] == p);
                    assert(t.members[p as int] == s.members[p as int]);
                }
            }
            assert forall|k: int| 0 <= k < s.num_seeds implies #[trigger] t.parents[k] == -1 by {
                assert(t.parents[k] == s.parents[k]);
            }
        }
    }
}

} // verus!
