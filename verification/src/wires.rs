//! Grouping a face's edges into wires: edges that share vertices, directly or through other
//! edges of the face, go into one wire; an edge with no vertex at either end is a closed
//! loop and forms a wire of its own.

use vstd::prelude::*;
use crate::reconstruct::{ReconEdge, FaceDescriptor};

verus! {

/// The grouping state: the groups so far, and the group of each vertex seen.
pub struct WireState {
    pub groups: Seq<Seq<usize>>,
    pub vertex_group: Map<usize, usize>,
}

/// The group of vertex `v`, if `v` is a vertex that has one.
pub open spec fn group_of(m: Map<usize, usize>, v: usize) -> Option<usize> {
    if v != usize::MAX && m.contains_key(v) {
        Some(m[v])
    } else {
        None
    }
}

/// Record group `g` for `v`, unless `v` is no vertex.
pub open spec fn assign(m: Map<usize, usize>, v: usize, g: usize) -> Map<usize, usize> {
    if v != usize::MAX {
        m.insert(v, g)
    } else {
        m
    }
}

/// Add edge `ei` to the grouping.
pub open spec fn wire_step(edges: Seq<ReconEdge>, st: WireState, ei: usize) -> WireState {
    let v0 = edges[ei as int].vertex_indices@[0];
    let v1 = edges[ei as int].vertex_indices@[1];
    if v0 == usize::MAX && v1 == usize::MAX {
        WireState { groups: st.groups.push(seq![ei]), ..st }
    } else {
        match (group_of(st.vertex_group, v0), group_of(st.vertex_group, v1)) {
            (None, None) => {
                let gi = st.groups.len() as usize;
                WireState {
                    groups: st.groups.push(seq![ei]),
                    vertex_group: assign(assign(st.vertex_group, v0, gi), v1, gi),
                }
            },
            (Some(gi), None) => WireState {
                groups: st.groups.update(gi as int, st.groups[gi as int].push(ei)),
                vertex_group: assign(st.vertex_group, v1, gi),
            },
            (None, Some(gi)) => WireState {
                groups: st.groups.update(gi as int, st.groups[gi as int].push(ei)),
                vertex_group: assign(st.vertex_group, v0, gi),
            },
            (Some(g0), Some(g1)) => if g0 == g1 {
                WireState { groups: st.groups.update(g0 as int, st.groups[g0 as int].push(ei)), ..st }
            } else {
                let keep = if g0 < g1 { g0 } else { g1 };
                let merge = if g0 < g1 { g1 } else { g0 };
                WireState {
                    groups: st.groups.update(keep as int, st.groups[keep as int].push(ei) + st.groups[merge as int]).update(
                        merge as int,
                        Seq::empty(),
                    ),
                    vertex_group: st.vertex_group.map_values(|g: usize| if g == merge { keep } else { g }),
                }
            },
        }
    }
}

/// The grouping after the first `k` edges of `eis`.
pub open spec fn wires_after(edges: Seq<ReconEdge>, eis: Seq<usize>, k: int) -> WireState
    decreases k,
{
    if k <= 0 {
        WireState { groups: Seq::empty(), vertex_group: Map::empty() }
    } else {
        wire_step(edges, wires_after(edges, eis, k - 1), eis[k - 1])
    }
}

/// The non-empty groups among the first `n`, in order.
pub open spec fn nonempty_groups(gs: Seq<Seq<usize>>, n: int) -> Seq<Seq<usize>>
    decreases n,
{
    if n <= 0 {
        Seq::empty()
    } else if gs[n - 1].len() > 0 {
        nonempty_groups(gs, n - 1).push(gs[n - 1])
    } else {
        nonempty_groups(gs, n - 1)
    }
}

/// The wires of a face whose edges, in boundary order, are `eis`.
pub open spec fn spec_wires(edges: Seq<ReconEdge>, eis: Seq<usize>) -> Seq<Seq<usize>> {
    let gs = wires_after(edges, eis, eis.len() as int).groups;
    nonempty_groups(gs, gs.len() as int)
}

/// The map of an association list: later entries win.
pub open spec fn assoc_map(a: Seq<(usize, usize)>) -> Map<usize, usize>
    decreases a.len(),
{
    if a.len() == 0 {
        Map::empty()
    } else {
        assoc_map(a.drop_last()).insert(a.last().0, a.last().1)
    }
}

/// The entry at `k` is the last one for its key, and gives the map's value.
proof fn lemma_assoc_last(a: Seq<(usize, usize)>, k: int)
    requires
        0 <= k < a.len(),
        forall|j: int| k < j < a.len() ==> a[j].0 != a[k].0,
    ensures
        assoc_map(a).contains_key(a[k].0),
        assoc_map(a)[a[k].0] == a[k].1,
    decreases a.len(),
{
    if k < a.len() - 1 {
        lemma_assoc_last(a.drop_last(), k);
    }
}

/// A key with no entry is not in the map.
proof fn lemma_assoc_absent(a: Seq<(usize, usize)>, v: usize)
    requires
        forall|j: int| 0 <= j < a.len() ==> a[j].0 != v,
    ensures
        !assoc_map(a).contains_key(v),
    decreases a.len(),
{
    if a.len() > 0 {
        lemma_assoc_absent(a.drop_last(), v);
    }
}

/// Every key of the map has an entry, whose value bounds hold for the map's value.
proof fn lemma_assoc_values(a: Seq<(usize, usize)>, bound: usize)
    requires
        forall|j: int| 0 <= j < a.len() ==> (#[trigger] a[j]).1 < bound,
    ensures
        forall|v: usize| #[trigger] assoc_map(a).contains_key(v) ==> assoc_map(a)[v] < bound,
    decreases a.len(),
{
    if a.len() > 0 {
        let a1 = a.drop_last();
        assert forall|j: int| 0 <= j < a1.len() implies (#[trigger] a1[j]).1 < bound by {
            assert(a1[j] == a[j]);
        }
        lemma_assoc_values(a1, bound);
        assert(a.last() == a[a.len() - 1]);
        assert forall|v: usize| #[trigger] assoc_map(a).contains_key(v) implies assoc_map(a)[v] < bound by {
            if v != a.last().0 {
                assert(assoc_map(a1).contains_key(v));
            }
        }
    }
}

/// Rewriting every value of the list rewrites every value of the map.
proof fn lemma_assoc_remap(a: Seq<(usize, usize)>, merge: usize, keep: usize)
    ensures
        assoc_map(Seq::new(a.len(), |j: int| (a[j].0, if a[j].1 == merge { keep } else { a[j].1 })))
            == assoc_map(a).map_values(|g: usize| if g == merge { keep } else { g }),
    decreases a.len(),
{
    let b = Seq::new(a.len(), |j: int| (a[j].0, if a[j].1 == merge { keep } else { a[j].1 }));
    if a.len() > 0 {
        let a1 = a.drop_last();
        lemma_assoc_remap(a1, merge, keep);
        assert(b.drop_last() =~= Seq::new(a1.len(), |j: int| (a1[j].0, if a1[j].1 == merge { keep } else { a1[j].1 })));
        assert(assoc_map(b) =~= assoc_map(a).map_values(|g: usize| if g == merge { keep } else { g }));
    } else {
        assert(assoc_map(b) =~= assoc_map(a).map_values(|g: usize| if g == merge { keep } else { g }));
    }
}

/// The group of vertex `v` from the association list.
fn lookup_group(assoc: &Vec<(usize, usize)>, v: usize) -> (r: Option<usize>)
    ensures
        r == group_of(assoc_map(assoc@), v),
{
    if v == usize::MAX {
        return None;
    }
    let mut k: usize = assoc.len();
    while k > 0
        invariant
            k <= assoc.len(),
            v != usize::MAX,
            forall|j: int| k <= j < assoc.len() ==> assoc@[j].0 != v,
        decreases k,
    {
        k -= 1;
        if assoc[k].0 == v {
            proof {
                lemma_assoc_last(assoc@, k as int);
                assert(assoc@[k as int].0 == v);
                assert(assoc_map(assoc@).contains_key(v));
                assert(assoc_map(assoc@)[v] == assoc@[k as int].1);
            }
            return Some(assoc[k].1);
        }
    }
    proof {
        lemma_assoc_absent(assoc@, v);
    }
    None
}

fn copy_list(v: &Vec<usize>) -> (r: Vec<usize>)
    ensures
        r@ == v@,
{
    let mut r: Vec<usize> = Vec::new();
    let mut i: usize = 0;
    while i < v.len()
        invariant
            i <= v.len(),
            r@ == v@.take(i as int),
        decreases v.len() - i,
    {
        r.push(v[i]);
        i += 1;
        proof {
            assert(v@.take(i as int) == v@.take(i - 1 as int).push(v@[i - 1]));
        }
    }
    proof {
        assert(v@.take(v.len() as int) == v@);
    }
    r
}

/// The groups of a vector of lists, by value.
pub open spec fn lists_of(groups: Seq<Vec<usize>>) -> Seq<Seq<usize>> {
    Seq::new(groups.len(), |t: int| groups[t]@)
}

/// Group the edges of face `fd` into wires, in order of their first edge; within a wire,
/// edges in the order they joined it.
pub fn group_edges_into_wires(fd: &FaceDescriptor, edges: &Vec<ReconEdge>) -> (r: Vec<Vec<usize>>)
    requires
        forall|k: int| 0 <= k < fd.edge_indices.len() ==> #[trigger] fd.edge_indices@[k] < edges.len(),
    ensures
        lists_of(r@) == spec_wires(edges@, fd.edge_indices@),
{
    let ghost es = edges@;
    let ghost eis = fd.edge_indices@;
    let mut groups: Vec<Vec<usize>> = Vec::new();
    let mut assoc: Vec<(usize, usize)> = Vec::new();
    let mut k: usize = 0;
    while k < fd.edge_indices.len()
        invariant
            es == edges@,
            eis == fd.edge_indices@,
            k <= eis.len(),
            forall|q: int| 0 <= q < eis.len() ==> #[trigger] eis[q] < edges.len(),
            lists_of(groups@) == wires_after(es, eis, k as int).groups,
            assoc_map(assoc@) == wires_after(es, eis, k as int).vertex_group,
            forall|j: int| 0 <= j < assoc.len() ==> (#[trigger] assoc@[j]).1 < groups.len(),
        decreases eis.len() - k,
    {
        let ei = fd.edge_indices[k];
        let v0 = edges[ei].vertex_indices[0];
        let v1 = edges[ei].vertex_indices[1];
        let ghost st = wires_after(es, eis, k as int);
        let ghost next = wire_step(es, st, ei);
        proof {
            assert(wires_after(es, eis, k + 1 as int) == next);
            lemma_assoc_values(assoc@, groups.len());
        }
        let ghost old_groups = groups@;
        let ghost old_assoc = assoc@;
        if v0 == usize::MAX && v1 == usize::MAX {
            let mut g: Vec<usize> = Vec::new();
            g.push(ei);
            groups.push(g);
            proof {
                assert(lists_of(groups@) =~= next.groups) by {
                    assert(groups@[groups.len() - 1]@ =~= seq![ei]);
                }
                assert(assoc_map(assoc@) =~= next.vertex_group);
            }
        } else {
            let g0 = lookup_group(&assoc, v0);
            let g1 = lookup_group(&assoc, v1);
            match (g0, g1) {
                (None, None) => {
                    let gi = groups.len();
                    let mut g: Vec<usize> = Vec::new();
                    g.push(ei);
                    groups.push(g);
                    if v0 != usize::MAX {
                        assoc.push((v0, gi));
                    }
                    if v1 != usize::MAX {
                        assoc.push((v1, gi));
                    }
                    proof {
                        assert(lists_of(groups@) =~= next.groups) by {
                            assert(groups@[groups.len() - 1]@ =~= seq![ei]);
                        }
                        assert(gi == st.groups.len());
                        if v0 != usize::MAX && v1 != usize::MAX {
                            let mid = old_assoc.push((v0, gi));
                            assert(assoc@ =~= mid.push((v1, gi)));
                            assert(assoc@.drop_last() =~= mid);
                            assert(mid.drop_last() =~= old_assoc);
                            assert(assoc_map(mid) == assoc_map(old_assoc).insert(v0, gi));
                            assert(assoc_map(assoc@) == assoc_map(mid).insert(v1, gi));
                        } else if v0 != usize::MAX {
                            assert(assoc@ =~= old_assoc.push((v0, gi)));
                            assert(assoc@.drop_last() =~= old_assoc);
                        } else {
                            assert(assoc@ =~= old_assoc.push((v1, gi)));
                            assert(assoc@.drop_last() =~= old_assoc);
                        }
                        assert(assoc_map(assoc@) =~= next.vertex_group);
                    }
                },
                (Some(gi), None) => {
                    let mut g = copy_list(&groups[gi]);
                    g.push(ei);
                    groups.set(gi, g);
                    if v1 != usize::MAX {
                        assoc.push((v1, gi));
                    }
                    proof {
                        assert(lists_of(groups@) =~= next.groups);
                        if v1 != usize::MAX {
                            assert(assoc@.drop_last() =~= old_assoc);
                        }
                        assert(assoc_map(assoc@) =~= next.vertex_group);
                    }
                },
                (None, Some(gi)) => {
                    let mut g = copy_list(&groups[gi]);
                    g.push(ei);
                    groups.set(gi, g);
                    if v0 != usize::MAX {
                        assoc.push((v0, gi));
                    }
                    proof {
                        assert(lists_of(groups@) =~= next.groups);
                        if v0 != usize::MAX {
                            assert(assoc@.drop_last() =~= old_assoc);
                        }
                        assert(assoc_map(assoc@) =~= next.vertex_group);
                    }
                },
                (Some(a), Some(b)) => {
                    if a == b {
                        let mut g = copy_list(&groups[a]);
                        g.push(ei);
                        groups.set(a, g);
                        proof {
                            assert(lists_of(groups@) =~= next.groups);
                            assert(assoc_map(assoc@) =~= next.vertex_group);
                        }
                    } else {
                        let keep = if a < b {
                            a
                        } else {
                            b
                        };
                        let merge = if a < b {
                            b
                        } else {
                            a
                        };
                        let mut g = copy_list(&groups[keep]);
                        g.push(ei);
                        let ghost kept = g@;
                        let mut t: usize = 0;
                        while t < groups[merge].len()
                            invariant
                                merge < groups.len(),
                                t <= groups@[merge as int].len(),
                                g@ == kept + groups@[merge as int]@.take(t as int),
                            decreases groups@[merge as int].len() - t,
                        {
                            g.push(groups[merge][t]);
                            t += 1;
                            proof {
                                assert(groups@[merge as int]@.take(t as int) =~= groups@[merge as int]@.take(t - 1 as int).push(
                                    groups@[merge as int]@[t - 1],
                                ));
                            }
                        }
                        proof {
                            assert(groups@[merge as int]@.take(groups@[merge as int].len() as int) =~= groups@[merge as int]@);
                        }
                        groups.set(keep, g);
                        groups.set(merge, Vec::new());
                        let ghost before_remap = assoc@;
                        let mut j: usize = 0;
                        while j < assoc.len()
                            invariant
                                j <= assoc.len(),
                                assoc.len() == before_remap.len(),
                                forall|q: int| 0 <= q < j ==> #[trigger] assoc@[q] == (before_remap[q].0, if before_remap[q].1 == merge {
                                    keep
                                } else {
                                    before_remap[q].1
                                }),
                                forall|q: int| j <= q < assoc.len() ==> #[trigger] assoc@[q] == before_remap[q],
                            decreases assoc.len() - j,
                        {
                            let (v, g) = assoc[j];
                            if g == merge {
                                assoc.set(j, (v, keep));
                            }
                            j += 1;
                        }
                        proof {
                            assert(lists_of(groups@) =~= next.groups);
                            lemma_assoc_remap(before_remap, merge, keep);
                            assert(assoc@ =~= Seq::new(
                                before_remap.len(),
                                |q: int| (before_remap[q].0, if before_remap[q].1 == merge { keep } else { before_remap[q].1 }),
                            ));
                            assert(assoc_map(assoc@) =~= next.vertex_group);
                        }
                    }
                },
            }
        }
        k += 1;
    }
    let ghost gs = wires_after(es, eis, eis.len() as int).groups;
    let mut out: Vec<Vec<usize>> = Vec::new();
    let mut t: usize = 0;
    while t < groups.len()
        invariant
            t <= groups.len(),
            lists_of(groups@) == gs,
            lists_of(out@) == nonempty_groups(gs, t as int),
        decreases groups.len() - t,
    {
        if groups[t].len() > 0 {
            let g = copy_list(&groups[t]);
            out.push(g);
            proof {
                assert(lists_of(out@) =~= nonempty_groups(gs, t + 1 as int));
            }
        }
        t += 1;
    }
    out
}

/// How often `x` occurs in `s`.
pub open spec fn count_in(s: Seq<usize>, x: usize) -> nat
    decreases s.len(),
{
    if s.len() == 0 {
        0
    } else {
        count_in(s.drop_last(), x) + if s.last() == x { 1nat } else { 0nat }
    }
}

/// How often `x` occurs in the first `n` groups together.
pub open spec fn count_in_groups(gs: Seq<Seq<usize>>, x: usize, n: int) -> nat
    decreases n,
{
    if n <= 0 {
        0
    } else {
        count_in_groups(gs, x, n - 1) + count_in(gs[n - 1], x)
    }
}

proof fn lemma_count_in_concat(a: Seq<usize>, b: Seq<usize>, x: usize)
    ensures
        count_in(a + b, x) == count_in(a, x) + count_in(b, x),
    decreases b.len(),
{
    if b.len() > 0 {
        lemma_count_in_concat(a, b.drop_last(), x);
        assert((a + b).drop_last() =~= a + b.drop_last());
    } else {
        assert(a + b =~= a);
    }
}

proof fn lemma_count_groups_update(gs: Seq<Seq<usize>>, i: int, y: Seq<usize>, x: usize, n: int)
    requires
        0 <= i < gs.len(),
        n <= gs.len(),
    ensures
        count_in_groups(gs.update(i, y), x, n) + (if i < n { count_in(gs[i], x) } else { 0 }) == count_in_groups(gs, x, n) + (if i < n {
            count_in(y, x)
        } else {
            0
        }),
    decreases n,
{
    if n > 0 {
        lemma_count_groups_update(gs, i, y, x, n - 1);
    }
}

proof fn lemma_count_groups_prefix(gs: Seq<Seq<usize>>, y: Seq<usize>, x: usize, n: int)
    requires
        n <= gs.len(),
    ensures
        count_in_groups(gs.push(y), x, n) == count_in_groups(gs, x, n),
    decreases n,
{
    if n > 0 {
        lemma_count_groups_prefix(gs, y, x, n - 1);
    }
}

/// Each step adds the new edge once to the groups, keeps the group of each vertex a valid
/// group, and keeps every edge in the group of each of its vertices.
pub open spec fn wires_invariant(edges: Seq<ReconEdge>, eis: Seq<usize>, k: int, st: WireState) -> bool {
    &&& st.groups.len() <= k
    &&& forall|x: usize| #[trigger] count_in_groups(st.groups, x, st.groups.len() as int) == count_in(eis.take(k), x)
    &&& forall|v: usize| #[trigger] st.vertex_group.contains_key(v) ==> st.vertex_group[v] < st.groups.len()
    &&& forall|p: int, side: int|
        0 <= p < k && 0 <= side < 2 && #[trigger] edges[eis[p] as int].vertex_indices@[side] != usize::MAX ==> {
            let v = edges[eis[p] as int].vertex_indices@[side];
            &&& st.vertex_group.contains_key(v)
            &&& st.groups[st.vertex_group[v] as int].contains(eis[p])
        }
}

#[verifier::rlimit(40)]
proof fn lemma_wires_invariant(edges: Seq<ReconEdge>, eis: Seq<usize>, k: int)
    requires
        0 <= k <= eis.len(),
        eis.len() <= usize::MAX,
    ensures
        wires_invariant(edges, eis, k, wires_after(edges, eis, k)),
    decreases k,
{
    if k == 0 {
        assert forall|x: usize| #[trigger] count_in_groups(Seq::<Seq<usize>>::empty(), x, 0) == count_in(eis.take(0), x) by {
            assert(eis.take(0).len() == 0);
        }
    } else {
        lemma_wires_invariant(edges, eis, k - 1);
        let st = wires_after(edges, eis, k - 1);
        let ei = eis[k - 1];
        let nx = wires_after(edges, eis, k);
        assert(nx == wire_step(edges, st, ei));
        let gs = st.groups;
        let vg = st.vertex_group;
        let v0 = edges[ei as int].vertex_indices@[0];
        let v1 = edges[ei as int].vertex_indices@[1];
        assert(eis.take(k) =~= eis.take(k - 1).push(ei));
        assert forall|x: usize| #[trigger] count_in(eis.take(k), x) == count_in(eis.take(k - 1), x) + if ei == x { 1nat } else { 0nat } by {
            assert(eis.take(k).drop_last() =~= eis.take(k - 1));
        }
        let single = seq![ei];
        assert forall|x: usize| #[trigger] count_in(single, x) == if ei == x { 1nat } else { 0nat } by {
            assert(single.drop_last() =~= Seq::<usize>::empty());
            assert(count_in(Seq::<usize>::empty(), x) == 0);
        }
        // Adding `ei` to an existing group `g`.
        if v0 == usize::MAX && v1 == usize::MAX || (group_of(vg, v0) is None && group_of(vg, v1) is None) {
            assert(nx.groups == gs.push(single));
            assert forall|x: usize| #[trigger] count_in_groups(nx.groups, x, nx.groups.len() as int) == count_in(eis.take(k), x) by {
                lemma_count_groups_prefix(gs, single, x, gs.len() as int);
            }
        } else {
            let g0 = group_of(vg, v0);
            let g1 = group_of(vg, v1);
            if g0 is Some && g1 is Some && g0 != g1 {
                let a = g0->Some_0;
                let b = g1->Some_0;
                let keep = if a < b { a } else { b };
                let merge = if a < b { b } else { a };
                let mid = gs.update(keep as int, gs[keep as int].push(ei) + gs[merge as int]);
                assert(nx.groups == mid.update(merge as int, Seq::empty()));
                assert forall|x: usize| #[trigger] count_in_groups(nx.groups, x, nx.groups.len() as int) == count_in(eis.take(k), x) by {
                    lemma_count_groups_update(gs, keep as int, gs[keep as int].push(ei) + gs[merge as int], x, gs.len() as int);
                    lemma_count_groups_update(mid, merge as int, Seq::empty(), x, gs.len() as int);
                    lemma_count_in_concat(gs[keep as int].push(ei), gs[merge as int], x);
                    assert(gs[keep as int].push(ei).drop_last() =~= gs[keep as int]);
                    assert(mid[merge as int] == gs[merge as int]);
                }
            } else {
                let g = if g0 is Some { g0->Some_0 } else { g1->Some_0 };
                assert(nx.groups == gs.update(g as int, gs[g as int].push(ei)));
                assert forall|x: usize| #[trigger] count_in_groups(nx.groups, x, nx.groups.len() as int) == count_in(eis.take(k), x) by {
                    lemma_count_groups_update(gs, g as int, gs[g as int].push(ei), x, gs.len() as int);
                    assert(gs[g as int].push(ei).drop_last() =~= gs[g as int]);
                }
            }
        }
        lemma_wires_invariant_vertices(edges, eis, k);
    }
}

proof fn lemma_wires_invariant_vertices(edges: Seq<ReconEdge>, eis: Seq<usize>, k: int)
    requires
        0 < k <= eis.len(),
        eis.len() <= usize::MAX,
        wires_invariant(edges, eis, k - 1, wires_after(edges, eis, k - 1)),
    ensures
        wires_after(edges, eis, k).groups.len() <= k,
        forall|v: usize| #[trigger] wires_after(edges, eis, k).vertex_group.contains_key(v) ==> wires_after(edges, eis, k).vertex_group[v]
            < wires_after(edges, eis, k).groups.len(),
        forall|p: int, side: int|
            0 <= p < k && 0 <= side < 2 && #[trigger] edges[eis[p] as int].vertex_indices@[side] != usize::MAX ==> {
                let v = edges[eis[p] as int].vertex_indices@[side];
                &&& wires_after(edges, eis, k).vertex_group.contains_key(v)
                &&& wires_after(edges, eis, k).groups[wires_after(edges, eis, k).vertex_group[v] as int].contains(eis[p])
            },
{
    let st = wires_after(edges, eis, k - 1);
    let ei = eis[k - 1];
    let nx = wires_after(edges, eis, k);
    assert(nx == wire_step(edges, st, ei));
    let gs = st.groups;
    let vg = st.vertex_group;
    let v0 = edges[ei as int].vertex_indices@[0];
    let v1 = edges[ei as int].vertex_indices@[1];
    let g0 = group_of(vg, v0);
    let g1 = group_of(vg, v1);
    assert forall|p: int, side: int|
        0 <= p < k && 0 <= side < 2 && #[trigger] edges[eis[p] as int].vertex_indices@[side] != usize::MAX implies {
            let v = edges[eis[p] as int].vertex_indices@[side];
            &&& nx.vertex_group.contains_key(v)
            &&& nx.groups[nx.vertex_group[v] as int].contains(eis[p])
        } by {
        let v = edges[eis[p] as int].vertex_indices@[side];
        if p < k - 1 {
            lemma_old_edge_kept(edges, eis, k, p, side);
        } else {
            assert(eis[p] == ei);
            assert(v == v0 || v == v1);
            if v0 == usize::MAX && v1 == usize::MAX {
                assert(false);
            } else if g0 is None && g1 is None {
                let gi = gs.len() as usize;
                assert(nx.vertex_group.contains_key(v) && nx.vertex_group[v] == gi);
                assert(nx.groups[gi as int] == seq![ei]);
                assert(nx.groups[gi as int][0] == ei);
            } else if g0 is Some && g1 is Some && g0 != g1 {
                let a = g0->Some_0;
                let b = g1->Some_0;
                let keep = if a < b { a } else { b };
                let merge = if a < b { b } else { a };
                assert(vg.contains_key(v));
                assert(vg[v] == a || vg[v] == b);
                assert(nx.vertex_group[v] == keep);
                assert(nx.groups[keep as int] == gs[keep as int].push(ei) + gs[merge as int]);
                assert(nx.groups[keep as int][gs[keep as int].len() as int] == ei);
            } else if g0 is Some && g1 is Some {
                let a = g0->Some_0;
                assert(nx.vertex_group == vg);
                assert(vg[v] == a);
                assert(nx.groups[a as int] == gs[a as int].push(ei));
                assert(nx.groups[a as int][gs[a as int].len() as int] == ei);
            } else {
                let gi = if g0 is Some { g0->Some_0 } else { g1->Some_0 };
                assert(nx.vertex_group.contains_key(v) && nx.vertex_group[v] == gi);
                assert(nx.groups[gi as int] == gs[gi as int].push(ei));
                assert(nx.groups[gi as int][gs[gi as int].len() as int] == ei);
            }
        }
    }
}

/// An edge added before the last step stays in the group of each of its vertices.
proof fn lemma_old_edge_kept(edges: Seq<ReconEdge>, eis: Seq<usize>, k: int, p: int, side: int)
    requires
        0 < k <= eis.len(),
        0 <= p < k - 1,
        0 <= side < 2,
        edges[eis[p] as int].vertex_indices@[side] != usize::MAX,
        wires_invariant(edges, eis, k - 1, wires_after(edges, eis, k - 1)),
    ensures
        ({
            let v = edges[eis[p] as int].vertex_indices@[side];
            let nx = wires_after(edges, eis, k);
            &&& nx.vertex_group.contains_key(v)
            &&& nx.groups[nx.vertex_group[v] as int].contains(eis[p])
        }),
{
    let st = wires_after(edges, eis, k - 1);
    let ei = eis[k - 1];
    let nx = wires_after(edges, eis, k);
    assert(nx == wire_step(edges, st, ei));
    let gs = st.groups;
    let vg = st.vertex_group;
    let v0 = edges[ei as int].vertex_indices@[0];
    let v1 = edges[ei as int].vertex_indices@[1];
    let g0 = group_of(vg, v0);
    let g1 = group_of(vg, v1);
    let v = edges[eis[p] as int].vertex_indices@[side];
    assert(vg.contains_key(v));
    let g = vg[v];
    assert(g < gs.len());
    assert(gs[g as int].contains(eis[p]));
    let q = choose|q: int| 0 <= q < gs[g as int].len() && gs[g as int][q] == eis[p];
    if v0 == usize::MAX && v1 == usize::MAX {
        assert(nx.vertex_group == vg);
        assert(nx.groups[g as int] == gs[g as int]);
    } else if g0 is None && g1 is None {
        assert(v != v0 && v != v1);
        assert(nx.vertex_group[v] == g);
        assert(nx.groups[g as int] == gs[g as int]);
    } else if g0 is Some && g1 is Some && g0 != g1 {
        let a = g0->Some_0;
        let b = g1->Some_0;
        let keep = if a < b { a } else { b };
        let merge = if a < b { b } else { a };
        assert(nx.vertex_group.contains_key(v));
        if g == merge {
            assert(nx.vertex_group[v] == keep);
            assert(nx.groups[keep as int] == gs[keep as int].push(ei) + gs[merge as int]);
            assert(nx.groups[keep as int][gs[keep as int].len() + 1 + q] == eis[p]);
        } else if g == keep {
            assert(nx.vertex_group[v] == keep);
            assert(nx.groups[keep as int] == gs[keep as int].push(ei) + gs[merge as int]);
            assert(nx.groups[keep as int][q] == eis[p]);
        } else {
            assert(nx.vertex_group[v] == g);
            assert(nx.groups[g as int] == gs[g as int]);
        }
    } else if g0 is Some && g1 is Some {
        let a = g0->Some_0;
        assert(nx.vertex_group == vg);
        if g == a {
            assert(nx.groups[a as int] == gs[a as int].push(ei));
            assert(nx.groups[a as int][q] == eis[p]);
        } else {
            assert(nx.groups[g as int] == gs[g as int]);
        }
    } else {
        let gi = if g0 is Some { g0->Some_0 } else { g1->Some_0 };
        let other = if g0 is Some { v1 } else { v0 };
        assert(v != other);
        assert(nx.vertex_group[v] == g);
        if g == gi {
            assert(nx.groups[gi as int] == gs[gi as int].push(ei));
            assert(nx.groups[gi as int][q] == eis[p]);
        } else {
            assert(nx.groups[g as int] == gs[g as int]);
        }
    }
}

/// The wires hold each edge of the face exactly as often as the face lists it.
pub proof fn lemma_wires_partition_edges(edges: Seq<ReconEdge>, eis: Seq<usize>)
    requires
        eis.len() <= usize::MAX,
    ensures
        forall|x: usize| #[trigger] count_in_groups(spec_wires(edges, eis), x, spec_wires(edges, eis).len() as int) == count_in(eis, x),
{
    lemma_wires_invariant(edges, eis, eis.len() as int);
    let gs = wires_after(edges, eis, eis.len() as int).groups;
    assert(eis.take(eis.len() as int) =~= eis);
    assert forall|x: usize| #[trigger] count_in_groups(spec_wires(edges, eis), x, spec_wires(edges, eis).len() as int) == count_in(eis, x) by {
        lemma_nonempty_count(gs, x, gs.len() as int);
    }
}

proof fn lemma_nonempty_count(gs: Seq<Seq<usize>>, x: usize, n: int)
    requires
        0 <= n <= gs.len(),
    ensures
        count_in_groups(nonempty_groups(gs, n), x, nonempty_groups(gs, n).len() as int) == count_in_groups(gs, x, n),
    decreases n,
{
    if n > 0 {
        lemma_nonempty_count(gs, x, n - 1);
        let ne = nonempty_groups(gs, n - 1);
        if gs[n - 1].len() > 0 {
            lemma_count_groups_prefix(ne, gs[n - 1], x, ne.len() as int);
        } else {
            assert(count_in(gs[n - 1], x) == 0);
        }
    }
}

/// Two edges of a face that share a vertex end up in the same wire.
pub proof fn lemma_wires_join_shared_vertices(edges: Seq<ReconEdge>, eis: Seq<usize>, p1: int, s1: int, p2: int, s2: int)
    requires
        eis.len() <= usize::MAX,
        0 <= p1 < eis.len(),
        0 <= p2 < eis.len(),
        0 <= s1 < 2,
        0 <= s2 < 2,
        edges[eis[p1] as int].vertex_indices@[s1] == edges[eis[p2] as int].vertex_indices@[s2],
        edges[eis[p1] as int].vertex_indices@[s1] != usize::MAX,
    ensures
        exists|w: int| 0 <= w < spec_wires(edges, eis).len() && (#[trigger] spec_wires(edges, eis)[w]).contains(eis[p1])
            && spec_wires(edges, eis)[w].contains(eis[p2]),
{
    let k = eis.len() as int;
    lemma_wires_invariant(edges, eis, k);
    let st = wires_after(edges, eis, k);
    let v = edges[eis[p1] as int].vertex_indices@[s1];
    assert(edges[eis[p1] as int].vertex_indices@[s1] != usize::MAX);
    assert(edges[eis[p2] as int].vertex_indices@[s2] != usize::MAX);
    let g = st.vertex_group[v] as int;
    assert(st.groups[g].contains(eis[p1]));
    assert(st.groups[g].contains(eis[p2]));
    lemma_nonempty_keeps(st.groups, g, st.groups.len() as int);
    let ne = nonempty_groups(st.groups, st.groups.len() as int);
    assert(ne == spec_wires(edges, eis));
    let w = choose|w: int| 0 <= w < ne.len() && #[trigger] ne[w] == st.groups[g];
    assert(spec_wires(edges, eis)[w].contains(eis[p1]) && spec_wires(edges, eis)[w].contains(eis[p2]));
}

proof fn lemma_nonempty_keeps(gs: Seq<Seq<usize>>, g: int, n: int)
    requires
        0 <= g < n <= gs.len(),
        gs[g].len() > 0,
    ensures
        exists|w: int| 0 <= w < nonempty_groups(gs, n).len() && #[trigger] nonempty_groups(gs, n)[w] == gs[g],
    decreases n,
{
    let ne = nonempty_groups(gs, n);
    if g == n - 1 {
        assert(ne[ne.len() - 1] == gs[g]);
    } else {
        lemma_nonempty_keeps(gs, g, n - 1);
        let ne0 = nonempty_groups(gs, n - 1);
        let w = choose|w: int| 0 <= w < ne0.len() && #[trigger] ne0[w] == gs[g];
        if gs[n - 1].len() > 0 {
            assert(ne[w] == ne0[w]);
        }
    }
}

/// Edges `x` and `y` share a vertex.
pub open spec fn share_vertex(edges: Seq<ReconEdge>, x: usize, y: usize) -> bool {
    exists|s1: int, s2: int|
        0 <= s1 < 2 && 0 <= s2 < 2 && #[trigger] edges[x as int].vertex_indices@[s1] != usize::MAX
            && edges[x as int].vertex_indices@[s1] == #[trigger] edges[y as int].vertex_indices@[s2]
}

/// `p` is a sequence of edges of `g`, each sharing a vertex with the next.
pub open spec fn is_vertex_path(edges: Seq<ReconEdge>, g: Seq<usize>, p: Seq<usize>) -> bool {
    &&& p.len() >= 1
    &&& forall|i: int| 0 <= i < p.len() ==> g.contains(#[trigger] p[i])
    &&& forall|i: int| 0 <= i < p.len() - 1 ==> #[trigger] share_vertex(edges, p[i], p[i + 1])
}

/// Edges `x` and `y` of `g` are connected within `g` through shared vertices.
pub open spec fn connected_in(edges: Seq<ReconEdge>, g: Seq<usize>, x: usize, y: usize) -> bool {
    exists|p: Seq<usize>| #[trigger] is_vertex_path(edges, g, p) && p[0] == x && p.last() == y
}

/// Any two edges of a group are connected within it.
pub open spec fn group_connected(edges: Seq<ReconEdge>, g: Seq<usize>) -> bool {
    forall|x: usize, y: usize| g.contains(x) && g.contains(y) ==> #[trigger] connected_in(edges, g, x, y)
}

/// Every recorded vertex is a vertex of an edge added so far, and each group is connected.
pub open spec fn wires_connected_invariant(edges: Seq<ReconEdge>, eis: Seq<usize>, k: int, st: WireState) -> bool {
    &&& forall|v: usize| #[trigger]
        st.vertex_group.contains_key(v) ==> v != usize::MAX && exists|p: int, side: int|
            0 <= p < k && 0 <= side < 2 && #[trigger] edges[eis[p] as int].vertex_indices@[side] == v
    &&& forall|g: int| 0 <= g < st.groups.len() ==> #[trigger] group_connected(edges, st.groups[g])
}

proof fn lemma_path_single(edges: Seq<ReconEdge>, g: Seq<usize>, x: usize)
    requires
        g.contains(x),
    ensures
        connected_in(edges, g, x, x),
{
    let p = seq![x];
    assert(is_vertex_path(edges, g, p));
}

proof fn lemma_path_join(edges: Seq<ReconEdge>, g: Seq<usize>, x: usize, a: usize, b: usize, y: usize)
    requires
        connected_in(edges, g, x, a),
        connected_in(edges, g, b, y),
        share_vertex(edges, a, b),
    ensures
        connected_in(edges, g, x, y),
{
    let p1 = choose|p: Seq<usize>| #[trigger] is_vertex_path(edges, g, p) && p[0] == x && p.last() == a;
    let p2 = choose|p: Seq<usize>| #[trigger] is_vertex_path(edges, g, p) && p[0] == b && p.last() == y;
    let p = p1 + p2;
    let n1 = p1.len() as int;
    assert forall|i: int| 0 <= i < p.len() implies g.contains(#[trigger] p[i]) by {
        if i < n1 {
            assert(p[i] == p1[i]);
        } else {
            assert(p[i] == p2[i - n1]);
        }
    }
    assert forall|i: int| 0 <= i < p.len() - 1 implies #[trigger] share_vertex(edges, p[i], p[i + 1]) by {
        if i < n1 - 1 {
            assert(p[i] == p1[i] && p[i + 1] == p1[i + 1]);
        } else if i == n1 - 1 {
            assert(p[i] == a && p[i + 1] == b);
        } else {
            assert(p[i] == p2[i - n1] && p[i + 1] == p2[i - n1 + 1]);
        }
    }
    assert(is_vertex_path(edges, g, p));
    assert(p[0] == x);
    assert(p.last() == p2.last());
}

proof fn lemma_path_lift(edges: Seq<ReconEdge>, g: Seq<usize>, g2: Seq<usize>, x: usize, y: usize)
    requires
        connected_in(edges, g, x, y),
        forall|z: usize| g.contains(z) ==> g2.contains(z),
    ensures
        connected_in(edges, g2, x, y),
{
    let p = choose|p: Seq<usize>| #[trigger] is_vertex_path(edges, g, p) && p[0] == x && p.last() == y;
    assert forall|i: int| 0 <= i < p.len() implies g2.contains(#[trigger] p[i]) by {
        assert(g.contains(p[i]));
    }
    assert(is_vertex_path(edges, g2, p));
}

proof fn lemma_share_symmetric(edges: Seq<ReconEdge>, x: usize, y: usize)
    requires
        share_vertex(edges, x, y),
    ensures
        share_vertex(edges, y, x),
{
    let (s1, s2) = choose|s1: int, s2: int|
        0 <= s1 < 2 && 0 <= s2 < 2 && #[trigger] edges[x as int].vertex_indices@[s1] != usize::MAX
            && edges[x as int].vertex_indices@[s1] == #[trigger] edges[y as int].vertex_indices@[s2];
    assert(edges[y as int].vertex_indices@[s2] != usize::MAX);
}

/// Joining `ei` to an old connected group through its edge `z`: every old edge reaches `ei`
/// and back within the new group.
proof fn lemma_hub_via(edges: Seq<ReconEdge>, old_g: Seq<usize>, newg: Seq<usize>, z: usize, ei: usize)
    requires
        group_connected(edges, old_g),
        old_g.contains(z),
        share_vertex(edges, z, ei),
        forall|u: usize| old_g.contains(u) ==> newg.contains(u),
        newg.contains(ei),
    ensures
        forall|u: usize| old_g.contains(u) ==> connected_in(edges, newg, u, ei) && connected_in(edges, newg, ei, u),
{
    lemma_share_symmetric(edges, z, ei);
    lemma_path_single(edges, newg, ei);
    assert forall|u: usize| old_g.contains(u) implies connected_in(edges, newg, u, ei) && connected_in(edges, newg, ei, u) by {
        assert(connected_in(edges, old_g, u, z));
        assert(connected_in(edges, old_g, z, u));
        lemma_path_lift(edges, old_g, newg, u, z);
        lemma_path_lift(edges, old_g, newg, z, u);
        lemma_path_join(edges, newg, u, z, ei, ei);
        lemma_path_join(edges, newg, ei, ei, z, u);
    }
}

/// A group whose every edge reaches `ei` and back is connected.
proof fn lemma_hub_all(edges: Seq<ReconEdge>, g: Seq<usize>, ei: usize)
    requires
        forall|u: usize| g.contains(u) ==> connected_in(edges, g, u, ei) && connected_in(edges, g, ei, u),
        share_vertex(edges, ei, ei),
    ensures
        group_connected(edges, g),
{
    assert forall|x: usize, y: usize| g.contains(x) && g.contains(y) implies #[trigger] connected_in(edges, g, x, y) by {
        lemma_path_join(edges, g, x, ei, ei, y);
    }
}

/// An edge with a vertex shares a vertex with itself.
proof fn lemma_share_self(edges: Seq<ReconEdge>, x: usize, side: int)
    requires
        0 <= side < 2,
        edges[x as int].vertex_indices@[side] != usize::MAX,
    ensures
        share_vertex(edges, x, x),
{
    assert(edges[x as int].vertex_indices@[side] == edges[x as int].vertex_indices@[side]);
}

/// A recorded vertex lies on an edge of its group, which shares that vertex with `ei`.
proof fn lemma_group_edge_at(edges: Seq<ReconEdge>, eis: Seq<usize>, k: int, v: usize, side: int) -> (z: usize)
    requires
        0 < k <= eis.len(),
        eis.len() <= usize::MAX,
        0 <= side < 2,
        wires_after(edges, eis, k - 1).vertex_group.contains_key(v),
        edges[eis[k - 1] as int].vertex_indices@[side] == v,
        wires_connected_invariant(edges, eis, k - 1, wires_after(edges, eis, k - 1)),
    ensures
        ({
            let st = wires_after(edges, eis, k - 1);
            &&& st.groups[st.vertex_group[v] as int].contains(z)
            &&& share_vertex(edges, z, eis[k - 1])
        }),
{
    let st = wires_after(edges, eis, k - 1);
    lemma_wires_invariant(edges, eis, k - 1);
    let (p, sd) = choose|p: int, sd: int| 0 <= p < k - 1 && 0 <= sd < 2 && #[trigger] edges[eis[p] as int].vertex_indices@[sd] == v;
    assert(v != usize::MAX);
    assert(st.groups[st.vertex_group[v] as int].contains(eis[p]));
    let z = eis[p];
    assert(edges[z as int].vertex_indices@[sd] == edges[eis[k - 1] as int].vertex_indices@[side]);
    z
}

#[verifier::rlimit(80)]
proof fn lemma_wires_connected_inv(edges: Seq<ReconEdge>, eis: Seq<usize>, k: int)
    requires
        0 <= k <= eis.len(),
        eis.len() <= usize::MAX,
    ensures
        wires_connected_invariant(edges, eis, k, wires_after(edges, eis, k)),
    decreases k,
{
    if k > 0 {
        lemma_wires_connected_inv(edges, eis, k - 1);
        lemma_wires_invariant(edges, eis, k - 1);
        let st = wires_after(edges, eis, k - 1);
        let ei = eis[k - 1];
        let nx = wires_after(edges, eis, k);
        assert(nx == wire_step(edges, st, ei));
        let gs = st.groups;
        let vg = st.vertex_group;
        let v0 = edges[ei as int].vertex_indices@[0];
        let v1 = edges[ei as int].vertex_indices@[1];
        let g0 = group_of(vg, v0);
        let g1 = group_of(vg, v1);
        // Recorded vertices.
        assert forall|v: usize| #[trigger] nx.vertex_group.contains_key(v) implies v != usize::MAX && exists|p: int, side: int|
            0 <= p < k && 0 <= side < 2 && #[trigger] edges[eis[p] as int].vertex_indices@[side] == v by {
            if vg.contains_key(v) {
                let (p, sd) = choose|p: int, sd: int| 0 <= p < k - 1 && 0 <= sd < 2 && #[trigger] edges[eis[p] as int].vertex_indices@[sd] == v;
                assert(edges[eis[p] as int].vertex_indices@[sd] == v);
            } else if v == v0 {
                assert(edges[eis[k - 1] as int].vertex_indices@[0] == v);
            } else {
                assert(v == v1);
                assert(edges[eis[k - 1] as int].vertex_indices@[1] == v);
            }
        }
        // Connected groups.
        if v0 == usize::MAX && v1 == usize::MAX || (g0 is None && g1 is None) {
            let single = seq![ei];
            assert(nx.groups == gs.push(single));
            assert forall|g: int| 0 <= g < nx.groups.len() implies #[trigger] group_connected(edges, nx.groups[g]) by {
                if g < gs.len() {
                    assert(nx.groups[g] == gs[g]);
                } else {
                    assert(nx.groups[g] == single);
                    assert forall|x: usize, y: usize| single.contains(x) && single.contains(y) implies #[trigger] connected_in(
                        edges,
                        single,
                        x,
                        y,
                    ) by {
                        assert(x == ei && y == ei);
                        lemma_path_single(edges, single, ei);
                    }
                }
            }
        } else if g0 is Some && g1 is Some && g0 != g1 {
            let a = g0->Some_0;
            let b = g1->Some_0;
            let keep = if a < b { a } else { b };
            let merge = if a < b { b } else { a };
            let kg = gs[keep as int];
            let mg = gs[merge as int];
            let newg = kg.push(ei) + mg;
            let mid = gs.update(keep as int, newg);
            assert(nx.groups == mid.update(merge as int, Seq::empty()));
            let za = lemma_group_edge_at(edges, eis, k, v0, 0);
            let zb = lemma_group_edge_at(edges, eis, k, v1, 1);
            assert forall|u: usize| kg.contains(u) implies newg.contains(u) by {
                let q = choose|q: int| 0 <= q < kg.len() && kg[q] == u;
                assert(newg[q] == u);
            }
            assert forall|u: usize| mg.contains(u) implies newg.contains(u) by {
                let q = choose|q: int| 0 <= q < mg.len() && mg[q] == u;
                assert(newg[kg.len() + 1 + q] == u);
            }
            assert(newg[kg.len() as int] == ei);
            assert(group_connected(edges, gs[a as int]));
            assert(group_connected(edges, gs[b as int]));
            lemma_hub_via(edges, gs[a as int], newg, za, ei);
            lemma_hub_via(edges, gs[b as int], newg, zb, ei);
            lemma_path_single(edges, newg, ei);
            assert forall|u: usize| newg.contains(u) implies connected_in(edges, newg, u, ei) && connected_in(edges, newg, ei, u) by {
                let q = choose|q: int| 0 <= q < newg.len() && newg[q] == u;
                if q < kg.len() {
                    assert(kg[q] == u);
                    assert(kg.contains(u));
                } else if q > kg.len() {
                    assert(mg[q - kg.len() - 1] == u);
                    assert(mg.contains(u));
                }
            }
            lemma_share_self(edges, ei, 0);
            lemma_hub_all(edges, newg, ei);
            assert forall|g: int| 0 <= g < nx.groups.len() implies #[trigger] group_connected(edges, nx.groups[g]) by {
                if g == merge {
                    assert(nx.groups[g] == Seq::<usize>::empty());
                    assert forall|x: usize, y: usize| Seq::<usize>::empty().contains(x) && Seq::<usize>::empty().contains(y) implies #[trigger] connected_in(
                        edges,
                        Seq::<usize>::empty(),
                        x,
                        y,
                    ) by {}
                } else if g == keep {
                    assert(nx.groups[g] == newg);
                } else {
                    assert(nx.groups[g] == gs[g]);
                }
            }
        } else {
            let g = if g0 is Some { g0->Some_0 } else { g1->Some_0 };
            let side: int = if g0 is Some { 0 } else { 1 };
            let v = if g0 is Some { v0 } else { v1 };
            let kg = gs[g as int];
            let newg = kg.push(ei);
            assert(nx.groups == gs.update(g as int, newg));
            let z = lemma_group_edge_at(edges, eis, k, v, side);
            assert forall|u: usize| kg.contains(u) implies newg.contains(u) by {
                let q = choose|q: int| 0 <= q < kg.len() && kg[q] == u;
                assert(newg[q] == u);
            }
            assert(newg[kg.len() as int] == ei);
            assert(group_connected(edges, gs[g as int]));
            lemma_hub_via(edges, kg, newg, z, ei);
            lemma_path_single(edges, newg, ei);
            assert forall|u: usize| newg.contains(u) implies connected_in(edges, newg, u, ei) && connected_in(edges, newg, ei, u) by {
                let q = choose|q: int| 0 <= q < newg.len() && newg[q] == u;
                if q < kg.len() {
                    assert(kg[q] == u);
                    assert(kg.contains(u));
                }
            }
            lemma_share_self(edges, ei, side);
            lemma_hub_all(edges, newg, ei);
            assert forall|h: int| 0 <= h < nx.groups.len() implies #[trigger] group_connected(edges, nx.groups[h]) by {
                if h != g {
                    assert(nx.groups[h] == gs[h]);
                }
            }
        }
    }
}

/// Every wire is one of the groups.
proof fn lemma_nonempty_from(gs: Seq<Seq<usize>>, n: int, w: int)
    requires
        0 <= n <= gs.len(),
        0 <= w < nonempty_groups(gs, n).len(),
    ensures
        exists|g: int| 0 <= g < n && #[trigger] gs[g] == nonempty_groups(gs, n)[w],
    decreases n,
{
    let ne0 = nonempty_groups(gs, n - 1);
    if w < ne0.len() {
        lemma_nonempty_from(gs, n - 1, w);
        let g = choose|g: int| 0 <= g < n - 1 && #[trigger] gs[g] == ne0[w];
        assert(nonempty_groups(gs, n)[w] == ne0[w]);
    } else {
        assert(nonempty_groups(gs, n)[w] == gs[n - 1]);
    }
}

/// Edges in one wire are connected through shared vertices: between any two edges of a
/// wire runs a sequence of edges of that wire, each sharing a vertex with the next.
pub proof fn lemma_wires_connected(edges: Seq<ReconEdge>, eis: Seq<usize>, w: int, x: usize, y: usize)
    requires
        eis.len() <= usize::MAX,
        0 <= w < spec_wires(edges, eis).len(),
        spec_wires(edges, eis)[w].contains(x),
        spec_wires(edges, eis)[w].contains(y),
    ensures
        connected_in(edges, spec_wires(edges, eis)[w], x, y),
{
    let k = eis.len() as int;
    lemma_wires_connected_inv(edges, eis, k);
    let gs = wires_after(edges, eis, k).groups;
    lemma_nonempty_from(gs, gs.len() as int, w);
    let g = choose|g: int| 0 <= g < gs.len() && #[trigger] gs[g] == nonempty_groups(gs, gs.len() as int)[w];
    assert(group_connected(edges, gs[g]));
}

} // verus!
