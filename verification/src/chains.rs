//! Chaining the boundary edges between two surfaces into contiguous vertex sequences.
//!
//! Walks start at the endpoints (vertices on exactly one boundary edge) in ascending order,
//! then at every vertex in ascending order. A walk repeatedly follows the first not yet
//! visited edge of the current vertex (neighbors in the order the edges are listed), and
//! stops when there is none or when it returns to its start, which then is not repeated.

use vstd::prelude::*;
use crate::adjacency::{UndirectedEdge, spec_edge, strictly_increasing, insert_sorted, lemma_ascending_unique};

verus! {

/// Neighbors of `v` along the first `n` edges, in edge order (an edge `(a, b)` lists `b`
/// for `a` and then `a` for `b`).
pub open spec fn adj_list(edges: Seq<UndirectedEdge>, v: usize, n: int) -> Seq<usize>
    decreases n,
{
    if n <= 0 {
        Seq::empty()
    } else {
        let e = edges[n - 1];
        let s1 = if e.0 == v {
            adj_list(edges, v, n - 1).push(e.1)
        } else {
            adj_list(edges, v, n - 1)
        };
        if e.1 == v {
            s1.push(e.0)
        } else {
            s1
        }
    }
}

/// All neighbors of `v`.
pub open spec fn neighbors_of(edges: Seq<UndirectedEdge>, v: usize) -> Seq<usize> {
    adj_list(edges, v, edges.len() as int)
}

/// The first neighbor of `cur`, from position `k` on, whose edge has not been visited.
pub open spec fn first_unvisited_from(nbrs: Seq<usize>, cur: usize, visited: Seq<UndirectedEdge>, k: int) -> Option<usize>
    decreases nbrs.len() - k,
{
    if k < 0 || k >= nbrs.len() {
        None
    } else if !visited.contains(spec_edge(cur, nbrs[k])) {
        Some(nbrs[k])
    } else {
        first_unvisited_from(nbrs, cur, visited, k + 1)
    }
}

/// The first neighbor of `cur` whose edge has not been visited.
pub open spec fn first_unvisited(edges: Seq<UndirectedEdge>, cur: usize, visited: Seq<UndirectedEdge>) -> Option<usize> {
    first_unvisited_from(neighbors_of(edges, cur), cur, visited, 0)
}

/// The state of a walk.
pub struct WalkState {
    pub chain: Seq<usize>,
    pub current: usize,
    pub visited: Seq<UndirectedEdge>,
    pub done: bool,
}

/// One step of the walk from `start`.
pub open spec fn walk_step(edges: Seq<UndirectedEdge>, start: usize, st: WalkState) -> WalkState {
    if st.done {
        st
    } else {
        match first_unvisited(edges, st.current, st.visited) {
            None => WalkState { done: true, ..st },
            Some(n) => {
                let vis = st.visited.push(spec_edge(st.current, n));
                if n == start && st.chain.len() > 1 {
                    WalkState { visited: vis, done: true, ..st }
                } else {
                    WalkState { chain: st.chain.push(n), current: n, visited: vis, done: false }
                }
            },
        }
    }
}

/// `m` steps of the walk.
pub open spec fn walk_steps(edges: Seq<UndirectedEdge>, start: usize, st: WalkState, m: nat) -> WalkState
    decreases m,
{
    if m == 0 {
        st
    } else {
        walk_steps(edges, start, walk_step(edges, start, st), (m - 1) as nat)
    }
}

/// The walk from `start` given the edges visited before it.
pub open spec fn walk_init(start: usize, visited: Seq<UndirectedEdge>) -> WalkState {
    WalkState { chain: seq![start], current: start, visited, done: false }
}

/// The finished walk from `start` (the state in which the walk stops).
pub open spec fn walk_result(edges: Seq<UndirectedEdge>, start: usize, visited: Seq<UndirectedEdge>) -> WalkState {
    let m = choose|m: nat| walk_steps(edges, start, walk_init(start, visited), m).done;
    walk_steps(edges, start, walk_init(start, visited), m)
}

/// The chains and visited edges after processing the first `k` start vertices.
pub open spec fn chains_after(edges: Seq<UndirectedEdge>, starts: Seq<usize>, k: int) -> (Seq<Seq<usize>>, Seq<UndirectedEdge>)
    decreases k,
{
    if k <= 0 {
        (Seq::empty(), Seq::empty())
    } else {
        let (chains, visited) = chains_after(edges, starts, k - 1);
        let start = starts[k - 1];
        if first_unvisited(edges, start, visited) is None {
            (chains, visited)
        } else {
            let w = walk_result(edges, start, visited);
            (if w.chain.len() >= 2 {
                chains.push(w.chain)
            } else {
                chains
            }, w.visited)
        }
    }
}

/// Edge `e` has `v` as one of its ends.
pub open spec fn touches(e: UndirectedEdge, v: usize) -> bool {
    e.0 == v || e.1 == v
}

/// Vertex `v` is an endpoint of one of the first `n` edges.
pub open spec fn is_endpoint_upto(edges: Seq<UndirectedEdge>, v: usize, n: int) -> bool {
    exists|i: int| 0 <= i < n && #[trigger] touches(edges[i], v)
}

/// Vertex `v` is an endpoint of some edge.
pub open spec fn is_endpoint(edges: Seq<UndirectedEdge>, v: usize) -> bool {
    is_endpoint_upto(edges, v, edges.len() as int)
}

/// The endpoints in ascending order.
pub open spec fn sorted_endpoints(edges: Seq<UndirectedEdge>) -> Seq<usize> {
    choose|l: Seq<usize>| strictly_increasing(l) && forall|v: usize| #[trigger] l.contains(v) <==> is_endpoint(edges, v)
}

/// The vertices of `l` with exactly one neighbor, in order.
pub open spec fn degree_one(edges: Seq<UndirectedEdge>, l: Seq<usize>, n: int) -> Seq<usize>
    decreases n,
{
    if n <= 0 {
        Seq::empty()
    } else if neighbors_of(edges, l[n - 1]).len() == 1 {
        degree_one(edges, l, n - 1).push(l[n - 1])
    } else {
        degree_one(edges, l, n - 1)
    }
}

/// Walk starts: endpoints of degree one ascending, then all endpoints ascending.
pub open spec fn walk_starts(edges: Seq<UndirectedEdge>) -> Seq<usize> {
    let l = sorted_endpoints(edges);
    degree_one(edges, l, l.len() as int) + l
}

/// The boundary chains of a list of edges.
pub open spec fn spec_chain_boundary_edges(edges: Seq<UndirectedEdge>) -> Seq<Seq<usize>> {
    chains_after(edges, walk_starts(edges), walk_starts(edges).len() as int).0
}

proof fn lemma_walk_steps_add(edges: Seq<UndirectedEdge>, start: usize, st: WalkState, a: nat, b: nat)
    ensures
        walk_steps(edges, start, st, a + b) == walk_steps(edges, start, walk_steps(edges, start, st, a), b),
    decreases a,
{
    if a > 0 {
        lemma_walk_steps_add(edges, start, walk_step(edges, start, st), (a - 1) as nat, b);
        assert((a + b - 1) as nat == ((a - 1) as nat + b));
    }
}

proof fn lemma_walk_done_stays(edges: Seq<UndirectedEdge>, start: usize, st: WalkState, m: nat)
    requires
        st.done,
    ensures
        walk_steps(edges, start, st, m) == st,
    decreases m,
{
    if m > 0 {
        lemma_walk_done_stays(edges, start, st, (m - 1) as nat);
    }
}

/// A finished walk is the walk's result.
proof fn lemma_walk_result_is(edges: Seq<UndirectedEdge>, start: usize, visited: Seq<UndirectedEdge>, m: nat)
    requires
        walk_steps(edges, start, walk_init(start, visited), m).done,
    ensures
        walk_result(edges, start, visited) == walk_steps(edges, start, walk_init(start, visited), m),
{
    let init = walk_init(start, visited);
    let m2 = choose|m: nat| walk_steps(edges, start, init, m).done;
    assert(walk_steps(edges, start, init, m2).done);
    if m2 <= m {
        lemma_walk_steps_add(edges, start, init, m2, (m - m2) as nat);
        lemma_walk_done_stays(edges, start, walk_steps(edges, start, init, m2), (m - m2) as nat);
    } else {
        lemma_walk_steps_add(edges, start, init, m, (m2 - m) as nat);
        lemma_walk_done_stays(edges, start, walk_steps(edges, start, init, m), (m2 - m) as nat);
    }
}

/// Number of edges (by position) whose undirected edge has not been visited.
spec fn unvisited_count(edges: Seq<UndirectedEdge>, visited: Seq<UndirectedEdge>, n: int) -> nat
    decreases n,
{
    if n <= 0 {
        0
    } else {
        unvisited_count(edges, visited, n - 1) + if !visited.contains(spec_edge(edges[n - 1].0, edges[n - 1].1)) {
            1nat
        } else {
            0nat
        }
    }
}

proof fn lemma_unvisited_count_push(edges: Seq<UndirectedEdge>, visited: Seq<UndirectedEdge>, x: UndirectedEdge, n: int, j: int)
    requires
        0 <= j < n <= edges.len(),
        spec_edge(edges[j].0, edges[j].1) == x,
        !visited.contains(x),
    ensures
        unvisited_count(edges, visited.push(x), n) < unvisited_count(edges, visited, n),
    decreases n,
{
    lemma_unvisited_count_push_le(edges, visited, x, n - 1);
    if j < n - 1 {
        lemma_unvisited_count_push(edges, visited, x, n - 1, j);
    }
    let e = spec_edge(edges[n - 1].0, edges[n - 1].1);
    if visited.push(x).contains(e) && !visited.contains(e) {
    } else if visited.push(x).contains(e) {
    } else {
        assert(!visited.contains(e)) by {
            if visited.contains(e) {
                let q = choose|q: int| 0 <= q < visited.len() && visited[q] == e;
                assert(visited.push(x)[q] == e);
            }
        }
    }
    assert forall|y: UndirectedEdge| visited.contains(y) implies visited.push(x).contains(y) by {
        let q = choose|q: int| 0 <= q < visited.len() && visited[q] == y;
        assert(visited.push(x)[q] == y);
    }
    assert(visited.push(x)[visited.len() as int] == x);
}

proof fn lemma_unvisited_count_push_le(edges: Seq<UndirectedEdge>, visited: Seq<UndirectedEdge>, x: UndirectedEdge, n: int)
    requires
        n <= edges.len(),
    ensures
        unvisited_count(edges, visited.push(x), n) <= unvisited_count(edges, visited, n),
    decreases n,
{
    if n > 0 {
        lemma_unvisited_count_push_le(edges, visited, x, n - 1);
        let e = spec_edge(edges[n - 1].0, edges[n - 1].1);
        if visited.contains(e) {
            let q = choose|q: int| 0 <= q < visited.len() && visited[q] == e;
            assert(visited.push(x)[q] == e);
        }
    }
}

/// A neighbor of `v` is joined to `v` by one of the first `n` edges.
proof fn lemma_adj_list_edge(edges: Seq<UndirectedEdge>, v: usize, n: int, k: int)
    requires
        0 <= n <= edges.len(),
        0 <= k < adj_list(edges, v, n).len(),
    ensures
        exists|j: int| 0 <= j < n && spec_edge(edges[j].0, edges[j].1) == spec_edge(v, adj_list(edges, v, n)[k]),
    decreases n,
{
    let e = edges[n - 1];
    let p = adj_list(edges, v, n - 1);
    let s1 = if e.0 == v { p.push(e.1) } else { p };
    if k < p.len() {
        lemma_adj_list_edge(edges, v, n - 1, k);
        assert(adj_list(edges, v, n)[k] == p[k]);
    } else if e.0 == v && k == p.len() {
        assert(adj_list(edges, v, n)[k] == e.1);
        assert(spec_edge(e.0, e.1) == spec_edge(v, e.1));
    } else {
        assert(adj_list(edges, v, n)[k] == e.0);
        assert(spec_edge(e.0, e.1) == spec_edge(v, e.0));
    }
}

/// The position of `v` in the ascending list `verts`.
fn find_position(verts: &Vec<usize>, v: usize) -> (r: usize)
    requires
        verts@.contains(v),
    ensures
        r < verts.len(),
        verts@[r as int] == v,
{
    let mut i: usize = 0;
    while i < verts.len()
        invariant
            i <= verts.len(),
            verts@.contains(v),
            forall|j: int| 0 <= j < i ==> verts@[j] != v,
        decreases verts.len() - i,
    {
        if verts[i] == v {
            return i;
        }
        i += 1;
    }
    proof {
        let q = choose|q: int| 0 <= q < verts.len() && verts@[q] == v;
        assert(verts@[q] != v);
    }
    0
}

/// The neighbors of `v`, in edge order.
fn neighbor_list(edges: &Vec<UndirectedEdge>, v: usize) -> (r: Vec<usize>)
    ensures
        r@ == neighbors_of(edges@, v),
{
    let mut out: Vec<usize> = Vec::new();
    let mut i: usize = 0;
    while i < edges.len()
        invariant
            i <= edges.len(),
            out@ == adj_list(edges@, v, i as int),
        decreases edges.len() - i,
    {
        let e = edges[i];
        if e.0 == v {
            out.push(e.1);
        }
        if e.1 == v {
            out.push(e.0);
        }
        i += 1;
    }
    out
}

fn contains_edge(visited: &Vec<UndirectedEdge>, e: UndirectedEdge) -> (r: bool)
    ensures
        r == visited@.contains(e),
{
    let mut i: usize = 0;
    while i < visited.len()
        invariant
            i <= visited.len(),
            forall|j: int| 0 <= j < i ==> visited@[j] != e,
        decreases visited.len() - i,
    {
        if visited[i] == e {
            return true;
        }
        i += 1;
    }
    false
}

/// The first neighbor in `nbrs` of `cur` whose edge is not visited.
fn first_unvisited_exec(nbrs: &Vec<usize>, cur: usize, visited: &Vec<UndirectedEdge>) -> (r: Option<usize>)
    ensures
        r == first_unvisited_from(nbrs@, cur, visited@, 0),
{
    let mut k: usize = 0;
    while k < nbrs.len()
        invariant
            k <= nbrs.len(),
            first_unvisited_from(nbrs@, cur, visited@, 0) == first_unvisited_from(nbrs@, cur, visited@, k as int),
        decreases nbrs.len() - k,
    {
        let n = nbrs[k];
        if !contains_edge(visited, UndirectedEdge::new(cur, n)) {
            return Some(n);
        }
        k += 1;
    }
    None
}

/// The first neighbor found by `first_unvisited_from` is an unvisited neighbor.
proof fn lemma_first_unvisited_found(nbrs: Seq<usize>, cur: usize, visited: Seq<UndirectedEdge>, k: int)
    requires
        0 <= k,
        first_unvisited_from(nbrs, cur, visited, k) is Some,
    ensures
        exists|q: int|
            k <= q < nbrs.len() && nbrs[q] == first_unvisited_from(nbrs, cur, visited, k)->Some_0 && !visited.contains(
                spec_edge(cur, nbrs[q]),
            ),
    decreases nbrs.len() - k,
{
    if k < nbrs.len() && visited.contains(spec_edge(cur, nbrs[k])) {
        lemma_first_unvisited_found(nbrs, cur, visited, k + 1);
    }
}

/// Chain boundary edges into contiguous sequences of mesh vertices.
///
/// Every chain has at least two vertices, and consecutive vertices are joined by one of the
/// edges. No edge is the link between consecutive vertices at two places among the chains, and
/// every vertex of an edge lies on some chain. An edge is not necessarily a link: one whose
/// two ends were both reached by other walks (a bridge between two closed loops) is left
/// out of every chain.
pub fn chain_boundary_edges(edges: &Vec<UndirectedEdge>) -> (r: Vec<Vec<usize>>)
    ensures
        r@.len() == spec_chain_boundary_edges(edges@).len(),
        forall|c: int| 0 <= c < r.len() ==> (#[trigger] r@[c])@ == spec_chain_boundary_edges(edges@)[c],
        forall|c: int|
            0 <= c < spec_chain_boundary_edges(edges@).len() ==> (#[trigger] spec_chain_boundary_edges(edges@)[c]).len() >= 2,
        forall|c: int|
            0 <= c < spec_chain_boundary_edges(edges@).len() ==> is_edge_path(edges@, #[trigger] spec_chain_boundary_edges(edges@)[c]),
        links_distinct(spec_chain_boundary_edges(edges@)),
        forall|v: usize| is_endpoint(edges@, v) ==> on_some_chain(spec_chain_boundary_edges(edges@), v),
{
    let ghost es = edges@;
    // Endpoints, ascending.
    let mut verts: Vec<usize> = Vec::new();
    let mut i: usize = 0;
    while i < edges.len()
        invariant
            i <= edges.len(),
            es == edges@,
            strictly_increasing(verts@),
            forall|v: usize| #[trigger] verts@.contains(v) <==> is_endpoint_upto(es, v, i as int),
        decreases edges.len() - i,
    {
        let e = edges[i];
        insert_sorted(&mut verts, e.0);
        insert_sorted(&mut verts, e.1);
        proof {
            assert forall|v: usize| #[trigger] verts@.contains(v) <==> is_endpoint_upto(es, v, i + 1) by {
                if is_endpoint_upto(es, v, i + 1) {
                    let j = choose|j: int| 0 <= j < i + 1 && #[trigger] touches(es[j], v);
                    if j < i {
                        assert(is_endpoint_upto(es, v, i as int));
                    }
                }
                if is_endpoint_upto(es, v, i as int) {
                    let j = choose|j: int| 0 <= j < i && #[trigger] touches(es[j], v);
                    assert(touches(es[j], v));
                }
                if v == e.0 || v == e.1 {
                    assert(touches(es[i as int], v));
                }
            }
        }
        i += 1;
    }
    proof {
        lemma_sorted_endpoints_is(es, verts@);
        lemma_degree_one_in(es, verts@, verts.len() as int);
    }
    // Neighbor lists per endpoint.
    let mut adjs: Vec<Vec<usize>> = Vec::new();
    let mut p: usize = 0;
    while p < verts.len()
        invariant
            p <= verts.len(),
            es == edges@,
            adjs.len() == p,
            forall|q: int| 0 <= q < p ==> (#[trigger] adjs@[q])@ == neighbors_of(es, verts@[q]),
        decreases verts.len() - p,
    {
        adjs.push(neighbor_list(edges, verts[p]));
        p += 1;
    }
    // Start order: degree-one endpoints, then all endpoints.
    let mut starts: Vec<usize> = Vec::new();
    let mut p: usize = 0;
    while p < verts.len()
        invariant
            p <= verts.len(),
            adjs.len() == verts.len(),
            forall|q: int| 0 <= q < verts.len() ==> (#[trigger] adjs@[q])@ == neighbors_of(es, verts@[q]),
            starts@ == degree_one(es, verts@, p as int),
        decreases verts.len() - p,
    {
        if adjs[p].len() == 1 {
            starts.push(verts[p]);
        }
        p += 1;
    }
    let mut p: usize = 0;
    let ghost ones = starts@;
    while p < verts.len()
        invariant
            p <= verts.len(),
            starts@ == ones + verts@.take(p as int),
        decreases verts.len() - p,
    {
        starts.push(verts[p]);
        p += 1;
        proof {
            assert(verts@.take(p as int) == verts@.take(p - 1 as int).push(verts@[p - 1]));
        }
    }
    proof {
        assert(verts@.take(verts.len() as int) == verts@);
        assert(starts@ == walk_starts(es));
        assert forall|q: int| 0 <= q < starts.len() implies verts@.contains(#[trigger] starts@[q]) by {
            if q < ones.len() {
                assert(starts@[q] == ones[q]);
            } else {
                assert(starts@[q] == verts@[q - ones.len()]);
            }
        }
    }
    // Walks.
    let mut chains: Vec<Vec<usize>> = Vec::new();
    let mut visited: Vec<UndirectedEdge> = Vec::new();
    let mut s: usize = 0;
    while s < starts.len()
        invariant
            s <= starts.len(),
            es == edges@,
            starts@ == walk_starts(es),
            strictly_increasing(verts@),
            forall|v: usize| #[trigger] verts@.contains(v) <==> is_endpoint(es, v),
            adjs.len() == verts.len(),
            forall|q: int| 0 <= q < verts.len() ==> (#[trigger] adjs@[q])@ == neighbors_of(es, verts@[q]),
            forall|q: int| 0 <= q < starts.len() ==> verts@.contains(#[trigger] starts@[q]),
            chains.len() == chains_after(es, starts@, s as int).0.len(),
            forall|c: int| 0 <= c < chains.len() ==> (#[trigger] chains@[c])@ == chains_after(es, starts@, s as int).0[c],
            visited@ == chains_after(es, starts@, s as int).1,
        decreases starts.len() - s,
    {
        let start = starts[s];
        let ghost before = chains_after(es, starts@, s as int);
        let sp = find_position(&verts, start);
        let first = first_unvisited_exec(&adjs[sp], start, &visited);
        if first.is_some() {
            let w = walk(edges, &verts, &adjs, start, visited);
            visited = w.visited;
            if w.chain.len() >= 2 {
                let ghost old_chains = chains@;
                chains.push(w.chain);
                proof {
                    assert forall|c: int| 0 <= c < chains.len() implies (#[trigger] chains@[c])@ == chains_after(es, starts@, s + 1 as int).0[c] by {
                        if c < old_chains.len() {
                            assert(chains@[c] == old_chains[c]);
                        }
                    }
                }
            }
        }
        s += 1;
    }
    proof {
        assert forall|q: int| 0 <= q < starts.len() implies is_endpoint(es, #[trigger] starts@[q]) by {
            assert(verts@.contains(starts@[q]));
        }
        lemma_chains_after_links(es, starts@, starts.len() as int);
        lemma_chains_have_two_vertices(es);
        lemma_chains_are_edge_paths(es);
        lemma_sorted_endpoints_is(es, verts@);
        assert forall|v: usize| is_endpoint(es, v) implies on_some_chain(spec_chain_boundary_edges(es), v) by {
            assert(verts@.contains(v));
            let p = choose|p: int| 0 <= p < verts.len() && verts@[p] == v;
            let d = degree_one(es, verts@, verts.len() as int);
            assert(starts@[d.len() + p] == v);
        }
    }
    chains
}

/// The degree-one vertices of `l` are vertices of `l`.
proof fn lemma_degree_one_in(edges: Seq<UndirectedEdge>, l: Seq<usize>, n: int)
    requires
        0 <= n <= l.len(),
    ensures
        forall|q: int| 0 <= q < degree_one(edges, l, n).len() ==> l.contains(#[trigger] degree_one(edges, l, n)[q]),
    decreases n,
{
    if n > 0 {
        lemma_degree_one_in(edges, l, n - 1);
        let p = degree_one(edges, l, n - 1);
        assert forall|q: int| 0 <= q < degree_one(edges, l, n).len() implies l.contains(#[trigger] degree_one(edges, l, n)[q]) by {
            if q < p.len() {
                assert(degree_one(edges, l, n)[q] == p[q]);
            } else {
                assert(degree_one(edges, l, n)[q] == l[n - 1]);
            }
        }
    }
}

/// The ascending endpoint list is the one `sorted_endpoints` chooses.
proof fn lemma_sorted_endpoints_is(edges: Seq<UndirectedEdge>, l: Seq<usize>)
    requires
        strictly_increasing(l),
        forall|v: usize| #[trigger] l.contains(v) <==> is_endpoint(edges, v),
    ensures
        sorted_endpoints(edges) == l,
{
    let c = sorted_endpoints(edges);
    assert(strictly_increasing(c) && forall|v: usize| #[trigger] c.contains(v) <==> is_endpoint(edges, v));
    lemma_ascending_unique(c, l);
}

/// The result of one walk.
struct Walk {
    chain: Vec<usize>,
    visited: Vec<UndirectedEdge>,
}

/// Walk from `start`, following first unvisited edges.
fn walk(
    edges: &Vec<UndirectedEdge>,
    verts: &Vec<usize>,
    adjs: &Vec<Vec<usize>>,
    start: usize,
    visited0: Vec<UndirectedEdge>,
) -> (r: Walk)
    requires
        forall|v: usize| #[trigger] verts@.contains(v) <==> is_endpoint(edges@, v),
        adjs.len() == verts.len(),
        forall|q: int| 0 <= q < verts.len() ==> (#[trigger] adjs@[q])@ == neighbors_of(edges@, verts@[q]),
        verts@.contains(start),
    ensures
        ({
            let w = walk_result(edges@, start, visited0@);
            r.chain@ == w.chain && r.visited@ == w.visited
        }),
{
    let ghost es = edges@;
    let ghost init = walk_init(start, visited0@);
    let mut chain: Vec<usize> = Vec::new();
    chain.push(start);
    let mut current = start;
    let mut visited = visited0;
    let mut done = false;
    let ghost mut m: nat = 0;
    while !done
        invariant
            es == edges@,
            forall|v: usize| #[trigger] verts@.contains(v) <==> is_endpoint(es, v),
            adjs.len() == verts.len(),
            forall|q: int| 0 <= q < verts.len() ==> (#[trigger] adjs@[q])@ == neighbors_of(es, verts@[q]),
            verts@.contains(current),
            walk_steps(es, start, init, m) == (WalkState { chain: chain@, current, visited: visited@, done }),
        decreases unvisited_count(es, visited@, es.len() as int) + if done { 0int } else { 1int },
    {
        let ghost st = walk_steps(es, start, init, m);
        let cp = find_position(verts, current);
        let next = first_unvisited_exec(&adjs[cp], current, &visited);
        proof {
            lemma_walk_steps_add(es, start, init, m, 1);
            reveal_with_fuel(walk_steps, 2);
            assert(walk_steps(es, start, init, m + 1) == walk_step(es, start, st));
            assert(adjs@[cp as int]@ == neighbors_of(es, current));
        }
        match next {
            None => {
                done = true;
            },
            Some(n) => {
                let e = UndirectedEdge::new(current, n);
                proof {
                    lemma_first_unvisited_found(neighbors_of(es, current), current, visited@, 0);
                    let q = choose|q: int|
                        0 <= q < neighbors_of(es, current).len() && neighbors_of(es, current)[q] == n && !visited@.contains(
                            spec_edge(current, neighbors_of(es, current)[q]),
                        );
                    lemma_adj_list_edge(es, current, es.len() as int, q);
                    let j = choose|j: int| 0 <= j < es.len() && spec_edge(es[j].0, es[j].1) == spec_edge(current, n);
                    lemma_unvisited_count_push(es, visited@, e, es.len() as int, j);
                    assert(touches(es[j], n));
                    assert(is_endpoint(es, n));
                }
                visited.push(e);
                if n == start && chain.len() > 1 {
                    done = true;
                } else {
                    chain.push(n);
                    current = n;
                }
            },
        }
        proof {
            m = m + 1;
        }
    }
    proof {
        lemma_walk_result_is(es, start, visited0@, m);
    }
    Walk { chain, visited }
}

/// Every chain has at least two vertices.
pub proof fn lemma_chains_have_two_vertices(edges: Seq<UndirectedEdge>)
    ensures
        forall|c: int|
            0 <= c < spec_chain_boundary_edges(edges).len() ==> (#[trigger] spec_chain_boundary_edges(edges)[c]).len() >= 2,
{
    let starts = walk_starts(edges);
    lemma_chains_after_long(edges, starts, starts.len() as int);
}

proof fn lemma_chains_after_long(edges: Seq<UndirectedEdge>, starts: Seq<usize>, k: int)
    ensures
        forall|c: int| 0 <= c < chains_after(edges, starts, k).0.len() ==> (#[trigger] chains_after(edges, starts, k).0[c]).len() >= 2,
    decreases k,
{
    if k > 0 {
        lemma_chains_after_long(edges, starts, k - 1);
        let (chains, visited) = chains_after(edges, starts, k - 1);
        let start = starts[k - 1];
        if first_unvisited(edges, start, visited) is Some {
            let w = walk_result(edges, start, visited);
            if w.chain.len() >= 2 {
                assert forall|c: int| 0 <= c < chains.push(w.chain).len() implies (#[trigger] chains.push(w.chain)[c]).len() >= 2 by {
                    if c < chains.len() {
                        assert(chains.push(w.chain)[c] == chains[c]);
                    }
                }
            }
        }
    }
}

/// `e` is one of the edges.
pub open spec fn is_input_edge(edges: Seq<UndirectedEdge>, e: UndirectedEdge) -> bool {
    exists|j: int| 0 <= j < edges.len() && spec_edge(edges[j].0, edges[j].1) == e
}

/// Vertices `i` and `i + 1` of `c` are joined by one of the edges.
pub open spec fn step_joined(edges: Seq<UndirectedEdge>, c: Seq<usize>, i: int) -> bool {
    is_input_edge(edges, spec_edge(c[i], c[i + 1]))
}

/// Consecutive vertices of `c` are joined by edges.
pub open spec fn is_edge_path(edges: Seq<UndirectedEdge>, c: Seq<usize>) -> bool {
    forall|i: int| 0 <= i < c.len() - 1 ==> #[trigger] step_joined(edges, c, i)
}

proof fn lemma_walk_path(edges: Seq<UndirectedEdge>, start: usize, visited: Seq<UndirectedEdge>, m: nat)
    ensures
        ({
            let st = walk_steps(edges, start, walk_init(start, visited), m);
            &&& st.chain.len() >= 1
            &&& st.chain.last() == st.current
            &&& is_edge_path(edges, st.chain)
        }),
    decreases m,
{
    let init = walk_init(start, visited);
    if m == 0 {
        assert(init.chain.last() == start);
    } else {
        lemma_walk_path(edges, start, visited, (m - 1) as nat);
        let prev = walk_steps(edges, start, init, (m - 1) as nat);
        lemma_walk_steps_add(edges, start, init, (m - 1) as nat, 1);
        assert((m - 1) as nat + 1 == m);
        reveal_with_fuel(walk_steps, 2);
        assert(walk_steps(edges, start, init, m) == walk_step(edges, start, prev));
        let st = walk_step(edges, start, prev);
        if !prev.done {
            match first_unvisited(edges, prev.current, prev.visited) {
                None => {},
                Some(n) => {
                    if !(n == start && prev.chain.len() > 1) {
                        let nbrs = neighbors_of(edges, prev.current);
                        lemma_first_unvisited_found(nbrs, prev.current, prev.visited, 0);
                        let q = choose|q: int| 0 <= q < nbrs.len() && nbrs[q] == n && !prev.visited.contains(spec_edge(prev.current, nbrs[q]));
                        lemma_adj_list_edge(edges, prev.current, edges.len() as int, q);
                        assert(st.chain == prev.chain.push(n));
                        assert forall|i: int| 0 <= i < st.chain.len() - 1 implies #[trigger] step_joined(edges, st.chain, i) by {
                            if i < prev.chain.len() - 1 {
                                assert(step_joined(edges, prev.chain, i));
                                assert(st.chain[i] == prev.chain[i] && st.chain[i + 1] == prev.chain[i + 1]);
                            } else {
                                assert(st.chain[i] == prev.current && st.chain[i + 1] == n);
                            }
                        }
                    }
                },
            }
        }
    }
}

proof fn lemma_chains_after_paths(edges: Seq<UndirectedEdge>, starts: Seq<usize>, k: int)
    ensures
        forall|c: int| 0 <= c < chains_after(edges, starts, k).0.len() ==> is_edge_path(edges, #[trigger] chains_after(edges, starts, k).0[c]),
    decreases k,
{
    if k > 0 {
        lemma_chains_after_paths(edges, starts, k - 1);
        let (chains, visited) = chains_after(edges, starts, k - 1);
        let start = starts[k - 1];
        if first_unvisited(edges, start, visited) is Some {
            let w = walk_result(edges, start, visited);
            let m = choose|m: nat| walk_steps(edges, start, walk_init(start, visited), m).done;
            lemma_walk_path(edges, start, visited, m);
            if w.chain.len() >= 2 {
                assert forall|c: int| 0 <= c < chains.push(w.chain).len() implies is_edge_path(edges, #[trigger] chains.push(w.chain)[c]) by {
                    if c < chains.len() {
                        assert(chains.push(w.chain)[c] == chains[c]);
                    }
                }
            }
        }
    }
}

/// Each chain is a path: consecutive vertices are joined by one of the edges.
pub proof fn lemma_chains_are_edge_paths(edges: Seq<UndirectedEdge>)
    ensures
        forall|c: int| 0 <= c < spec_chain_boundary_edges(edges).len() ==> is_edge_path(edges, #[trigger] spec_chain_boundary_edges(edges)[c]),
{
    let starts = walk_starts(edges);
    lemma_chains_after_paths(edges, starts, starts.len() as int);
}

/// The link between vertices `i` and `i + 1` of chain `c`.
pub open spec fn chain_link(chains: Seq<Seq<usize>>, c: int, i: int) -> UndirectedEdge {
    spec_edge(chains[c][i], chains[c][i + 1])
}

/// Position `i` of chain `c` starts a link.
pub open spec fn is_link(chains: Seq<Seq<usize>>, c: int, i: int) -> bool {
    0 <= c < chains.len() && 0 <= i < chains[c].len() - 1
}

/// No undirected edge is the link of two different positions among the chains.
pub open spec fn links_distinct(chains: Seq<Seq<usize>>) -> bool {
    forall|c1: int, i1: int, c2: int, i2: int|
        is_link(chains, c1, i1) && is_link(chains, c2, i2) && (c1, i1) != (c2, i2) ==> #[trigger] chain_link(chains, c1, i1)
            != #[trigger] chain_link(chains, c2, i2)
}

/// Vertex `v` lies on some chain.
pub open spec fn on_some_chain(chains: Seq<Seq<usize>>, v: usize) -> bool {
    exists|c: int, i: int| 0 <= c < chains.len() && 0 <= i < chains[c].len() && #[trigger] chains[c][i] == v
}

/// A walk after `m` steps: the edges it visited extend the earlier ones without repeats,
/// its links are the first of them in order, and every edge it visited joins two of its
/// vertices.
proof fn lemma_walk_links(edges: Seq<UndirectedEdge>, start: usize, v0: Seq<UndirectedEdge>, m: nat)
    requires
        v0.no_duplicates(),
    ensures
        ({
            let st = walk_steps(edges, start, walk_init(start, v0), m);
            let b = v0.len() as int;
            &&& st.chain.len() >= 1
            &&& st.chain[0] == start
            &&& st.chain.last() == st.current
            &&& st.visited.no_duplicates()
            &&& st.visited.len() >= b + st.chain.len() - 1
            &&& !st.done ==> st.visited.len() == b + st.chain.len() - 1
            &&& st.visited.subrange(0, b) == v0
            &&& forall|i: int|
                0 <= i < st.chain.len() - 1 ==> #[trigger] spec_edge(st.chain[i], st.chain[i + 1]) == st.visited[b + i]
            &&& forall|j: int|
                b <= j < st.visited.len() ==> st.chain.contains((#[trigger] st.visited[j]).0) && st.chain.contains(
                    st.visited[j].1,
                )
            &&& (m >= 1 && first_unvisited(edges, start, v0) is Some) ==> st.chain.len() >= 2
        }),
    decreases m,
{
    let init = walk_init(start, v0);
    let b = v0.len() as int;
    if m == 0 {
        assert(init.visited.subrange(0, b) == v0);
    } else {
        lemma_walk_links(edges, start, v0, (m - 1) as nat);
        let prev = walk_steps(edges, start, init, (m - 1) as nat);
        lemma_walk_steps_add(edges, start, init, (m - 1) as nat, 1);
        assert((m - 1) as nat + 1 == m);
        reveal_with_fuel(walk_steps, 2);
        assert(walk_steps(edges, start, init, m) == walk_step(edges, start, prev));
        let st = walk_step(edges, start, prev);
        if m == 1 {
            assert(prev == init);
        }
        if !prev.done {
            match first_unvisited(edges, prev.current, prev.visited) {
                None => {},
                Some(n) => {
                    let nbrs = neighbors_of(edges, prev.current);
                    lemma_first_unvisited_found(nbrs, prev.current, prev.visited, 0);
                    let e = spec_edge(prev.current, n);
                    assert(!prev.visited.contains(e));
                    let vis = prev.visited.push(e);
                    assert(st.visited == vis);
                    assert(vis.no_duplicates()) by {
                        assert forall|x: int, y: int| 0 <= x < vis.len() && 0 <= y < vis.len() && x != y implies vis[x]
                            != vis[y] by {
                            if x < prev.visited.len() && y < prev.visited.len() {
                            } else if x < prev.visited.len() {
                                assert(prev.visited.contains(prev.visited[x]));
                            } else {
                                assert(prev.visited.contains(prev.visited[y]));
                            }
                        }
                    }
                    assert(vis.subrange(0, b) == prev.visited.subrange(0, b));
                    assert(prev.chain.contains(prev.current)) by {
                        assert(prev.chain[prev.chain.len() - 1] == prev.current);
                    }
                    assert((e.0 == prev.current && e.1 == n) || (e.0 == n && e.1 == prev.current));
                    if n == start && prev.chain.len() > 1 {
                        assert(prev.chain.contains(n)) by {
                            assert(prev.chain[0] == n);
                        }
                        assert forall|j: int| b <= j < vis.len() implies st.chain.contains((#[trigger] vis[j]).0)
                            && st.chain.contains(vis[j].1) by {
                            if j < prev.visited.len() {
                                assert(vis[j] == prev.visited[j]);
                            }
                        }
                        assert forall|i: int| 0 <= i < st.chain.len() - 1 implies #[trigger] spec_edge(
                            st.chain[i],
                            st.chain[i + 1],
                        ) == vis[b + i] by {
                            assert(spec_edge(prev.chain[i], prev.chain[i + 1]) == prev.visited[b + i]);
                        }
                    } else {
                        let ch = prev.chain.push(n);
                        assert(st.chain == ch);
                        assert forall|x: usize| prev.chain.contains(x) implies ch.contains(x) by {
                            let q = choose|q: int| 0 <= q < prev.chain.len() && prev.chain[q] == x;
                            assert(ch[q] == x);
                        }
                        assert(ch.contains(n)) by {
                            assert(ch[prev.chain.len() as int] == n);
                        }
                        assert forall|j: int| b <= j < vis.len() implies ch.contains((#[trigger] vis[j]).0)
                            && ch.contains(vis[j].1) by {
                            if j < prev.visited.len() {
                                assert(vis[j] == prev.visited[j]);
                                assert(prev.chain.contains(prev.visited[j].0));
                                assert(prev.chain.contains(prev.visited[j].1));
                            }
                        }
                        assert forall|i: int| 0 <= i < ch.len() - 1 implies #[trigger] spec_edge(ch[i], ch[i + 1]) == vis[b
                            + i] by {
                            if i < prev.chain.len() - 1 {
                                assert(spec_edge(prev.chain[i], prev.chain[i + 1]) == prev.visited[b + i]);
                                assert(ch[i] == prev.chain[i] && ch[i + 1] == prev.chain[i + 1]);
                            } else {
                                assert(ch[i] == prev.current);
                                assert(ch[i + 1] == n);
                            }
                        }
                        assert(ch[0] == start);
                    }
                },
            }
        }
    }
}

/// Every walk finishes: each unfinished step visits a new edge.
proof fn lemma_walk_terminates(edges: Seq<UndirectedEdge>, start: usize, st: WalkState)
    ensures
        exists|m: nat| #[trigger] walk_steps(edges, start, st, m).done,
    decreases unvisited_count(edges, st.visited, edges.len() as int) + if st.done {
        0int
    } else {
        1int
    },
{
    if st.done {
        assert(walk_steps(edges, start, st, 0).done);
    } else {
        let nx = walk_step(edges, start, st);
        match first_unvisited(edges, st.current, st.visited) {
            None => {
                reveal_with_fuel(walk_steps, 2);
                assert(walk_steps(edges, start, st, 1) == nx);
                assert(walk_steps(edges, start, st, 1).done);
            },
            Some(n) => {
                let nbrs = neighbors_of(edges, st.current);
                lemma_first_unvisited_found(nbrs, st.current, st.visited, 0);
                let q = choose|q: int| 0 <= q < nbrs.len() && nbrs[q] == n && !st.visited.contains(spec_edge(st.current, nbrs[q]));
                lemma_adj_list_edge(edges, st.current, edges.len() as int, q);
                let j = choose|j: int| 0 <= j < edges.len() && spec_edge(edges[j].0, edges[j].1) == spec_edge(st.current, n);
                lemma_unvisited_count_push(edges, st.visited, spec_edge(st.current, n), edges.len() as int, j);
                assert(nx.visited == st.visited.push(spec_edge(st.current, n)));
                lemma_walk_terminates(edges, start, nx);
                let m = choose|m: nat| #[trigger] walk_steps(edges, start, nx, m).done;
                assert(walk_steps(edges, start, st, m + 1) == walk_steps(edges, start, nx, m));
            },
        }
    }
}

/// A neighbor search that finds nothing means every listed neighbor's edge is visited.
proof fn lemma_first_unvisited_none(nbrs: Seq<usize>, cur: usize, visited: Seq<UndirectedEdge>, k: int)
    requires
        0 <= k,
        first_unvisited_from(nbrs, cur, visited, k) is None,
    ensures
        forall|q: int| k <= q < nbrs.len() ==> visited.contains(spec_edge(cur, #[trigger] nbrs[q])),
    decreases nbrs.len() - k,
{
    if k < nbrs.len() {
        lemma_first_unvisited_none(nbrs, cur, visited, k + 1);
    }
}

/// A vertex on one of the first `n` edges has a neighbor among them.
proof fn lemma_adj_list_nonempty(edges: Seq<UndirectedEdge>, v: usize, n: int, i: int)
    requires
        0 <= i < n <= edges.len(),
        touches(edges[i], v),
    ensures
        adj_list(edges, v, n).len() >= 1,
    decreases n,
{
    if i < n - 1 {
        lemma_adj_list_nonempty(edges, v, n - 1, i);
    }
}

/// Over the walks from the first `k` starts: visited edges never repeat, every link is a
/// visited edge and no two links are the same edge, every visited edge and every start so
/// far lies on the chains.
#[verifier::rlimit(60)]
proof fn lemma_chains_after_links(edges: Seq<UndirectedEdge>, starts: Seq<usize>, k: int)
    requires
        0 <= k <= starts.len(),
        forall|q: int| 0 <= q < starts.len() ==> is_endpoint(edges, #[trigger] starts[q]),
    ensures
        ({
            let (chains, visited) = chains_after(edges, starts, k);
            &&& visited.no_duplicates()
            &&& forall|c: int, i: int| #[trigger] is_link(chains, c, i) ==> visited.contains(chain_link(chains, c, i))
            &&& links_distinct(chains)
            &&& forall|j: int|
                0 <= j < visited.len() ==> on_some_chain(chains, (#[trigger] visited[j]).0) && on_some_chain(
                    chains,
                    visited[j].1,
                )
            &&& forall|q: int| 0 <= q < k ==> on_some_chain(chains, #[trigger] starts[q])
        }),
    decreases k,
{
    if k > 0 {
        lemma_chains_after_links(edges, starts, k - 1);
        let (chains, visited) = chains_after(edges, starts, k - 1);
        let start = starts[k - 1];
        let b = visited.len() as int;
        if first_unvisited(edges, start, visited) is None {
            let nbrs = neighbors_of(edges, start);
            assert(is_endpoint(edges, start));
            let i0 = choose|i: int| 0 <= i < edges.len() && #[trigger] touches(edges[i], start);
            lemma_adj_list_nonempty(edges, start, edges.len() as int, i0);
            lemma_first_unvisited_none(nbrs, start, visited, 0);
            assert(visited.contains(spec_edge(start, nbrs[0])));
            let j = choose|j: int| 0 <= j < visited.len() && visited[j] == spec_edge(start, nbrs[0]);
            assert(on_some_chain(chains, visited[j].0) && on_some_chain(chains, visited[j].1));
            assert(visited[j].0 == start || visited[j].1 == start);
        } else {
            let init = walk_init(start, visited);
            lemma_walk_terminates(edges, start, init);
            let m = choose|m: nat| walk_steps(edges, start, init, m).done;
            lemma_walk_result_is(edges, start, visited, m);
            let w = walk_result(edges, start, visited);
            lemma_walk_links(edges, start, visited, m);
            assert(m >= 1) by {
                if m == 0 {
                    assert(walk_steps(edges, start, init, m) == init);
                }
            }
            let cs = chains.push(w.chain);
            let vw = w.visited;
            let cc = chains.len() as int;
            assert(vw.subrange(0, b) == visited);
            assert forall|p: int| 0 <= p < b implies #[trigger] vw[p] == visited[p] by {
                assert(vw.subrange(0, b)[p] == vw[p]);
            }
            assert forall|c: int| 0 <= c < chains.len() implies #[trigger] cs[c] == chains[c] by {}
            assert(cs[cc] == w.chain);
            // Old chain vertices stay on the chains.
            assert forall|v: usize| on_some_chain(chains, v) implies on_some_chain(cs, v) by {
                let (c, i) = choose|c: int, i: int| 0 <= c < chains.len() && 0 <= i < chains[c].len() && #[trigger] chains[c][i] == v;
                assert(cs[c][i] == v);
            }
            assert forall|v: usize| w.chain.contains(v) implies on_some_chain(cs, v) by {
                let i = choose|i: int| 0 <= i < w.chain.len() && w.chain[i] == v;
                assert(cs[cc][i] == v);
            }
            assert forall|c: int, i: int| #[trigger] is_link(cs, c, i) implies vw.contains(chain_link(cs, c, i)) by {
                if c < cc {
                    assert(is_link(chains, c, i));
                    assert(visited.contains(chain_link(chains, c, i)));
                    let p = choose|p: int| 0 <= p < visited.len() && visited[p] == chain_link(chains, c, i);
                    assert(vw[p] == visited[p]);
                } else {
                    assert(spec_edge(w.chain[i], w.chain[i + 1]) == vw[b + i]);
                }
            }
            assert forall|c1: int, i1: int, c2: int, i2: int|
                is_link(cs, c1, i1) && is_link(cs, c2, i2) && (c1, i1) != (c2, i2) implies #[trigger] chain_link(cs, c1, i1)
                    != #[trigger] chain_link(cs, c2, i2) by {
                if c1 < cc && c2 < cc {
                    assert(is_link(chains, c1, i1) && is_link(chains, c2, i2));
                    assert(chain_link(chains, c1, i1) != chain_link(chains, c2, i2));
                } else if c1 < cc {
                    assert(is_link(chains, c1, i1));
                    assert(visited.contains(chain_link(chains, c1, i1)));
                    let p = choose|p: int| 0 <= p < visited.len() && visited[p] == chain_link(chains, c1, i1);
                    assert(spec_edge(w.chain[i2], w.chain[i2 + 1]) == vw[b + i2]);
                    assert(vw[p] == visited[p]);
                } else if c2 < cc {
                    assert(is_link(chains, c2, i2));
                    assert(visited.contains(chain_link(chains, c2, i2)));
                    let p = choose|p: int| 0 <= p < visited.len() && visited[p] == chain_link(chains, c2, i2);
                    assert(spec_edge(w.chain[i1], w.chain[i1 + 1]) == vw[b + i1]);
                    assert(vw[p] == visited[p]);
                } else {
                    assert(spec_edge(w.chain[i1], w.chain[i1 + 1]) == vw[b + i1]);
                    assert(spec_edge(w.chain[i2], w.chain[i2 + 1]) == vw[b + i2]);
                }
            }
            assert forall|j: int| 0 <= j < vw.len() implies on_some_chain(cs, (#[trigger] vw[j]).0) && on_some_chain(
                cs,
                vw[j].1,
            ) by {
                if j < b {
                    assert(vw[j] == visited[j]);
                    assert(on_some_chain(chains, visited[j].0) && on_some_chain(chains, visited[j].1));
                } else {
                    assert(w.chain.contains(vw[j].0) && w.chain.contains(vw[j].1));
                }
            }
            assert forall|q: int| 0 <= q < k implies on_some_chain(cs, #[trigger] starts[q]) by {
                if q < k - 1 {
                    assert(on_some_chain(chains, starts[q]));
                } else {
                    assert(w.chain[0] == start);
                    assert(w.chain.contains(start));
                }
            }
        }
    }
}

} // verus!
