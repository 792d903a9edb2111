//! Bidirectional breadth-first search that records, for every reached node,
//! the full set of shortest-distance parents, so that every shortest path
//! can later be reconstructed.
//!
//! The search keeps one frontier per direction and expands them level by
//! level, always expanding the frontier whose total degree is smaller. A
//! node reached by both directions is a meeting candidate; the meeting set
//! holds the candidates of minimal combined distance.

use vstd::prelude::*;
use vstd::set_lib::{lemma_int_range, lemma_len_subset, set_int_range};
use crate::graph::{CsrGraph, adj, csr_ok, lemma_offsets_monotonic};
use crate::paths::{build_paths, combine, combined, contains_path, parent_walk, path_to};

verus! {

/// An edge of the direction being searched: forward searches follow the
/// forward adjacency, backward searches the reverse adjacency.
pub open spec fn dir_edge(g: CsrGraph, forward: bool, u: int, v: int) -> bool {
    if forward {
        g.edge(u, v)
    } else {
        g.rev_edge(u, v)
    }
}

/// The distance and parent maps of one search direction are consistent:
/// the origin is at distance zero with no parents, every other reached
/// node has at least one parent, and every recorded parent lies one step
/// closer to the origin along an edge of the searched direction.
/// `u32::MAX` is the sentinel for an unreached node.
pub open spec fn parents_ok(
    g: CsrGraph,
    forward: bool,
    origin: int,
    dist: Seq<u32>,
    parents: Seq<Vec<u32>>,
) -> bool {
    let n = g.node_count();
    &&& dist.len() == n
    &&& parents.len() == n
    &&& 0 <= origin < n
    &&& dist[origin] == 0
    &&& parents[origin]@.len() == 0
    &&& forall|v: int| 0 <= v < n && (#[trigger] dist[v]) == u32::MAX ==> parents[v]@.len() == 0
    &&& forall|v: int|
        0 <= v < n && v != origin && (#[trigger] dist[v]) != u32::MAX ==> parents[v]@.len() >= 1
    &&& forall|v: int, j: int|
        0 <= v < n && 0 <= j < parents[v]@.len() ==> {
            let u = (#[trigger] parents[v]@[j]) as int;
            &&& 0 <= u < n
            &&& dir_edge(g, forward, u, v)
            &&& dist[u] != u32::MAX
            &&& dist[v] != u32::MAX
            &&& dist[u] + 1 == dist[v]
        }
}

/// Every frontier member is a node at exactly the current depth of its
/// direction.
pub open spec fn frontier_ok(g: CsrGraph, dist: Seq<u32>, frontier: Seq<u32>, depth: u32) -> bool {
    &&& depth != u32::MAX
    &&& forall|i: int|
        0 <= i < frontier.len() ==> {
            let u = (#[trigger] frontier[i]) as int;
            &&& 0 <= u < g.node_count()
            &&& dist[u] == depth
        }
}

/// Every member of the meeting set is reached by both directions and its
/// combined distance equals the best total found so far; the best total is
/// the sentinel `u64::MAX` exactly as long as no meeting node was found.
pub open spec fn meeting_ok(
    g: CsrGraph,
    dist_a: Seq<u32>,
    dist_b: Seq<u32>,
    meeting: Seq<u32>,
    best: u64,
) -> bool {
    &&& (best == u64::MAX <==> meeting.len() == 0)
    &&& forall|i: int|
        0 <= i < meeting.len() ==> {
            let m = (#[trigger] meeting[i]) as int;
            &&& 0 <= m < g.node_count()
            &&& dist_a[m] != u32::MAX
            &&& dist_b[m] != u32::MAX
            &&& dist_a[m] + dist_b[m] == best
        }
}

/// The nodes a distance map has not reached yet.
pub open spec fn unvisited(dist: Seq<u32>) -> Set<int> {
    Set::new(|v: int| 0 <= v < dist.len() && dist[v] == u32::MAX)
}

/// A vector with `n` copies of `x`.
fn filled(n: usize, x: u32) -> (r: Vec<u32>)
    ensures
        r@.len() == n,
        forall|i: int| 0 <= i < n ==> (#[trigger] r@[i]) == x,
{
    let mut r: Vec<u32> = Vec::new();
    let mut i: usize = 0;
    while i < n
        invariant
            i <= n,
            r@.len() == i,
            forall|j: int| 0 <= j < i ==> (#[trigger] r@[j]) == x,
        decreases n - i,
    {
        r.push(x);
        i = i + 1;
    }
    r
}

/// A vector of `n` empty parent lists.
fn empty_parent_lists(n: usize) -> (r: Vec<Vec<u32>>)
    ensures
        r@.len() == n,
        forall|i: int| 0 <= i < n ==> (#[trigger] r@[i])@.len() == 0,
{
    let mut r: Vec<Vec<u32>> = Vec::new();
    let mut i: usize = 0;
    while i < n
        invariant
            i <= n,
            r@.len() == i,
            forall|j: int| 0 <= j < i ==> (#[trigger] r@[j])@.len() == 0,
        decreases n - i,
    {
        r.push(Vec::new());
        i = i + 1;
    }
    r
}

/// `x` occurs in `v`.
fn vec_contains(v: &Vec<u32>, x: u32) -> (r: bool)
    ensures
        r == exists|i: int| 0 <= i < v@.len() && (#[trigger] v@[i]) == x,
{
    let mut i: usize = 0;
    while i < v.len()
        invariant
            i <= v@.len(),
            forall|j: int| 0 <= j < i ==> (#[trigger] v@[j]) != x,
        decreases v@.len() - i,
    {
        if v[i] == x {
            return true;
        }
        i = i + 1;
    }
    false
}

/// Total degree, in the searched direction, of all frontier members;
/// saturates instead of overflowing. This drives the cost-balancing choice
/// of which frontier to expand and carries no other meaning.
fn frontier_degree_sum(g: &CsrGraph, forward: bool, frontier: &Vec<u32>) -> (r: u64)
    requires
        g.wf(),
        forall|i: int|
            0 <= i < frontier@.len() ==> ((#[trigger] frontier@[i]) as int) < g.node_count(),
{
    let offs = if forward {
        &g.offsets
    } else {
        &g.reverse_offsets
    };
    let mut sum: u64 = 0;
    let mut i: usize = 0;
    while i < frontier.len()
        invariant
            g.wf(),
            i <= frontier@.len(),
            forall|j: int|
                0 <= j < frontier@.len() ==> ((#[trigger] frontier@[j]) as int) < g.node_count(),
            offs@.len() == g.offsets@.len(),
            forall|x: int| 0 <= x < offs@.len() - 1 ==> (#[trigger] offs@[x]) <= offs@[x + 1],
        decreases frontier@.len() - i,
    {
        let u = frontier[i] as usize;
        let d = offs[u + 1] - offs[u];
        if sum > u64::MAX - d as u64 {
            sum = u64::MAX;
        } else {
            sum = sum + d as u64;
        }
        i = i + 1;
    }
    sum
}

/// Expand one direction's frontier by a single level. Newly reached nodes
/// get distance `depth + 1` and a fresh parent set; nodes first reached
/// earlier in the same level gain additional parents. Newly reached nodes
/// that the other direction has already reached update the meeting set.
#[verifier::loop_isolation(false)]
#[verifier::spinoff_prover]
#[verifier::rlimit(100)]
fn expand_level(
    g: &CsrGraph,
    forward: bool,
    origin: Ghost<int>,
    depth: u32,
    frontier: &Vec<u32>,
    dist: &mut Vec<u32>,
    parents: &mut Vec<Vec<u32>>,
    other_dist: &Vec<u32>,
    best: &mut u64,
    meeting: &mut Vec<u32>,
) -> (next: Vec<u32>)
    requires
        g.wf(),
        depth < u32::MAX - 1,
        parents_ok(*g, forward, origin@, old(dist)@, old(parents)@),
        frontier_ok(*g, old(dist)@, frontier@, depth),
        other_dist@.len() == g.node_count(),
        meeting_ok(*g, old(dist)@, other_dist@, old(meeting)@, *old(best)),
    ensures
        parents_ok(*g, forward, origin@, final(dist)@, final(parents)@),
        frontier_ok(*g, final(dist)@, next@, (depth + 1) as u32),
        meeting_ok(*g, final(dist)@, other_dist@, final(meeting)@, *final(best)),
        final(dist)@.len() == old(dist)@.len(),
        forall|v: int|
            0 <= v < final(dist)@.len() && old(dist)@[v] != u32::MAX
                ==> (#[trigger] final(dist)@[v]) == old(dist)@[v],
        forall|v: int|
            0 <= v < final(dist)@.len() && (#[trigger] final(dist)@[v]) == u32::MAX
                ==> old(dist)@[v] == u32::MAX,
        forall|i: int|
            0 <= i < next@.len() ==> old(dist)@[(#[trigger] next@[i]) as int] == u32::MAX,
        *final(best) <= *old(best),
        forall|i: int, v: int|
            0 <= i < frontier@.len() && 0 <= v < g.node_count() && #[trigger] dir_edge(
                *g,
                forward,
                frontier@[i] as int,
                v,
            ) && old(dist)@[v] == u32::MAX ==> final(dist)@[v] != u32::MAX,
        forall|v: int|
            0 <= v < final(dist)@.len() && old(dist)@[v] == u32::MAX
                && (#[trigger] final(dist)@[v]) != u32::MAX ==> exists|i: int|
                0 <= i < next@.len() && ((#[trigger] next@[i]) as int) == v,
        forall|v: int|
            0 <= v < final(dist)@.len() && old(dist)@[v] == u32::MAX
                && (#[trigger] final(dist)@[v]) != u32::MAX && other_dist@[v] != u32::MAX
                ==> *final(best) != u64::MAX,
        forall|v: int|
            0 <= v < final(dist)@.len() && old(dist)@[v] == u32::MAX
                && (#[trigger] final(dist)@[v]) != u32::MAX && other_dist@[v] != u32::MAX
                ==> *final(best) <= final(dist)@[v] + other_dist@[v],
        forall|v: int|
            0 <= v < final(dist)@.len() && (#[trigger] final(dist)@[v]) != depth + 1
                ==> final(parents)@[v]@ == old(parents)@[v]@,
        forall|i: int, v: int|
            0 <= i < frontier@.len() && 0 <= v < g.node_count() && #[trigger] dir_edge(
                *g,
                forward,
                frontier@[i] as int,
                v,
            ) && final(dist)@[v] == depth + 1 ==> final(parents)@[v]@.contains(frontier@[i]),
{
    let ghost dist0 = dist@;
    let ghost parents0 = parents@;
    let ghost best0 = *best;
    let offs = if forward {
        &g.offsets
    } else {
        &g.reverse_offsets
    };
    let eds = if forward {
        &g.edges
    } else {
        &g.reverse_edges
    };
    proof {
        assert(forward ==> offs@ == g.offsets@ && eds@ == g.edges@);
        assert(!forward ==> offs@ == g.reverse_offsets@ && eds@ == g.reverse_edges@);
        assert(csr_ok(offs@, eds@, g.node_count()));
    }
    let mut next: Vec<u32> = Vec::new();
    let mut fi: usize = 0;
    while fi < frontier.len()
        invariant
            fi <= frontier@.len(),
            dist@.len() == dist0.len(),
            parents_ok(*g, forward, origin@, dist@, parents@),
            frontier_ok(*g, dist@, next@, (depth + 1) as u32),
            meeting_ok(*g, dist@, other_dist@, meeting@, *best),
            forall|v: int|
                0 <= v < dist0.len() && dist0[v] != u32::MAX ==> (#[trigger] dist@[v]) == dist0[v],
            forall|v: int|
                0 <= v < dist0.len() && (#[trigger] dist@[v]) == u32::MAX ==> dist0[v] == u32::MAX,
            forall|v: int|
                0 <= v < dist0.len() && dist0[v] == u32::MAX && (#[trigger] dist@[v]) != u32::MAX
                    ==> dist@[v] == depth + 1,
            forall|i: int|
                0 <= i < next@.len() ==> dist0[(#[trigger] next@[i]) as int] == u32::MAX,
            *best <= best0,
            forall|i: int, v: int|
                0 <= i < fi && 0 <= v < g.node_count() && #[trigger] dir_edge(
                    *g,
                    forward,
                    frontier@[i] as int,
                    v,
                ) && dist0[v] == u32::MAX ==> dist@[v] != u32::MAX,
            forall|v: int|
                0 <= v < dist0.len() && dist0[v] == u32::MAX && (#[trigger] dist@[v]) != u32::MAX
                    ==> exists|i: int| 0 <= i < next@.len() && ((#[trigger] next@[i]) as int) == v,
            forall|v: int|
                0 <= v < dist0.len() && dist0[v] == u32::MAX && (#[trigger] dist@[v]) != u32::MAX
                    && other_dist@[v] != u32::MAX ==> *best != u64::MAX,
            forall|v: int|
                0 <= v < dist0.len() && dist0[v] == u32::MAX && (#[trigger] dist@[v]) != u32::MAX
                    && other_dist@[v] != u32::MAX ==> *best <= dist@[v] + other_dist@[v],
            parents@.len() == parents0.len(),
            forall|v: int|
                0 <= v < dist0.len() && (#[trigger] dist@[v]) != depth + 1 ==> parents@[v]@
                    == parents0[v]@,
            forall|i: int, v: int|
                0 <= i < fi && 0 <= v < g.node_count() && #[trigger] dir_edge(
                    *g,
                    forward,
                    frontier@[i] as int,
                    v,
                ) && dist@[v] == depth + 1 ==> parents@[v]@.contains(frontier@[i]),
        decreases frontier@.len() - fi,
    {
        let u = frontier[fi];
        let uu = u as usize;
        proof {
            assert(dist0[u as int] == depth);
            assert(dist@[u as int] == depth);
        }
        let lo = offs[uu] as usize;
        let hi = offs[uu + 1] as usize;
        proof {
            lemma_offsets_monotonic(offs@, uu as int + 1, g.node_count());
        }
        let mut k = lo;
        while k < hi
            invariant
                lo <= k <= hi <= eds@.len(),
                uu == u as int,
                uu < g.node_count(),
                lo == offs@[uu as int],
                hi == offs@[uu as int + 1],
                dist@.len() == dist0.len(),
                parents_ok(*g, forward, origin@, dist@, parents@),
                frontier_ok(*g, dist@, next@, (depth + 1) as u32),
                meeting_ok(*g, dist@, other_dist@, meeting@, *best),
                dist@[u as int] == depth,
                forall|v: int|
                    0 <= v < dist0.len() && dist0[v] != u32::MAX ==> (#[trigger] dist@[v])
                        == dist0[v],
                forall|v: int|
                    0 <= v < dist0.len() && (#[trigger] dist@[v]) == u32::MAX ==> dist0[v]
                        == u32::MAX,
                forall|v: int|
                    0 <= v < dist0.len() && dist0[v] == u32::MAX && (#[trigger] dist@[v])
                        != u32::MAX ==> dist@[v] == depth + 1,
                forall|i: int|
                    0 <= i < next@.len() ==> dist0[(#[trigger] next@[i]) as int] == u32::MAX,
                *best <= best0,
                forall|i: int, v: int|
                    0 <= i < fi && 0 <= v < g.node_count() && #[trigger] dir_edge(
                        *g,
                        forward,
                        frontier@[i] as int,
                        v,
                    ) && dist0[v] == u32::MAX ==> dist@[v] != u32::MAX,
                forall|v: int|
                    0 <= v < dist0.len() && dist0[v] == u32::MAX && (#[trigger] dist@[v])
                        != u32::MAX ==> exists|i: int|
                        0 <= i < next@.len() && ((#[trigger] next@[i]) as int) == v,
                forall|v: int|
                    0 <= v < dist0.len() && dist0[v] == u32::MAX && (#[trigger] dist@[v])
                        != u32::MAX && other_dist@[v] != u32::MAX ==> *best != u64::MAX,
                forall|v: int|
                    0 <= v < dist0.len() && dist0[v] == u32::MAX && (#[trigger] dist@[v])
                        != u32::MAX && other_dist@[v] != u32::MAX ==> *best <= dist@[v]
                        + other_dist@[v],
                forall|kk: int|
                    lo <= kk < k ==> dist@[(#[trigger] eds@[kk]) as int] != u32::MAX,
                parents@.len() == parents0.len(),
                forall|v: int|
                    0 <= v < dist0.len() && (#[trigger] dist@[v]) != depth + 1 ==> parents@[v]@
                        == parents0[v]@,
                forall|i: int, v: int|
                    0 <= i < fi && 0 <= v < g.node_count() && #[trigger] dir_edge(
                        *g,
                        forward,
                        frontier@[i] as int,
                        v,
                    ) && dist@[v] == depth + 1 ==> parents@[v]@.contains(frontier@[i]),
                forall|kk: int|
                    lo <= kk < k && dist@[(#[trigger] eds@[kk]) as int] == depth + 1
                        ==> parents@[eds@[kk] as int]@.contains(u),
            decreases hi - k,
        {
            let v = eds[k];
            let vu = v as usize;
            proof {
                assert(eds@[k as int] == v);
                assert((v as int) < g.node_count());
                assert(adj(offs@, eds@, u as int, v as int)) by {
                    assert(offs@[u as int] <= k < offs@[u as int + 1] && eds@[k as int] == v);
                }
                assert(dir_edge(*g, forward, u as int, v as int));
            }
            let dv = dist[vu];
            if dv == u32::MAX {
                let ghost dist_pre = dist@;
                let ghost next_pre = next@;
                dist[vu] = depth + 1;
                let mut single: Vec<u32> = Vec::new();
                single.push(u);
                parents[vu] = single;
                proof {
                    assert(parents@[vu as int]@[0] == u);
                    assert(parents@[vu as int]@.contains(u));
                }
                next.push(v);
                proof {
                    assert forall|w: int|
                        0 <= w < dist0.len() && dist0[w] == u32::MAX && dist@[w] != u32::MAX
                        implies exists|i: int|
                        0 <= i < next@.len() && ((#[trigger] next@[i]) as int) == w by {
                        if w == vu as int {
                            assert(next@[next@.len() - 1] as int == w);
                        } else {
                            assert(dist_pre[w] == dist@[w]);
                            assert(dist_pre[w] != u32::MAX);
                            let i0 = choose|i: int|
                                0 <= i < next_pre.len() && ((#[trigger] next_pre[i]) as int) == w;
                            assert(next@[i0] as int == w);
                        }
                    }
                }
                let od = other_dist[vu];
                if od != u32::MAX {
                    let total = (depth as u64 + 1) + od as u64;
                    if total < *best {
                        *best = total;
                        meeting.clear();
                        meeting.push(v);
                    } else if total == *best {
                        meeting.push(v);
                    }
                }
            } else if dv == depth + 1 {
                let ghost pvu_pre = parents@[vu as int]@;
                if !vec_contains(&parents[vu], u) {
                    parents[vu].push(u);
                }
                proof {
                    assert(parents@[vu as int]@.contains(u)) by {
                        if parents@[vu as int]@.len() > pvu_pre.len() {
                            assert(parents@[vu as int]@[parents@[vu as int]@.len() - 1] == u);
                        } else {
                            let i0 = choose|i: int|
                                0 <= i < pvu_pre.len() && (#[trigger] pvu_pre[i]) == u;
                            assert(parents@[vu as int]@[i0] == u);
                        }
                    }
                    assert forall|x: u32| #[trigger] pvu_pre.contains(x) implies parents@[
                        vu as int]@.contains(x) by {
                        let i0 = choose|i: int|
                            0 <= i < pvu_pre.len() && (#[trigger] pvu_pre[i]) == x;
                        assert(parents@[vu as int]@[i0] == x);
                    }
                }
            }
            k = k + 1;
        }
        proof {
            assert forall|v: int|
                0 <= v < g.node_count() && dir_edge(*g, forward, u as int, v) && dist0[v]
                    == u32::MAX implies dist@[v] != u32::MAX by {
                assert(adj(offs@, eds@, u as int, v));
                let kk = choose|kk: int|
                    offs@[u as int] <= kk < offs@[u as int + 1] && (#[trigger] eds@[kk]) == v;
                assert(dist@[eds@[kk] as int] != u32::MAX);
            }
            assert forall|v: int|
                0 <= v < g.node_count() && dir_edge(*g, forward, u as int, v) && dist@[v] == depth
                    + 1 implies parents@[v]@.contains(u) by {
                assert(adj(offs@, eds@, u as int, v));
                let kk = choose|kk: int|
                    offs@[u as int] <= kk < offs@[u as int + 1] && (#[trigger] eds@[kk]) == v;
                assert(parents@[eds@[kk] as int]@.contains(u));
            }
        }
        fi = fi + 1;
    }
    next
}

/// Every reached node sits at or below the direction's current depth.
pub open spec fn reached_bounded(dist: Seq<u32>, depth: u32) -> bool {
    forall|v: int| 0 <= v < dist.len() && (#[trigger] dist[v]) != u32::MAX ==> dist[v] <= depth
}

/// `frontier` has an entry for node `v`.
pub open spec fn frontier_contains(frontier: Seq<u32>, v: int) -> bool {
    exists|i: int| 0 <= i < frontier.len() && ((#[trigger] frontier[i]) as int) == v
}

/// Every node at exactly the current depth is on the frontier.
pub open spec fn level_in_frontier(dist: Seq<u32>, depth: u32, frontier: Seq<u32>) -> bool {
    forall|v: int|
        0 <= v < dist.len() && (#[trigger] dist[v]) == depth ==> frontier_contains(frontier, v)
}

/// Every node strictly below the current depth has had its whole
/// neighborhood, in the searched direction, expanded.
pub open spec fn closed_below(g: CsrGraph, forward: bool, dist: Seq<u32>, depth: u32) -> bool {
    forall|u: int, v: int|
        0 <= u < dist.len() && 0 <= v < dist.len() && dist[u] != u32::MAX && dist[u] < depth
            && #[trigger] dir_edge(g, forward, u, v) ==> dist[v] != u32::MAX && dist[v] <= dist[u]
            + 1
}

/// Every neighbor, in the searched direction, of any reached node is
/// reached: the direction has explored its whole reachable set.
pub open spec fn search_closed(g: CsrGraph, forward: bool, dist: Seq<u32>) -> bool {
    forall|u: int, v: int|
        0 <= u < dist.len() && 0 <= v < dist.len() && dist[u] != u32::MAX && #[trigger] dir_edge(
            g,
            forward,
            u,
            v,
        ) ==> dist[v] != u32::MAX && dist[v] <= dist[u] + 1
}

/// As soon as one node is reached by both directions, a meeting was found.
pub open spec fn doubly_reached_meets(dist: Seq<u32>, other: Seq<u32>, best: u64) -> bool {
    forall|v: int|
        #![trigger dist[v], other[v]]
        0 <= v < dist.len() && dist[v] != u32::MAX && other[v] != u32::MAX ==> best != u64::MAX
}

/// A meeting through any doubly reached node was already considered: the
/// best combined distance is no worse than the node's own combined
/// distance.
pub open spec fn doubly_bounds_best(dist: Seq<u32>, other: Seq<u32>, best: u64) -> bool {
    forall|v: int|
        #![trigger dist[v], other[v]]
        0 <= v < dist.len() && dist[v] != u32::MAX && other[v] != u32::MAX ==> best <= dist[v]
            + other[v]
}

/// Every recorded distance pair that could extend a shortest-path tree is
/// recorded: whenever an edge of the searched direction joins a node to
/// one exactly one level further, the nearer node is among the recorded
/// parents of the farther one.
pub open spec fn parents_complete(
    g: CsrGraph,
    forward: bool,
    dist: Seq<u32>,
    parents: Seq<Vec<u32>>,
) -> bool {
    forall|u: int, v: int|
        0 <= u < dist.len() && 0 <= v < dist.len() && dist[u] != u32::MAX && dist[v] != u32::MAX
            && dist[u] + 1 == dist[v] && #[trigger] dir_edge(g, forward, u, v)
            ==> parents[v]@.contains(u as u32)
}

/// Some already-collected result entry is exactly the join of the two
/// given walks.
pub open spec fn combo_present(result: Seq<Vec<u32>>, pf: Seq<u32>, pb: Seq<u32>) -> bool {
    exists|idx: int| 0 <= idx < result.len() && (#[trigger] result[idx])@ == combined(pf, pb)
}

/// Some node sits at exactly distance `j`.
pub open spec fn level_inhabited(dist: Seq<u32>, j: int) -> bool {
    exists|v: int| 0 <= v < dist.len() && (#[trigger] dist[v]) == j
}

/// Every level up to the current depth is inhabited.
pub open spec fn levels_inhabited(dist: Seq<u32>, depth: u32) -> bool {
    forall|j: int| 0 <= j <= depth ==> #[trigger] level_inhabited(dist, j)
}

/// The nodes reached at distance `j` or below.
spec fn reached_below(dist: Seq<u32>, j: int) -> Set<int> {
    Set::new(|v: int| 0 <= v < dist.len() && dist[v] != u32::MAX && dist[v] <= j)
}

/// With every level up to `j` inhabited, at least `j + 1` distinct nodes
/// are reached at distance `j` or below.
proof fn lemma_levels_count(dist: Seq<u32>, j: int)
    requires
        0 <= j < u32::MAX,
        forall|i: int| 0 <= i <= j ==> #[trigger] level_inhabited(dist, i),
    ensures
        reached_below(dist, j).finite(),
        reached_below(dist, j).len() >= j + 1,
    decreases j,
{
    let b = reached_below(dist, j);
    lemma_int_range(0, dist.len() as int);
    assert(b.subset_of(set_int_range(0, dist.len() as int)));
    lemma_len_subset(b, set_int_range(0, dist.len() as int));
    assert(level_inhabited(dist, j));
    let w = choose|v: int| 0 <= v < dist.len() && (#[trigger] dist[v]) == j;
    if j == 0 {
        assert(b.contains(w));
        if b.len() == 0 {
            b.lemma_len0_is_empty();
            assert(false);
        }
    } else {
        lemma_levels_count(dist, j - 1);
        let b0 = reached_below(dist, j - 1);
        assert(!b0.contains(w));
        assert(b0.insert(w).subset_of(b));
        lemma_len_subset(b0.insert(w), b);
        assert(b0.insert(w).len() == b0.len() + 1);
    }
}

/// A depth whose every level is inhabited lies below the node count.
proof fn lemma_depth_below_node_count(dist: Seq<u32>, depth: u32)
    requires
        depth < u32::MAX,
        levels_inhabited(dist, depth),
    ensures
        (depth as int) < dist.len(),
{
    lemma_levels_count(dist, depth as int);
    lemma_int_range(0, dist.len() as int);
    lemma_len_subset(reached_below(dist, depth as int), set_int_range(0, dist.len() as int));
}

/// Once a direction is fully explored, every node at the end of a walk of
/// its edges out of a reached node is itself reached.
proof fn lemma_closed_path_reached(g: CsrGraph, forward: bool, dist: Seq<u32>, p: Seq<u32>)
    requires
        dist.len() == g.node_count(),
        search_closed(g, forward, dist),
        p.len() >= 1,
        forall|i: int| 0 <= i < p.len() ==> ((#[trigger] p[i]) as int) < g.node_count(),
        forall|i: int|
            0 <= i < p.len() - 1 ==> dir_edge(g, forward, (#[trigger] p[i]) as int,
            p[i + 1] as int),
        dist[p[0] as int] != u32::MAX,
    ensures
        dist[p[p.len() - 1] as int] != u32::MAX,
    decreases p.len(),
{
    if p.len() > 1 {
        assert((p[0] as int) < g.node_count());
        assert(dir_edge(g, forward, p[0] as int, p[1] as int));
        assert(dist[p[1] as int] != u32::MAX);
        let q = p.drop_first();
        assert forall|i: int| 0 <= i < q.len() - 1 implies dir_edge(g, forward, (
        #[trigger] q[i]) as int, q[i + 1] as int) by {
            assert(q[i] == p[i + 1]);
            assert((p[i + 1] as int) < g.node_count());
            assert(dir_edge(g, forward, p[i + 1] as int, p[i + 2] as int));
        }
        lemma_closed_path_reached(g, forward, dist, q);
        assert(q[q.len() - 1] == p[p.len() - 1]);
    }
}

/// After one level expansion, the per-direction search invariants advance
/// from `depth` to `depth + 1`.
#[verifier::rlimit(60)]
proof fn lemma_round_advance(
    g: CsrGraph,
    forward: bool,
    pre: Seq<u32>,
    post: Seq<u32>,
    frontier: Seq<u32>,
    next: Seq<u32>,
    depth: u32,
    other: Seq<u32>,
    best_pre: u64,
    best_post: u64,
)
    requires
        g.wf(),
        pre.len() == g.node_count(),
        post.len() == pre.len(),
        other.len() == pre.len(),
        depth < u32::MAX - 1,
        next.len() >= 1,
        reached_bounded(pre, depth),
        level_in_frontier(pre, depth, frontier),
        closed_below(g, forward, pre, depth),
        doubly_reached_meets(pre, other, best_pre),
        doubly_bounds_best(pre, other, best_pre),
        levels_inhabited(pre, depth),
        frontier_ok(g, post, next, (depth + 1) as u32),
        best_post <= best_pre,
        forall|v: int| 0 <= v < post.len() && pre[v] != u32::MAX ==> (#[trigger] post[v]) == pre[v],
        forall|v: int| 0 <= v < post.len() && (#[trigger] post[v]) == u32::MAX ==> pre[v]
            == u32::MAX,
        forall|i: int, v: int|
            0 <= i < frontier.len() && 0 <= v < g.node_count() && #[trigger] dir_edge(
                g,
                forward,
                frontier[i] as int,
                v,
            ) && pre[v] == u32::MAX ==> post[v] != u32::MAX,
        forall|v: int|
            0 <= v < post.len() && pre[v] == u32::MAX && (#[trigger] post[v]) != u32::MAX
                ==> exists|i: int| 0 <= i < next.len() && ((#[trigger] next[i]) as int) == v,
        forall|v: int|
            0 <= v < post.len() && pre[v] == u32::MAX && (#[trigger] post[v]) != u32::MAX
                && other[v] != u32::MAX ==> best_post != u64::MAX,
        forall|v: int|
            0 <= v < post.len() && pre[v] == u32::MAX && (#[trigger] post[v]) != u32::MAX
                && other[v] != u32::MAX ==> best_post <= post[v] + other[v],
    ensures
        reached_bounded(post, (depth + 1) as u32),
        level_in_frontier(post, (depth + 1) as u32, next),
        closed_below(g, forward, post, (depth + 1) as u32),
        doubly_reached_meets(post, other, best_post),
        doubly_bounds_best(post, other, best_post),
        levels_inhabited(post, (depth + 1) as u32),
{
    let d1 = (depth + 1) as u32;
    assert forall|v: int| 0 <= v < post.len() && (#[trigger] post[v]) != u32::MAX implies post[v]
        <= d1 by {
        if pre[v] == u32::MAX {
            let i = choose|i: int| 0 <= i < next.len() && ((#[trigger] next[i]) as int) == v;
            assert(post[next[i] as int] == d1);
        }
    }
    assert forall|v: int| 0 <= v < post.len() && (#[trigger] post[v]) == d1 implies
        frontier_contains(next, v) by {
        assert(pre[v] == u32::MAX);
        let i = choose|i: int| 0 <= i < next.len() && ((#[trigger] next[i]) as int) == v;
        assert(0 <= i < next.len() && ((next[i]) as int) == v);
    }
    assert forall|u: int, v: int|
        0 <= u < post.len() && 0 <= v < post.len() && post[u] != u32::MAX && post[u] < d1
            && #[trigger] dir_edge(g, forward, u, v) implies post[v] != u32::MAX by {
        if pre[u] == u32::MAX {
            let i = choose|i: int| 0 <= i < next.len() && ((#[trigger] next[i]) as int) == u;
            assert(post[next[i] as int] == d1);
            assert(false);
        }
        assert(pre[u] == post[u]);
        if post[u] < depth {
            assert(pre[v] != u32::MAX);
        } else {
            assert(pre[u] == depth);
            assert(frontier_contains(frontier, u));
            let i = choose|i: int|
                0 <= i < frontier.len() && ((#[trigger] frontier[i]) as int) == u;
            assert(dir_edge(g, forward, frontier[i] as int, v));
            if pre[v] == u32::MAX {
                assert(post[v] != u32::MAX);
            }
        }
    }
    assert forall|v: int|
        #![trigger post[v], other[v]]
        0 <= v < post.len() && post[v] != u32::MAX && other[v] != u32::MAX implies best_post
        != u64::MAX by {
        if pre[v] != u32::MAX {
            assert(pre[v] != u32::MAX && other[v] != u32::MAX);
            assert(best_pre != u64::MAX);
        }
    }
    assert forall|v: int|
        #![trigger post[v], other[v]]
        0 <= v < post.len() && post[v] != u32::MAX && other[v] != u32::MAX implies best_post
        <= post[v] + other[v] by {
        if pre[v] != u32::MAX {
            assert(pre[v] != u32::MAX && other[v] != u32::MAX);
            assert(best_pre <= pre[v] + other[v]);
            assert(post[v] == pre[v]);
        }
    }
    assert forall|j: int| 0 <= j <= d1 implies level_inhabited(post, j) by {
        if j <= depth {
            assert(level_inhabited(pre, j));
            let w = choose|v: int| 0 <= v < pre.len() && (#[trigger] pre[v]) == j;
            assert(post[w] == pre[w]);
            assert(0 <= w < post.len() && post[w] == j);
            assert(level_inhabited(post, j));
        } else {
            assert(post[next[0] as int] == d1);
            assert(level_inhabited(post, j));
        }
    }
}

/// When an expansion reaches nothing new, the expanded direction has
/// explored its whole reachable set, and a node reached by both
/// directions would already have produced a meeting.
proof fn lemma_exhausted_closed(
    g: CsrGraph,
    forward: bool,
    pre: Seq<u32>,
    post: Seq<u32>,
    frontier: Seq<u32>,
    next: Seq<u32>,
    depth: u32,
)
    requires
        g.wf(),
        pre.len() == g.node_count(),
        post.len() == pre.len(),
        next.len() == 0,
        reached_bounded(pre, depth),
        level_in_frontier(pre, depth, frontier),
        closed_below(g, forward, pre, depth),
        forall|v: int| 0 <= v < post.len() && pre[v] != u32::MAX ==> (#[trigger] post[v]) == pre[v],
        forall|i: int, v: int|
            0 <= i < frontier.len() && 0 <= v < g.node_count() && #[trigger] dir_edge(
                g,
                forward,
                frontier[i] as int,
                v,
            ) && pre[v] == u32::MAX ==> post[v] != u32::MAX,
        forall|v: int|
            0 <= v < post.len() && pre[v] == u32::MAX && (#[trigger] post[v]) != u32::MAX
                ==> exists|i: int| 0 <= i < next.len() && ((#[trigger] next[i]) as int) == v,
    ensures
        post == pre,
        search_closed(g, forward, post),
{
    assert forall|v: int| 0 <= v < post.len() implies post[v] == pre[v] by {
        if pre[v] == u32::MAX && post[v] != u32::MAX {
            let i = choose|i: int| 0 <= i < next.len() && ((#[trigger] next[i]) as int) == v;
            assert(false);
        }
    }
    assert(post =~= pre);
    assert forall|u: int, v: int|
        0 <= u < post.len() && 0 <= v < post.len() && post[u] != u32::MAX && #[trigger] dir_edge(
            g,
            forward,
            u,
            v,
        ) implies post[v] != u32::MAX by {
        if post[u] < depth {
            assert(pre[v] != u32::MAX);
        } else {
            assert(pre[u] == depth);
            assert(frontier_contains(frontier, u));
            let i = choose|i: int|
                0 <= i < frontier.len() && ((#[trigger] frontier[i]) as int) == u;
            assert(dir_edge(g, forward, frontier[i] as int, v));
            if pre[v] == u32::MAX {
                assert(post[v] != u32::MAX);
            }
        }
    }
}

/// Along a walk out of the origin, as long as the prefix stays within the
/// explored depth, recorded distances never exceed the walk position.
proof fn lemma_path_prefix_bound(
    g: CsrGraph,
    forward: bool,
    dist: Seq<u32>,
    p: Seq<u32>,
    depth: u32,
    i: int,
)
    requires
        dist.len() == g.node_count(),
        closed_below(g, forward, dist, depth),
        forall|j: int| 0 <= j < p.len() ==> ((#[trigger] p[j]) as int) < g.node_count(),
        forall|j: int|
            0 <= j < p.len() - 1 ==> dir_edge(g, forward, (#[trigger] p[j]) as int,
            p[j + 1] as int),
        dist[p[0] as int] == 0,
        0 <= i < p.len(),
        i <= depth,
    ensures
        dist[p[i] as int] != u32::MAX,
        dist[p[i] as int] <= i,
    decreases i,
{
    if i > 0 {
        lemma_path_prefix_bound(g, forward, dist, p, depth, i - 1);
        let j = i - 1;
        assert((p[j] as int) < g.node_count());
        assert(dir_edge(g, forward, p[j] as int, p[j + 1] as int));
        assert(dist[p[j] as int] < depth);
    }
}

/// Once a direction has explored its whole reachable set, recorded
/// distances never exceed the position along any walk out of the origin.
proof fn lemma_path_bound_exhausted(
    g: CsrGraph,
    forward: bool,
    dist: Seq<u32>,
    p: Seq<u32>,
    i: int,
)
    requires
        dist.len() == g.node_count(),
        search_closed(g, forward, dist),
        forall|j: int| 0 <= j < p.len() ==> ((#[trigger] p[j]) as int) < g.node_count(),
        forall|j: int|
            0 <= j < p.len() - 1 ==> dir_edge(g, forward, (#[trigger] p[j]) as int,
            p[j + 1] as int),
        dist[p[0] as int] == 0,
        0 <= i < p.len(),
    ensures
        dist[p[i] as int] != u32::MAX,
        dist[p[i] as int] <= i,
    decreases i,
{
    if i > 0 {
        lemma_path_bound_exhausted(g, forward, dist, p, i - 1);
        let j = i - 1;
        assert((p[j] as int) < g.node_count());
        assert(dir_edge(g, forward, p[j] as int, p[j + 1] as int));
    }
}

/// If recorded distances never exceed walk positions, drop by at most one
/// per backward step, and hit the position exactly at `hi`, they are exact
/// at every position up to `hi`.
proof fn lemma_exact_prefix(dist: Seq<u32>, p: Seq<u32>, hi: int, j: int)
    requires
        0 <= j <= hi < p.len(),
        forall|t: int|
            0 <= t <= hi ==> dist[(#[trigger] p[t]) as int] != u32::MAX && dist[p[t] as int] <= t,
        forall|t: int| 0 <= t < hi ==> dist[(#[trigger] p[t + 1]) as int] <= dist[p[t] as int] + 1,
        dist[p[hi] as int] == hi,
    ensures
        dist[p[j] as int] == j,
    decreases hi - j,
{
    if j < hi {
        lemma_exact_prefix(dist, p, hi, j + 1);
        assert(dist[p[j + 1] as int] <= dist[p[j] as int] + 1);
    }
}

/// Gather every node that both directions reached with combined distance
/// exactly `best`: the complete meeting set.
fn collect_meeting(dist_f: &Vec<u32>, dist_b: &Vec<u32>, best: u64) -> (r: Vec<u32>)
    requires
        dist_f@.len() == dist_b@.len(),
        dist_f@.len() <= u32::MAX,
    ensures
        forall|i: int|
            0 <= i < r@.len() ==> {
                let v = (#[trigger] r@[i]) as int;
                &&& 0 <= v < dist_f@.len()
                &&& dist_f@[v] != u32::MAX
                &&& dist_b@[v] != u32::MAX
                &&& dist_f@[v] + dist_b@[v] == best
            },
        forall|v: int|
            0 <= v < dist_f@.len() && (#[trigger] dist_f@[v]) != u32::MAX && dist_b@[v]
                != u32::MAX && dist_f@[v] + dist_b@[v] == best ==> exists|i: int|
                0 <= i < r@.len() && ((#[trigger] r@[i]) as int) == v,
{
    let n = dist_f.len();
    let mut r: Vec<u32> = Vec::new();
    let mut v: usize = 0;
    while v < n
        invariant
            v <= n,
            n == dist_f@.len(),
            dist_f@.len() == dist_b@.len(),
            dist_f@.len() <= u32::MAX,
            forall|i: int|
                0 <= i < r@.len() ==> {
                    let w = (#[trigger] r@[i]) as int;
                    &&& 0 <= w < dist_f@.len()
                    &&& dist_f@[w] != u32::MAX
                    &&& dist_b@[w] != u32::MAX
                    &&& dist_f@[w] + dist_b@[w] == best
                },
            forall|w: int|
                0 <= w < v && (#[trigger] dist_f@[w]) != u32::MAX && dist_b@[w] != u32::MAX
                    && dist_f@[w] + dist_b@[w] == best ==> exists|i: int|
                    0 <= i < r@.len() && ((#[trigger] r@[i]) as int) == w,
        decreases n - v,
    {
        let ghost r_pre = r@;
        if dist_f[v] != u32::MAX && dist_b[v] != u32::MAX {
            let total = dist_f[v] as u64 + dist_b[v] as u64;
            if total == best {
                r.push(v as u32);
                proof {
                    assert((r@[r@.len() - 1] as int) == v as int);
                }
            }
        }
        proof {
            assert forall|w: int|
                0 <= w < v && (#[trigger] dist_f@[w]) != u32::MAX && dist_b@[w] != u32::MAX
                    && dist_f@[w] + dist_b@[w] == best implies exists|i: int|
                0 <= i < r@.len() && ((#[trigger] r@[i]) as int) == w by {
                let i0 = choose|i: int| 0 <= i < r_pre.len() && ((#[trigger] r_pre[i]) as int)
                    == w;
                assert((r@[i0] as int) == w);
            }
        }
        v = v + 1;
    }
    r
}

/// One expansion round preserves completeness of the parent records: the
/// new level's nodes receive every qualifying parent, and all other
/// records are untouched.
proof fn lemma_parents_complete_advance(
    g: CsrGraph,
    forward: bool,
    pre: Seq<u32>,
    post: Seq<u32>,
    pre_parents: Seq<Vec<u32>>,
    post_parents: Seq<Vec<u32>>,
    frontier: Seq<u32>,
    depth: u32,
)
    requires
        g.wf(),
        pre.len() == g.node_count(),
        post.len() == pre.len(),
        pre_parents.len() == pre.len(),
        post_parents.len() == pre.len(),
        depth < u32::MAX - 1,
        reached_bounded(pre, depth),
        reached_bounded(post, (depth + 1) as u32),
        level_in_frontier(pre, depth, frontier),
        parents_complete(g, forward, pre, pre_parents),
        forall|v: int| 0 <= v < post.len() && pre[v] != u32::MAX ==> (#[trigger] post[v]) == pre[v],
        forall|v: int|
            0 <= v < post.len() && pre[v] == u32::MAX && (#[trigger] post[v]) != u32::MAX
                ==> post[v] == depth + 1,
        forall|v: int|
            0 <= v < post.len() && (#[trigger] post[v]) != depth + 1 ==> post_parents[v]@
                == pre_parents[v]@,
        forall|i: int, v: int|
            0 <= i < frontier.len() && 0 <= v < g.node_count() && #[trigger] dir_edge(
                g,
                forward,
                frontier[i] as int,
                v,
            ) && post[v] == depth + 1 ==> post_parents[v]@.contains(frontier[i]),
    ensures
        parents_complete(g, forward, post, post_parents),
{
    assert forall|uu: int, vv: int|
        0 <= uu < post.len() && 0 <= vv < post.len() && post[uu] != u32::MAX && post[vv]
            != u32::MAX && post[uu] + 1 == post[vv] && #[trigger] dir_edge(g, forward, uu, vv)
        implies post_parents[vv]@.contains(uu as u32) by {
        if post[vv] == depth + 1 {
            assert(post[uu] == depth);
            assert(pre[uu] == depth);
            assert(frontier_contains(frontier, uu));
            let i = choose|i: int|
                0 <= i < frontier.len() && ((#[trigger] frontier[i]) as int) == uu;
            assert(dir_edge(g, forward, frontier[i] as int, vv));
            assert(post_parents[vv]@.contains(frontier[i]));
            assert(frontier[i] == uu as u32);
        } else {
            assert(post_parents[vv]@ == pre_parents[vv]@);
            assert(post[vv] <= depth);
            assert(pre[vv] == post[vv]);
            assert(pre[uu] == post[uu]);
            assert(pre_parents[vv]@.contains(uu as u32));
        }
    }
}

/// The unvisited set of one direction loses at least the first member of
/// the freshly produced frontier, so it shrinks strictly.
proof fn lemma_unvisited_shrinks(pre: Seq<u32>, post: Seq<u32>, w: int)
    requires
        pre.len() == post.len(),
        forall|v: int| 0 <= v < post.len() && (#[trigger] post[v]) == u32::MAX ==> pre[v]
            == u32::MAX,
        0 <= w < pre.len(),
        pre[w] == u32::MAX,
        post[w] != u32::MAX,
    ensures
        unvisited(post).len() < unvisited(pre).len(),
        unvisited(post).finite(),
        unvisited(pre).finite(),
{
    let n = pre.len() as int;
    lemma_int_range(0, n);
    assert(unvisited(pre).subset_of(set_int_range(0, n)));
    lemma_len_subset(unvisited(pre), set_int_range(0, n));
    assert(unvisited(post).subset_of(unvisited(pre)));
    lemma_len_subset(unvisited(post), unvisited(pre));
    assert(unvisited(pre).contains(w));
    assert(!unvisited(post).contains(w));
    unvisited(post).lemma_subset_not_in_lt(unvisited(pre), w);
}

/// Every shortest path decomposes at a meeting node into a forward parent
/// walk and a backward parent walk, so the collected joins cover it.
#[verifier::rlimit(100)]
/// The split position of a shortest path: the point it passes from the
/// forward search's tree into the backward search's tree, with recorded
/// distances exact on both sides.
#[verifier::spinoff_prover]
#[verifier::rlimit(100)]
proof fn lemma_split_point(
    g: CsrGraph,
    start: u32,
    end: u32,
    dist_f: Seq<u32>,
    dist_b: Seq<u32>,
    depth_f: u32,
    depth_b: u32,
    best: u64,
    p: Seq<u32>,
    q: Seq<u32>,
) -> (isplit: int)
    requires
        dist_f.len() == g.node_count(),
        dist_b.len() == g.node_count(),
        closed_below(g, true, dist_f, depth_f),
        closed_below(g, false, dist_b, depth_b),
        (depth_f as int + depth_b as int >= best as int) || search_closed(g, true, dist_f)
            || search_closed(g, false, dist_b),
        doubly_bounds_best(dist_f, dist_b, best),
        g.is_index_path(p, start, end),
        p.len() == best + 1,
        dist_f[p[0] as int] == 0,
        q.len() == p.len(),
        forall|j: int| 0 <= j < q.len() ==> (#[trigger] q[j]) == p[p.len() - 1 - j],
        dist_b[q[0] as int] == 0,
        forall|j: int|
            0 <= j < p.len() - 1 ==> dir_edge(g, true, (#[trigger] p[j]) as int, p[j + 1] as int),
        forall|j: int|
            0 <= j < q.len() - 1 ==> dir_edge(g, false, (#[trigger] q[j]) as int,
            q[j + 1] as int),
    ensures
        0 <= isplit <= p.len() - 1,
        isplit < u32::MAX,
        p.len() - 1 - isplit < u32::MAX,
        forall|j: int| 0 <= j <= isplit ==> dist_f[(#[trigger] p[j]) as int] == j,
        forall|j: int|
            0 <= j <= p.len() - 1 - isplit ==> dist_b[(#[trigger] q[j]) as int] == j,
{
    let pl = p.len() - 1;
    assert forall|j: int| 0 <= j < q.len() implies ((#[trigger] q[j]) as int) < g.node_count() by {
        assert(q[j] == p[p.len() - 1 - j]);
    }
    let isplit: int = if depth_f as int + depth_b as int >= best as int {
        if pl <= depth_f {
            pl
        } else {
            depth_f as int
        }
    } else if search_closed(g, true, dist_f) {
        pl
    } else {
        0
    };
    assert forall|j: int| 0 <= j <= isplit implies dist_f[(#[trigger] p[j]) as int]
        != u32::MAX && dist_f[p[j] as int] <= j by {
        if depth_f as int + depth_b as int >= best as int {
            lemma_path_prefix_bound(g, true, dist_f, p, depth_f, j);
        } else if search_closed(g, true, dist_f) {
            lemma_path_bound_exhausted(g, true, dist_f, p, j);
        } else {
            assert(j == 0);
        }
    }
    assert forall|j: int| 0 <= j <= pl - isplit implies dist_b[(
    #[trigger] q[j]) as int] != u32::MAX && dist_b[q[j] as int] <= j by {
        if depth_f as int + depth_b as int >= best as int {
            lemma_path_prefix_bound(g, false, dist_b, q, depth_b, j);
        } else if search_closed(g, true, dist_f) {
            assert(j == 0);
        } else {
            lemma_path_bound_exhausted(g, false, dist_b, q, j);
        }
    }
    let x = p[isplit];
    assert(q[pl - isplit] == p[pl - (pl - isplit)]);
    assert(q[pl - isplit] == x);
    assert(dist_f[x as int] != u32::MAX && dist_b[x as int] != u32::MAX);
    assert(best <= dist_f[x as int] + dist_b[x as int]);
    assert(dist_f[x as int] == isplit);
    assert(dist_b[x as int] == pl - isplit);
    assert forall|t: int| 0 <= t < isplit implies dist_f[(#[trigger] p[t + 1]) as int]
        <= dist_f[p[t] as int] + 1 by {
        assert(dir_edge(g, true, p[t] as int, p[t + 1] as int));
        if depth_f as int + depth_b as int >= best as int {
            assert(dist_f[p[t] as int] < depth_f);
        }
    }
    assert forall|t: int| 0 <= t < pl - isplit implies dist_b[(
    #[trigger] q[t + 1]) as int] <= dist_b[q[t] as int] + 1 by {
        assert(dir_edge(g, false, q[t] as int, q[t + 1] as int));
        if depth_f as int + depth_b as int >= best as int {
            assert(dist_b[q[t] as int] < depth_b);
        }
    }
    assert forall|j: int| 0 <= j <= isplit implies dist_f[(#[trigger] p[j]) as int]
        == j by {
        lemma_exact_prefix(dist_f, p, isplit, j);
    }
    assert forall|j: int| 0 <= j <= pl - isplit implies dist_b[(
    #[trigger] q[j]) as int] == j by {
        lemma_exact_prefix(dist_b, q, pl - isplit, j);
    }
    assert(isplit < u32::MAX);
    assert(pl - isplit < u32::MAX);
    isplit
}

/// A walk whose recorded distances are exact at every position follows
/// the recorded parent links, so it is a parent walk to its endpoint.
#[verifier::spinoff_prover]
#[verifier::rlimit(100)]
proof fn lemma_walk_from_exact(
    g: CsrGraph,
    forward: bool,
    origin: u32,
    dist: Seq<u32>,
    parents: Seq<Vec<u32>>,
    w: Seq<u32>,
    hi: int,
)
    requires
        parents_ok(g, forward, origin as int, dist, parents),
        parents_complete(g, forward, dist, parents),
        0 <= hi < w.len(),
        hi < u32::MAX,
        w[0] == origin,
        forall|j: int| 0 <= j < w.len() ==> ((#[trigger] w[j]) as int) < g.node_count(),
        forall|j: int|
            0 <= j < w.len() - 1 ==> dir_edge(g, forward, (#[trigger] w[j]) as int,
            w[j + 1] as int),
        forall|j: int| 0 <= j <= hi ==> dist[(#[trigger] w[j]) as int] == j,
    ensures
        parent_walk(parents, origin as int, w[hi], w.subrange(0, hi + 1)),
{
    let pref = w.subrange(0, hi + 1);
    assert forall|j: int| 0 <= j < pref.len() implies ((#[trigger] pref[j]) as int)
        < parents.len() by {
        assert(pref[j] == w[j]);
    }
    assert forall|j: int| 0 <= j < pref.len() - 1 implies parents[(
    #[trigger] pref[j + 1]) as int]@.contains(pref[j]) by {
        assert(pref[j] == w[j] && pref[j + 1] == w[j + 1]);
        assert(dist[w[j] as int] == j && dist[w[j + 1] as int] == j + 1);
        assert(dir_edge(g, forward, w[j] as int, w[j + 1] as int));
        assert(parents[w[j + 1] as int]@.contains(w[j]));
    }
    assert(pref[0] == w[0]);
    assert(pref[pref.len() - 1] == w[hi]);
}

/// The edges of a forward path, and of its reversal read over the
/// transposed adjacency.
#[verifier::spinoff_prover]
#[verifier::rlimit(100)]
proof fn lemma_reverse_path_edges(g: CsrGraph, start: u32, end: u32, p: Seq<u32>, q: Seq<u32>)
    requires
        g.wf(),
        g.is_index_path(p, start, end),
        q.len() == p.len(),
        forall|j: int| 0 <= j < q.len() ==> (#[trigger] q[j]) == p[p.len() - 1 - j],
    ensures
        forall|j: int|
            0 <= j < p.len() - 1 ==> dir_edge(g, true, (#[trigger] p[j]) as int, p[j + 1] as int),
        forall|j: int|
            0 <= j < q.len() - 1 ==> dir_edge(g, false, (#[trigger] q[j]) as int,
            q[j + 1] as int),
{
    assert forall|j: int| 0 <= j < p.len() - 1 implies dir_edge(g, true, (#[trigger] p[j]) as int,
        p[j + 1] as int) by {
        assert(g.edge(p[j] as int, p[j + 1] as int));
    }
    assert forall|j: int| 0 <= j < q.len() - 1 implies dir_edge(g, false, (
    #[trigger] q[j]) as int, q[j + 1] as int) by {
        let jj = p.len() - 2 - j;
        assert(q[j] == p[jj + 1]);
        assert(q[j + 1] == p[jj]);
        assert(g.edge(p[jj] as int, p[jj + 1] as int));
        assert(g.rev_edge(p[jj + 1] as int, p[jj] as int));
    }
}

/// One shortest path decomposes at a meeting node into a forward parent
/// walk and a backward parent walk, so its join was collected.
#[verifier::spinoff_prover]
#[verifier::rlimit(100)]
proof fn lemma_one_shortest_covered(
    g: CsrGraph,
    start: u32,
    end: u32,
    dist_f: Seq<u32>,
    dist_b: Seq<u32>,
    parents_f: Seq<Vec<u32>>,
    parents_b: Seq<Vec<u32>>,
    depth_f: u32,
    depth_b: u32,
    best: u64,
    meeting_all: Seq<u32>,
    result: Seq<Vec<u32>>,
    p: Seq<u32>,
    q: Seq<u32>,
)
    requires
        (start as int) < g.node_count(),
        (end as int) < g.node_count(),
        start != end,
        parents_ok(g, true, start as int, dist_f, parents_f),
        parents_ok(g, false, end as int, dist_b, parents_b),
        parents_complete(g, true, dist_f, parents_f),
        parents_complete(g, false, dist_b, parents_b),
        closed_below(g, true, dist_f, depth_f),
        closed_below(g, false, dist_b, depth_b),
        (depth_f as int + depth_b as int >= best as int) || search_closed(g, true, dist_f)
            || search_closed(g, false, dist_b),
        doubly_bounds_best(dist_f, dist_b, best),
        dist_f[start as int] == 0,
        dist_b[end as int] == 0,
        forall|v: int|
            0 <= v < dist_f.len() && (#[trigger] dist_f[v]) != u32::MAX && dist_b[v] != u32::MAX
                && dist_f[v] + dist_b[v] == best ==> exists|i: int|
                0 <= i < meeting_all.len() && ((#[trigger] meeting_all[i]) as int) == v,
        forall|mm: int, pf: Seq<u32>, pb: Seq<u32>|
            #![trigger parent_walk(parents_f, start as int, meeting_all[mm], pf), parent_walk(parents_b, end as int, meeting_all[mm], pb)]
            0 <= mm < meeting_all.len() && parent_walk(parents_f, start as int, meeting_all[mm],
            pf) && parent_walk(parents_b, end as int, meeting_all[mm], pb) ==> combo_present(
                result,
                pf,
                pb,
            ),
        g.is_index_path(p, start, end),
        p.len() == best + 1,
        q.len() == p.len(),
        forall|j: int| 0 <= j < q.len() ==> (#[trigger] q[j]) == p[p.len() - 1 - j],
        forall|j: int|
            0 <= j < p.len() - 1 ==> dir_edge(g, true, (#[trigger] p[j]) as int, p[j + 1] as int),
        forall|j: int|
            0 <= j < q.len() - 1 ==> dir_edge(g, false, (#[trigger] q[j]) as int,
            q[j + 1] as int),
    ensures
        exists|i: int| 0 <= i < result.len() && (#[trigger] result[i])@ == p,
{
            let pl = p.len() - 1;
            assert(q[0] == p[p.len() - 1]);
            assert(dist_b[q[0] as int] == 0);
            assert(dist_f[p[0] as int] == 0);
            let isplit = lemma_split_point(g, start, end, dist_f, dist_b, depth_f,
                depth_b, best, p, q);
            let x = p[isplit];
            assert(dist_f[x as int] == isplit);
            assert(q[pl - isplit] == p[pl - (pl - isplit)]);
            assert(q[pl - isplit] == x);
            assert(dist_b[x as int] == pl - isplit);
            lemma_walk_from_exact(g, true, start, dist_f, parents_f, p, isplit);
            lemma_walk_from_exact(g, false, end, dist_b, parents_b, q, pl - isplit);
            let pref = p.subrange(0, isplit + 1);
            let suf = q.subrange(0, pl - isplit + 1);
            assert(parent_walk(parents_f, start as int, x, pref));
            assert(parent_walk(parents_b, end as int, x, suf));
            assert((x as int) < g.node_count() && dist_f[x as int] + dist_b[x as int] == best);
            let mm = choose|i: int|
                0 <= i < meeting_all.len() && ((#[trigger] meeting_all[i]) as int) == x as int;
            assert(meeting_all[mm] == x);
            assert(parent_walk(parents_f, start as int, meeting_all[mm], pref));
            assert(parent_walk(parents_b, end as int, meeting_all[mm], suf));
            assert(combo_present(result, pref, suf));
            let idx = choose|i: int|
                0 <= i < result.len() && (#[trigger] result[i])@ == combined(pref, suf);
            assert(combined(pref, suf).len() == p.len());
            assert forall|t: int| 0 <= t < p.len() implies combined(pref, suf)[t] == p[t] by {
                if t <= isplit {
                    assert(combined(pref, suf)[t] == pref[t]);
                    assert(pref[t] == p[t]);
                } else {
                    assert(combined(pref, suf)[t] == suf[suf.len() - 2 - (t - pref.len())]);
                    assert(suf[pl - t] == q[pl - t]);
                    assert(q[pl - t] == p[pl - (pl - t)]);
                }
            }
            assert(combined(pref, suf) =~= p);
            assert(result[idx]@ == p);
}

proof fn lemma_all_shortest_covered(
    g: CsrGraph,
    start: u32,
    end: u32,
    dist_f: Seq<u32>,
    dist_b: Seq<u32>,
    parents_f: Seq<Vec<u32>>,
    parents_b: Seq<Vec<u32>>,
    depth_f: u32,
    depth_b: u32,
    best: u64,
    meeting_all: Seq<u32>,
    result: Seq<Vec<u32>>,
)
    requires
        g.wf(),
        (start as int) < g.node_count(),
        (end as int) < g.node_count(),
        start != end,
        parents_ok(g, true, start as int, dist_f, parents_f),
        parents_ok(g, false, end as int, dist_b, parents_b),
        parents_complete(g, true, dist_f, parents_f),
        parents_complete(g, false, dist_b, parents_b),
        closed_below(g, true, dist_f, depth_f),
        closed_below(g, false, dist_b, depth_b),
        (depth_f as int + depth_b as int >= best as int) || search_closed(g, true, dist_f)
            || search_closed(g, false, dist_b),
        doubly_bounds_best(dist_f, dist_b, best),
        dist_f[start as int] == 0,
        dist_b[end as int] == 0,
        forall|v: int|
            0 <= v < dist_f.len() && (#[trigger] dist_f[v]) != u32::MAX && dist_b[v] != u32::MAX
                && dist_f[v] + dist_b[v] == best ==> exists|i: int|
                0 <= i < meeting_all.len() && ((#[trigger] meeting_all[i]) as int) == v,
        forall|mm: int, pf: Seq<u32>, pb: Seq<u32>|
            #![trigger parent_walk(parents_f, start as int, meeting_all[mm], pf), parent_walk(parents_b, end as int, meeting_all[mm], pb)]
            0 <= mm < meeting_all.len() && parent_walk(parents_f, start as int, meeting_all[mm],
            pf) && parent_walk(parents_b, end as int, meeting_all[mm], pb) ==> combo_present(
                result,
                pf,
                pb,
            ),
    ensures
        forall|p: Seq<u32>|
            #[trigger] g.is_index_path(p, start, end) && p.len() == best + 1 ==> exists|i: int|
                0 <= i < result.len() && (#[trigger] result[i])@ == p,
{
    assert forall|p: Seq<u32>|
        #[trigger] g.is_index_path(p, start, end) && p.len() == best + 1 implies exists|i: int|
        0 <= i < result.len() && (#[trigger] result[i])@ == p by {
        let q = Seq::new(p.len(), |i: int| p[p.len() - 1 - i]);
        lemma_reverse_path_edges(g, start, end, p, q);
        lemma_one_shortest_covered(g, start, end, dist_f, dist_b, parents_f, parents_b, depth_f,
            depth_b, best, meeting_all, result, p, q);
    }
}

/// All shortest paths between two distinct internal node indices, as
/// sequences of indices. Every returned path is a real forward path from
/// `start` to `end`, all returned paths have the same length, no real
/// path is shorter than a returned one, and no path is listed twice. The
/// collection is empty exactly when no path from `start` to `end` exists.
#[verifier::rlimit(100)]
pub fn search_index_paths(g: &CsrGraph, start: u32, end: u32) -> (r: Vec<Vec<u32>>)
    requires
        g.wf(),
        (start as int) < g.node_count(),
        (end as int) < g.node_count(),
        start != end,
    ensures
        forall|i: int| 0 <= i < r@.len() ==> g.is_index_path((#[trigger] r@[i])@, start, end),
        forall|i: int, j: int| 0 <= i < j < r@.len() ==> r@[i]@ != r@[j]@,
        forall|i: int, j: int|
            0 <= i < r@.len() && 0 <= j < r@.len() ==> (#[trigger] r@[i])@.len() == (
            #[trigger] r@[j])@.len(),
        g.edge(start as int, end as int) ==> r@.len() >= 1,
        (exists|p: Seq<u32>| #[trigger] g.is_index_path(p, start, end)) ==> r@.len() >= 1,
        r@.len() > 0 ==> forall|p: Seq<u32>|
            #[trigger] g.is_index_path(p, start, end) ==> p.len() >= r@[0]@.len(),
        r@.len() > 0 ==> forall|p: Seq<u32>|
            #[trigger] g.is_index_path(p, start, end) && p.len() == r@[0]@.len()
                ==> exists|i: int| 0 <= i < r@.len() && (#[trigger] r@[i])@ == p,
{
    let n = g.offsets.len() - 1;
    let mut dist_f = filled(n, u32::MAX);
    let mut dist_b = filled(n, u32::MAX);
    dist_f[start as usize] = 0;
    dist_b[end as usize] = 0;
    let mut parents_f = empty_parent_lists(n);
    let mut parents_b = empty_parent_lists(n);
    let mut frontier_f: Vec<u32> = Vec::new();
    frontier_f.push(start);
    let mut frontier_b: Vec<u32> = Vec::new();
    frontier_b.push(end);
    let mut depth_f: u32 = 0;
    let mut depth_b: u32 = 0;
    let mut best: u64 = u64::MAX;
    let mut meeting: Vec<u32> = Vec::new();
    proof {
        assert(frontier_f@[0] == start);
        assert(frontier_b@[0] == end);
        assert(level_inhabited(dist_f@, 0)) by {
            assert(dist_f@[start as int] == 0);
        }
        assert(level_inhabited(dist_b@, 0)) by {
            assert(dist_b@[end as int] == 0);
        }
        assert forall|v: int| 0 <= v < n && dist_f@[v] == 0 implies frontier_contains(
            frontier_f@,
            v,
        ) by {
            assert(v == start as int);
            assert((frontier_f@[0] as int) == v);
        }
        assert forall|v: int| 0 <= v < n && dist_b@[v] == 0 implies frontier_contains(
            frontier_b@,
            v,
        ) by {
            assert(v == end as int);
            assert((frontier_b@[0] as int) == v);
        }
    }
    loop
        invariant
            g.wf(),
            (start as int) < g.node_count(),
            (end as int) < g.node_count(),
            start != end,
            n == g.node_count(),
            dist_f@.len() == n,
            dist_b@.len() == n,
            parents_ok(*g, true, start as int, dist_f@, parents_f@),
            parents_ok(*g, false, end as int, dist_b@, parents_b@),
            frontier_ok(*g, dist_f@, frontier_f@, depth_f),
            frontier_ok(*g, dist_b@, frontier_b@, depth_b),
            meeting_ok(*g, dist_f@, dist_b@, meeting@, best),
            g.edge(start as int, end as int) ==> (best != u64::MAX || (depth_f == 0 && depth_b
                == 0 && frontier_f@.len() >= 1 && frontier_f@[0] == start && frontier_b@.len()
                >= 1 && frontier_b@[0] == end && dist_f@[end as int] == u32::MAX && dist_b@[
                start as int] == u32::MAX)),
            frontier_f@.len() >= 1,
            frontier_b@.len() >= 1,
            reached_bounded(dist_f@, depth_f),
            reached_bounded(dist_b@, depth_b),
            level_in_frontier(dist_f@, depth_f, frontier_f@),
            level_in_frontier(dist_b@, depth_b, frontier_b@),
            closed_below(*g, true, dist_f@, depth_f),
            closed_below(*g, false, dist_b@, depth_b),
            doubly_reached_meets(dist_f@, dist_b@, best),
            doubly_bounds_best(dist_f@, dist_b@, best),
            parents_complete(*g, true, dist_f@, parents_f@),
            parents_complete(*g, false, dist_b@, parents_b@),
            levels_inhabited(dist_f@, depth_f),
            levels_inhabited(dist_b@, depth_b),
        ensures
            dist_f@.len() == n,
            dist_b@.len() == n,
            parents_ok(*g, true, start as int, dist_f@, parents_f@),
            parents_ok(*g, false, end as int, dist_b@, parents_b@),
            meeting_ok(*g, dist_f@, dist_b@, meeting@, best),
            g.edge(start as int, end as int) ==> best != u64::MAX,
            doubly_reached_meets(dist_f@, dist_b@, best),
            doubly_bounds_best(dist_f@, dist_b@, best),
            reached_bounded(dist_f@, depth_f),
            reached_bounded(dist_b@, depth_b),
            closed_below(*g, true, dist_f@, depth_f),
            closed_below(*g, false, dist_b@, depth_b),
            dist_f@[start as int] == 0,
            dist_b@[end as int] == 0,
            parents_complete(*g, true, dist_f@, parents_f@),
            parents_complete(*g, false, dist_b@, parents_b@),
            best == u64::MAX ==> search_closed(*g, true, dist_f@) || search_closed(*g, false,
                dist_b@),
            (depth_f as int + depth_b as int >= best as int) || search_closed(*g, true, dist_f@)
                || search_closed(*g, false, dist_b@),
        decreases unvisited(dist_f@).len() + unvisited(dist_b@).len(),
    {
        if frontier_f.len() == 0 || frontier_b.len() == 0 {
            break;
        }
        if depth_f as u64 + depth_b as u64 >= best {
            break;
        }
        proof {
            lemma_depth_below_node_count(dist_f@, depth_f);
            lemma_depth_below_node_count(dist_b@, depth_b);
        }
        if depth_f as usize >= n || depth_b as usize >= n {
            break;
        }
        let ghost pre_f = dist_f@;
        let ghost pre_b = dist_b@;
        let ghost pre_pf = parents_f@;
        let ghost pre_pb = parents_b@;
        let ghost best_pre = best;
        let df = frontier_degree_sum(g, true, &frontier_f);
        let db = frontier_degree_sum(g, false, &frontier_b);
        if df <= db {
            let next = expand_level(g, true, Ghost(start as int), depth_f, &frontier_f,
                &mut dist_f, &mut parents_f, &dist_b, &mut best, &mut meeting);
            proof {
                if g.edge(start as int, end as int) && best_pre == u64::MAX {
                    assert(dir_edge(*g, true, frontier_f@[0] as int, end as int));
                    assert(pre_f[end as int] == u32::MAX);
                    assert(dist_f@[end as int] != u32::MAX);
                    assert(dist_b@[end as int] == 0);
                    assert(best != u64::MAX);
                    assert(next@.len() >= 1);
                }
            }
            if next.len() == 0 {
                proof {
                    lemma_exhausted_closed(*g, true, pre_f, dist_f@, frontier_f@, next@, depth_f);
                    assert(parents_complete(*g, true, dist_f@, parents_f@)) by {
                        assert forall|uu: int, vv: int|
                            0 <= uu < n && 0 <= vv < n && dist_f@[uu] != u32::MAX && dist_f@[vv]
                                != u32::MAX && dist_f@[uu] + 1 == dist_f@[vv] && #[trigger] dir_edge(
                                *g,
                                true,
                                uu,
                                vv,
                            ) implies parents_f@[vv]@.contains(uu as u32) by {
                            assert(dist_f@[vv] != depth_f + 1);
                            assert(parents_f@[vv]@ == pre_pf[vv]@);
                            assert(pre_pf[vv]@.contains(uu as u32));
                        }
                    }
                }
                break;
            }
            proof {
                lemma_unvisited_shrinks(pre_f, dist_f@, next@[0] as int);
                assert(unvisited(dist_b@) =~= unvisited(pre_b));
                lemma_round_advance(*g, true, pre_f, dist_f@, frontier_f@, next@, depth_f,
                    dist_b@, best_pre, best);
                assert forall|v: int|
                    0 <= v < n && pre_f[v] == u32::MAX && (#[trigger] dist_f@[v]) != u32::MAX
                    implies dist_f@[v] == depth_f + 1 by {
                    let i = choose|i: int|
                        0 <= i < next@.len() && ((#[trigger] next@[i]) as int) == v;
                    assert(dist_f@[next@[i] as int] == depth_f + 1);
                }
                lemma_parents_complete_advance(*g, true, pre_f, dist_f@, pre_pf, parents_f@,
                    frontier_f@, depth_f);
            }
            frontier_f = next;
            depth_f = depth_f + 1;
        } else {
            let next = expand_level(g, false, Ghost(end as int), depth_b, &frontier_b, &mut dist_b,
                &mut parents_b, &dist_f, &mut best, &mut meeting);
            proof {
                if g.edge(start as int, end as int) && best_pre == u64::MAX {
                    assert(g.rev_edge(end as int, start as int));
                    assert(dir_edge(*g, false, frontier_b@[0] as int, start as int));
                    assert(pre_b[start as int] == u32::MAX);
                    assert(dist_b@[start as int] != u32::MAX);
                    assert(dist_f@[start as int] == 0);
                    assert(best != u64::MAX);
                    assert(next@.len() >= 1);
                }
            }
            if next.len() == 0 {
                proof {
                    lemma_exhausted_closed(*g, false, pre_b, dist_b@, frontier_b@, next@, depth_b);
                    assert(parents_complete(*g, false, dist_b@, parents_b@)) by {
                        assert forall|uu: int, vv: int|
                            0 <= uu < n && 0 <= vv < n && dist_b@[uu] != u32::MAX && dist_b@[vv]
                                != u32::MAX && dist_b@[uu] + 1 == dist_b@[vv] && #[trigger] dir_edge(
                                *g,
                                false,
                                uu,
                                vv,
                            ) implies parents_b@[vv]@.contains(uu as u32) by {
                            assert(dist_b@[vv] != depth_b + 1);
                            assert(parents_b@[vv]@ == pre_pb[vv]@);
                            assert(pre_pb[vv]@.contains(uu as u32));
                        }
                    }
                }
                break;
            }
            proof {
                lemma_unvisited_shrinks(pre_b, dist_b@, next@[0] as int);
                assert(unvisited(dist_f@) =~= unvisited(pre_f));
                assert(meeting_ok(*g, dist_f@, dist_b@, meeting@, best));
                lemma_round_advance(*g, false, pre_b, dist_b@, frontier_b@, next@, depth_b,
                    dist_f@, best_pre, best);
                assert forall|v: int|
                    0 <= v < n && pre_b[v] == u32::MAX && (#[trigger] dist_b@[v]) != u32::MAX
                    implies dist_b@[v] == depth_b + 1 by {
                    let i = choose|i: int|
                        0 <= i < next@.len() && ((#[trigger] next@[i]) as int) == v;
                    assert(dist_b@[next@[i] as int] == depth_b + 1);
                }
                lemma_parents_complete_advance(*g, false, pre_b, dist_b@, pre_pb, parents_b@,
                    frontier_b@, depth_b);
                assert(doubly_reached_meets(dist_f@, dist_b@, best)) by {
                    assert forall|v: int|
                        #![trigger dist_f@[v], dist_b@[v]]
                        0 <= v < n && dist_f@[v] != u32::MAX && dist_b@[v] != u32::MAX implies best
                        != u64::MAX by {
                        assert(dist_b@[v] != u32::MAX && dist_f@[v] != u32::MAX);
                    }
                }
                assert(doubly_bounds_best(dist_f@, dist_b@, best)) by {
                    assert forall|v: int|
                        #![trigger dist_f@[v], dist_b@[v]]
                        0 <= v < n && dist_f@[v] != u32::MAX && dist_b@[v] != u32::MAX implies best
                        <= dist_f@[v] + dist_b@[v] by {
                        assert(dist_b@[v] != u32::MAX && dist_f@[v] != u32::MAX);
                        assert(best <= dist_b@[v] + dist_f@[v]);
                    }
                }
            }
            frontier_b = next;
            depth_b = depth_b + 1;
        }
    }
    let mut result: Vec<Vec<u32>> = Vec::new();
    if meeting.len() == 0 {
        proof {
            assert(best == u64::MAX);
            assert(!g.edge(start as int, end as int));
            if exists|p: Seq<u32>| #[trigger] g.is_index_path(p, start, end) {
                let p = choose|p: Seq<u32>| #[trigger] g.is_index_path(p, start, end);
                assert forall|i: int| 0 <= i < p.len() - 1 implies dir_edge(*g, true, (
                #[trigger] p[i]) as int, p[i + 1] as int) by {
                    assert(g.edge(p[i] as int, p[i + 1] as int));
                }
                if search_closed(*g, true, dist_f@) {
                    lemma_closed_path_reached(*g, true, dist_f@, p);
                    assert(dist_f@[end as int] != u32::MAX);
                    assert(dist_b@[end as int] == 0);
                    assert(dist_f@[end as int] != u32::MAX && dist_b@[end as int] != u32::MAX);
                    assert(false);
                } else {
                    let q = Seq::new(p.len(), |i: int| p[p.len() - 1 - i]);
                    assert forall|i: int| 0 <= i < q.len() implies ((#[trigger] q[i]) as int)
                        < g.node_count() by {
                        assert(q[i] == p[p.len() - 1 - i]);
                    }
                    assert forall|i: int| 0 <= i < q.len() - 1 implies dir_edge(*g, false, (
                    #[trigger] q[i]) as int, q[i + 1] as int) by {
                        let jj = p.len() - 2 - i;
                        assert(q[i] == p[jj + 1]);
                        assert(q[i + 1] == p[jj]);
                        assert(g.edge(p[jj] as int, p[jj + 1] as int));
                        assert(g.rev_edge(p[jj + 1] as int, p[jj] as int));
                    }
                    assert(q[0] == p[p.len() - 1]);
                    assert(dist_b@[q[0] as int] == 0);
                    lemma_closed_path_reached(*g, false, dist_b@, q);
                    assert(q[q.len() - 1] == p[0]);
                    assert(dist_b@[start as int] != u32::MAX);
                    assert(dist_f@[start as int] == 0);
                    assert(dist_f@[start as int] != u32::MAX && dist_b@[start as int]
                        != u32::MAX);
                    assert(false);
                }
            }
        }
        return result;
    }
    let ghost total = best as int;
    proof {
        assert(best != u64::MAX);
        assert forall|p: Seq<u32>| #[trigger] g.is_index_path(p, start, end) implies p.len()
            >= total + 1 by {
            let pl = p.len() - 1;
            if pl < total {
                assert forall|j: int| 0 <= j < p.len() - 1 implies dir_edge(*g, true, (
                #[trigger] p[j]) as int, p[j + 1] as int) by {
                    assert(g.edge(p[j] as int, p[j + 1] as int));
                }
                let q = Seq::new(p.len(), |i: int| p[p.len() - 1 - i]);
                assert forall|j: int| 0 <= j < q.len() implies ((#[trigger] q[j]) as int)
                    < g.node_count() by {
                    assert(q[j] == p[p.len() - 1 - j]);
                }
                assert forall|j: int| 0 <= j < q.len() - 1 implies dir_edge(*g, false, (
                #[trigger] q[j]) as int, q[j + 1] as int) by {
                    let jj = p.len() - 2 - j;
                    assert(q[j] == p[jj + 1]);
                    assert(q[j + 1] == p[jj]);
                    assert(g.edge(p[jj] as int, p[jj + 1] as int));
                    assert(g.rev_edge(p[jj + 1] as int, p[jj] as int));
                }
                assert(q[0] == p[p.len() - 1]);
                assert(dist_b@[q[0] as int] == 0);
                if depth_f as int + depth_b as int >= best as int {
                    if pl <= depth_f {
                        lemma_path_prefix_bound(*g, true, dist_f@, p, depth_f, pl);
                        assert(dist_f@[p[pl] as int] <= pl);
                        assert(p[pl] == end);
                        assert(dist_f@[end as int] != u32::MAX && dist_b@[end as int]
                            != u32::MAX);
                        assert(best <= dist_f@[end as int] + dist_b@[end as int]);
                        assert(false);
                    } else {
                        lemma_path_prefix_bound(*g, true, dist_f@, p, depth_f, depth_f as int);
                        let x = p[depth_f as int];
                        assert(dist_f@[x as int] <= depth_f);
                        let bi = pl - depth_f;
                        assert(bi <= depth_b);
                        assert(q[bi] == p[pl - bi]);
                        assert(q[bi] == x);
                        lemma_path_prefix_bound(*g, false, dist_b@, q, depth_b, bi);
                        assert(dist_b@[x as int] <= bi);
                        assert(dist_f@[x as int] != u32::MAX && dist_b@[x as int] != u32::MAX);
                        assert(best <= dist_f@[x as int] + dist_b@[x as int]);
                        assert(false);
                    }
                } else if search_closed(*g, true, dist_f@) {
                    lemma_path_bound_exhausted(*g, true, dist_f@, p, pl);
                    assert(p[pl] == end);
                    assert(dist_f@[end as int] != u32::MAX && dist_b@[end as int] != u32::MAX);
                    assert(best <= dist_f@[end as int] + dist_b@[end as int]);
                    assert(false);
                } else {
                    lemma_path_bound_exhausted(*g, false, dist_b@, q, pl);
                    assert(q[pl] == p[0]);
                    assert(dist_b@[start as int] <= pl);
                    assert(dist_f@[start as int] != u32::MAX && dist_b@[start as int]
                        != u32::MAX);
                    assert(best <= dist_f@[start as int] + dist_b@[start as int]);
                    assert(false);
                }
            }
        }
    }
    let meeting_all = collect_meeting(&dist_f, &dist_b, best);
    proof {
        assert(meeting_all@.len() >= 1) by {
            assert((meeting@[0] as int) < n);
            assert(dist_f@[meeting@[0] as int] != u32::MAX);
            assert(dist_b@[meeting@[0] as int] != u32::MAX);
            assert(dist_f@[meeting@[0] as int] + dist_b@[meeting@[0] as int] == best);
        }
    }
    let mut mi: usize = 0;
    while mi < meeting_all.len()
        invariant
            g.wf(),
            (start as int) < g.node_count(),
            (end as int) < g.node_count(),
            start != end,
            n == g.node_count(),
            dist_f@.len() == n,
            dist_b@.len() == n,
            parents_ok(*g, true, start as int, dist_f@, parents_f@),
            parents_ok(*g, false, end as int, dist_b@, parents_b@),
            best as int == total,
            mi <= meeting_all@.len(),
            mi > 0 ==> result@.len() >= 1,
            forall|i: int|
                0 <= i < meeting_all@.len() ==> {
                    let v = (#[trigger] meeting_all@[i]) as int;
                    &&& 0 <= v < n
                    &&& dist_f@[v] != u32::MAX
                    &&& dist_b@[v] != u32::MAX
                    &&& dist_f@[v] + dist_b@[v] == best
                },
            forall|i: int|
                0 <= i < result@.len() ==> g.is_index_path((#[trigger] result@[i])@, start, end),
            forall|i: int| 0 <= i < result@.len() ==> (#[trigger] result@[i])@.len() == total + 1,
            forall|i: int, j: int| 0 <= i < j < result@.len() ==> result@[i]@ != result@[j]@,
            forall|mm: int, pf: Seq<u32>, pb: Seq<u32>|
                #![trigger parent_walk(parents_f@, start as int, meeting_all@[mm], pf), parent_walk(parents_b@, end as int, meeting_all@[mm], pb)]
                0 <= mm < mi && parent_walk(parents_f@, start as int, meeting_all@[mm], pf)
                    && parent_walk(parents_b@, end as int, meeting_all@[mm], pb)
                    ==> combo_present(result@, pf, pb),
        decreases meeting_all@.len() - mi,
    {
        let m = meeting_all[mi];
        proof {
            assert(meeting_all@[mi as int] == m);
            assert(dist_f@[m as int] != u32::MAX && dist_b@[m as int] != u32::MAX);
        }
        let fwd = build_paths(g, true, &dist_f, &parents_f, m, Ghost(start as int));
        let bwd = build_paths(g, false, &dist_b, &parents_b, m, Ghost(end as int));
        let mut a: usize = 0;
        while a < fwd.len()
            invariant
                g.wf(),
                (start as int) < g.node_count(),
                (end as int) < g.node_count(),
                start != end,
                n == g.node_count(),
                a <= fwd@.len(),
                fwd@.len() >= 1,
                bwd@.len() >= 1,
                a > 0 ==> result@.len() >= 1,
                forall|i: int|
                    0 <= i < fwd@.len() ==> path_to(*g, true, dist_f@, (#[trigger] fwd@[i])@,
                    start as int, m),
                forall|i: int|
                    0 <= i < bwd@.len() ==> path_to(*g, false, dist_b@, (#[trigger] bwd@[i])@,
                    end as int, m),
                (m as int) < g.node_count(),
                dist_f@[m as int] != u32::MAX,
                dist_b@[m as int] != u32::MAX,
                dist_f@[m as int] + dist_b@[m as int] == total,
                forall|i: int|
                    0 <= i < result@.len() ==> g.is_index_path((#[trigger] result@[i])@, start,
                    end),
                forall|i: int|
                    0 <= i < result@.len() ==> (#[trigger] result@[i])@.len() == total + 1,
                forall|i: int, j: int| 0 <= i < j < result@.len() ==> result@[i]@ != result@[j]@,
                forall|mm: int, pf: Seq<u32>, pb: Seq<u32>|
                    #![trigger parent_walk(parents_f@, start as int, meeting_all@[mm], pf), parent_walk(parents_b@, end as int, meeting_all@[mm], pb)]
                    0 <= mm < mi && parent_walk(parents_f@, start as int, meeting_all@[mm], pf)
                        && parent_walk(parents_b@, end as int, meeting_all@[mm], pb)
                        ==> combo_present(result@, pf, pb),
                forall|aa: int, cc: int|
                    #![trigger fwd@[aa], bwd@[cc]]
                    0 <= aa < fwd@.len() && 0 <= cc < bwd@.len() && aa < a ==> combo_present(
                        result@,
                        fwd@[aa]@,
                        bwd@[cc]@,
                    ),
            decreases fwd@.len() - a,
        {
            let mut c: usize = 0;
            while c < bwd.len()
                invariant
                    g.wf(),
                    (start as int) < g.node_count(),
                    (end as int) < g.node_count(),
                    start != end,
                    n == g.node_count(),
                    c <= bwd@.len(),
                    a < fwd@.len(),
                    a > 0 || c > 0 ==> result@.len() >= 1,
                    forall|i: int|
                        0 <= i < fwd@.len() ==> path_to(*g, true, dist_f@, (#[trigger] fwd@[i])@,
                        start as int, m),
                    forall|i: int|
                        0 <= i < bwd@.len() ==> path_to(*g, false, dist_b@, (#[trigger] bwd@[i])@,
                        end as int, m),
                    (m as int) < g.node_count(),
                    dist_f@[m as int] != u32::MAX,
                    dist_b@[m as int] != u32::MAX,
                    dist_f@[m as int] + dist_b@[m as int] == total,
                    forall|i: int|
                        0 <= i < result@.len() ==> g.is_index_path((#[trigger] result@[i])@, start,
                        end),
                    forall|i: int|
                        0 <= i < result@.len() ==> (#[trigger] result@[i])@.len() == total + 1,
                    forall|i: int, j: int|
                        0 <= i < j < result@.len() ==> result@[i]@ != result@[j]@,
                    forall|mm: int, pf: Seq<u32>, pb: Seq<u32>|
                        #![trigger parent_walk(parents_f@, start as int, meeting_all@[mm], pf), parent_walk(parents_b@, end as int, meeting_all@[mm], pb)]
                        0 <= mm < mi && parent_walk(parents_f@, start as int, meeting_all@[mm],
                        pf) && parent_walk(parents_b@, end as int, meeting_all@[mm], pb)
                            ==> combo_present(result@, pf, pb),
                    forall|aa: int, cc: int|
                        #![trigger fwd@[aa], bwd@[cc]]
                        0 <= aa < fwd@.len() && 0 <= cc < bwd@.len() && (aa < a || (aa == a && cc
                            < c)) ==> combo_present(result@, fwd@[aa]@, bwd@[cc]@),
                decreases bwd@.len() - c,
            {
                proof {
                    let fs = fwd@[a as int]@;
                    let bs = bwd@[c as int]@;
                    assert forall|j: int| 0 <= j < fs.len() - 1 implies #[trigger] g.edge(
                        fs[j] as int, fs[j + 1] as int) by {
                        assert(dir_edge(*g, true, fs[j] as int, fs[j + 1] as int));
                    }
                    assert forall|j: int| 0 <= j < bs.len() - 1 implies #[trigger] g.rev_edge(
                        bs[j] as int, bs[j + 1] as int) by {
                        assert(dir_edge(*g, false, bs[j] as int, bs[j + 1] as int));
                    }
                }
                let p = combine(g, &fwd[a], &bwd[c]);
                proof {
                    let fs = fwd@[a as int]@;
                    let bs = bwd@[c as int]@;
                    assert(fs[fs.len() - 1] == m && bs[bs.len() - 1] == m);
                    assert(p@.len() == total + 1);
                    assert(p@[0] == start && p@[p@.len() - 1] == end);
                    assert(g.is_index_path(p@, start, end));
                }
                let ghost res_pre = result@;
                if !contains_path(&result, &p) {
                    result.push(p);
                }
                proof {
                    assert(combo_present(result@, fwd@[a as int]@, bwd@[c as int]@)) by {
                        if result@.len() > res_pre.len() {
                            assert(result@[result@.len() - 1]@ == p@);
                        } else {
                            let i0 = choose|i: int|
                                0 <= i < res_pre.len() && (#[trigger] res_pre[i])@ == p@;
                            assert(result@[i0]@ == p@);
                        }
                    }
                    assert forall|pf: Seq<u32>, pb: Seq<u32>| combo_present(res_pre, pf, pb)
                        implies #[trigger] combo_present(result@, pf, pb) by {
                        let i0 = choose|i: int|
                            0 <= i < res_pre.len() && (#[trigger] res_pre[i])@ == combined(pf,
                            pb);
                        assert(result@[i0]@ == combined(pf, pb));
                    }
                }
                c = c + 1;
            }
            a = a + 1;
        }
        proof {
            assert forall|mm: int, pf: Seq<u32>, pb: Seq<u32>|
                #![trigger parent_walk(parents_f@, start as int, meeting_all@[mm], pf), parent_walk(parents_b@, end as int, meeting_all@[mm], pb)]
                0 <= mm < mi + 1 && parent_walk(parents_f@, start as int, meeting_all@[mm], pf)
                    && parent_walk(parents_b@, end as int, meeting_all@[mm], pb)
                implies combo_present(result@, pf, pb) by {
                if mm == mi {
                    assert(meeting_all@[mm] == m);
                    assert(parent_walk(parents_f@, start as int, m, pf));
                    assert(parent_walk(parents_b@, end as int, m, pb));
                    let aa = choose|i: int| 0 <= i < fwd@.len() && (#[trigger] fwd@[i])@ == pf;
                    let cc = choose|i: int| 0 <= i < bwd@.len() && (#[trigger] bwd@[i])@ == pb;
                    assert(combo_present(result@, fwd@[aa]@, bwd@[cc]@));
                }
            }
        }
        mi = mi + 1;
    }
    proof {
        lemma_all_shortest_covered(*g, start, end, dist_f@, dist_b@, parents_f@, parents_b@,
            depth_f, depth_b, best, meeting_all@, result@);
    }
    result
}

/// The external ids of the nodes along an index path.
pub open spec fn ids_of(g: CsrGraph, q: Seq<u32>) -> Seq<u32> {
    Seq::new(q.len(), |j: int| g.index_to_page_id@[q[j] as int])
}

/// Because the id maps are mutual inverses, distinct index paths map to
/// distinct id paths.
proof fn lemma_ids_of_injective(g: CsrGraph, q1: Seq<u32>, q2: Seq<u32>)
    requires
        g.wf(),
        forall|j: int| 0 <= j < q1.len() ==> ((#[trigger] q1[j]) as int) < g.node_count(),
        forall|j: int| 0 <= j < q2.len() ==> ((#[trigger] q2[j]) as int) < g.node_count(),
        ids_of(g, q1) == ids_of(g, q2),
    ensures
        q1 == q2,
{
    assert(ids_of(g, q1).len() == q1.len());
    assert(ids_of(g, q2).len() == q2.len());
    assert(q1.len() == q2.len());
    assert forall|j: int| 0 <= j < q1.len() implies q1[j] == q2[j] by {
        assert(ids_of(g, q1)[j] == g.index_to_page_id@[q1[j] as int]);
        assert(ids_of(g, q2)[j] == g.index_to_page_id@[q2[j] as int]);
        let a = g.index_to_page_id@[q1[j] as int];
        assert(g.page_id_to_index@.contains_key(a) && g.page_id_to_index@[a] == q1[j]);
        assert(g.page_id_to_index@[g.index_to_page_id@[q2[j] as int]] == q2[j]);
    }
    assert(q1 =~= q2);
}

/// Translate one index path into external page ids.
fn map_path_to_ids(g: &CsrGraph, p: &Vec<u32>) -> (r: Vec<u32>)
    requires
        g.wf(),
        forall|j: int| 0 <= j < p@.len() ==> ((#[trigger] p@[j]) as int) < g.node_count(),
    ensures
        r@ == ids_of(*g, p@),
{
    let mut r: Vec<u32> = Vec::new();
    let mut i: usize = 0;
    while i < p.len()
        invariant
            g.wf(),
            forall|j: int| 0 <= j < p@.len() ==> ((#[trigger] p@[j]) as int) < g.node_count(),
            i <= p@.len(),
            r@.len() == i,
            forall|j: int| 0 <= j < i ==> (#[trigger] r@[j]) == g.index_to_page_id@[p@[j] as int],
        decreases p@.len() - i,
    {
        r.push(g.index_to_page_id[p[i] as usize]);
        i = i + 1;
    }
    proof {
        assert(r@ =~= ids_of(*g, p@));
    }
    r
}

/// An id-space path between two known, distinct pages translates, page by
/// page, into an index-space path between their indices.
proof fn lemma_id_path_to_index_path(g: CsrGraph, p: Seq<u32>, a: u32, b: u32)
    requires
        g.wf(),
        g.id_known(a),
        g.id_known(b),
        a != b,
        g.is_id_path(p, a, b),
    ensures
        g.is_index_path(
            Seq::new(p.len(), |i: int| g.page_id_to_index@[p[i]]),
            g.page_id_to_index@[a],
            g.page_id_to_index@[b],
        ),
        forall|j: int| 0 <= j < p.len() ==> g.id_known(#[trigger] p[j]),
{
    let q = Seq::new(p.len(), |i: int| g.page_id_to_index@[p[i]]);
    if p.len() == 1 {
        assert(a == b);
        assert(false);
    }
    assert forall|i: int| 0 <= i < p.len() implies g.id_known(#[trigger] p[i]) by {
        if i < p.len() - 1 {
            assert(g.id_edge(p[i], p[i + 1]));
        } else {
            let j = i - 1;
            assert(g.id_edge(p[j], p[j + 1]));
        }
    }
    assert forall|i: int| 0 <= i < q.len() implies ((#[trigger] q[i]) as int) < g.node_count() by {
        assert(g.id_known(p[i]));
        assert(q[i] == g.page_id_to_index@[p[i]]);
    }
    assert forall|i: int| 0 <= i < q.len() - 1 implies #[trigger] g.edge(q[i] as int,
        q[i + 1] as int) by {
        assert(g.id_edge(p[i], p[i + 1]));
        assert(q[i] == g.page_id_to_index@[p[i]]);
        assert(q[i + 1] == g.page_id_to_index@[p[i + 1]]);
    }
    assert(q[0] == g.page_id_to_index@[a]);
    assert(q[q.len() - 1] == g.page_id_to_index@[b]);
}

/// All shortest paths from `start_page_id` to `end_page_id`, written in
/// external page ids.
///
/// An unknown endpoint yields the empty collection, and so does an
/// unreachable one; between known pages the collection is empty only if
/// the target is truly unreachable. A query from a known page to itself
/// yields exactly the one-node path. Every returned path runs from the
/// source id to the target id along forward edges of the graph, all
/// returned paths share one length, no real path between the two pages is
/// shorter than that, and no path is returned twice.
#[verifier::rlimit(100)]
pub fn find_all_shortest_paths(g: &CsrGraph, start_page_id: u32, end_page_id: u32) -> (r: Vec<
    Vec<u32>,
>)
    requires
        g.wf(),
    ensures
        !g.id_known(start_page_id) || !g.id_known(end_page_id) ==> r@.len() == 0,
        g.id_known(start_page_id) && start_page_id == end_page_id ==> r@.len() == 1 && r@[0]@
            =~= seq![start_page_id],
        forall|i: int|
            0 <= i < r@.len() ==> g.is_id_path((#[trigger] r@[i])@, start_page_id, end_page_id),
        forall|i: int, j: int| 0 <= i < j < r@.len() ==> r@[i]@ != r@[j]@,
        forall|i: int, j: int|
            0 <= i < r@.len() && 0 <= j < r@.len() ==> (#[trigger] r@[i])@.len() == (
            #[trigger] r@[j])@.len(),
        !g.reachable(start_page_id, end_page_id) ==> r@.len() == 0,
        g.id_edge(start_page_id, end_page_id) ==> r@.len() >= 1,
        g.id_known(start_page_id) && g.id_known(end_page_id) && g.reachable(
            start_page_id,
            end_page_id,
        ) ==> r@.len() >= 1,
        r@.len() > 0 ==> forall|p: Seq<u32>|
            #[trigger] g.is_id_path(p, start_page_id, end_page_id) ==> p.len() >= r@[0]@.len(),
        r@.len() > 0 ==> forall|p: Seq<u32>|
            #[trigger] g.is_id_path(p, start_page_id, end_page_id) && p.len() == r@[0]@.len()
                ==> exists|i: int| 0 <= i < r@.len() && (#[trigger] r@[i])@ == p,
{
    let mut out: Vec<Vec<u32>> = Vec::new();
    let start_idx = match g.lookup_index(start_page_id) {
        Some(i) => i,
        None => {
            return out;
        },
    };
    let end_idx = match g.lookup_index(end_page_id) {
        Some(i) => i,
        None => {
            return out;
        },
    };
    if start_idx == end_idx {
        proof {
            assert(g.index_to_page_id@[g.page_id_to_index@[start_page_id] as int]
                == start_page_id);
            assert(g.index_to_page_id@[g.page_id_to_index@[end_page_id] as int] == end_page_id);
            assert(start_page_id == end_page_id);
        }
        let mut p: Vec<u32> = Vec::new();
        p.push(start_page_id);
        out.push(p);
        proof {
            assert(out@[0]@ =~= seq![start_page_id]);
            assert(g.is_id_path(out@[0]@, start_page_id, end_page_id));
            assert(g.reachable(start_page_id, end_page_id));
            assert forall|p: Seq<u32>|
                #[trigger] g.is_id_path(p, start_page_id, end_page_id) && p.len()
                    == out@[0]@.len() implies exists|i: int|
                0 <= i < out@.len() && (#[trigger] out@[i])@ == p by {
                assert(p =~= out@[0]@);
            }
        }
        return out;
    }
    proof {
        assert(g.page_id_to_index@[start_page_id] != g.page_id_to_index@[end_page_id]);
        assert(start_page_id != end_page_id);
    }
    let index_paths = search_index_paths(g, start_idx, end_idx);
    let mut i: usize = 0;
    while i < index_paths.len()
        invariant
            g.wf(),
            g.id_known(start_page_id),
            g.id_known(end_page_id),
            start_idx == g.page_id_to_index@[start_page_id],
            end_idx == g.page_id_to_index@[end_page_id],
            forall|k: int|
                0 <= k < index_paths@.len() ==> g.is_index_path((#[trigger] index_paths@[k])@,
                start_idx, end_idx),
            forall|k: int, l: int|
                0 <= k < l < index_paths@.len() ==> index_paths@[k]@ != index_paths@[l]@,
            forall|k: int, l: int|
                0 <= k < index_paths@.len() && 0 <= l < index_paths@.len() ==> (
                #[trigger] index_paths@[k])@.len() == (#[trigger] index_paths@[l])@.len(),
            i <= index_paths@.len(),
            out@.len() == i,
            forall|k: int|
                0 <= k < i ==> (#[trigger] out@[k])@ == ids_of(*g, index_paths@[k]@),
            forall|k: int|
                0 <= k < i ==> g.is_id_path((#[trigger] out@[k])@, start_page_id, end_page_id),
            forall|k: int| 0 <= k < i ==> (#[trigger] out@[k])@.len() == index_paths@[k]@.len(),
        decreases index_paths@.len() - i,
    {
        let q = &index_paths[i];
        let p = map_path_to_ids(g, q);
        proof {
            let qs = q@;
            let ps = p@;
            assert(ps.len() == qs.len());
            assert(ps[0] == g.index_to_page_id@[qs[0] as int]);
            assert(g.index_to_page_id@[g.page_id_to_index@[start_page_id] as int]
                == start_page_id);
            assert(ps[0] == start_page_id);
            assert(g.index_to_page_id@[g.page_id_to_index@[end_page_id] as int] == end_page_id);
            assert(ps[ps.len() - 1] == end_page_id);
            assert forall|j: int| 0 <= j < ps.len() - 1 implies #[trigger] g.id_edge(ps[j],
                ps[j + 1]) by {
                assert(g.edge(qs[j] as int, qs[j + 1] as int));
                let a = g.index_to_page_id@[qs[j] as int];
                let b = g.index_to_page_id@[qs[j + 1] as int];
                assert(g.page_id_to_index@.contains_key(a) && g.page_id_to_index@[a] == qs[j]);
                assert(g.page_id_to_index@.contains_key(b) && g.page_id_to_index@[b] == qs[j + 1]);
            }
            assert(g.is_id_path(ps, start_page_id, end_page_id));
        }
        out.push(p);
        i = i + 1;
    }
    proof {
        assert forall|k: int, l: int| 0 <= k < l < out@.len() implies out@[k]@ != out@[l]@ by {
            if out@[k]@ == out@[l]@ {
                lemma_ids_of_injective(*g, index_paths@[k]@, index_paths@[l]@);
            }
        }
        if out@.len() > 0 {
            assert(g.is_id_path(out@[0]@, start_page_id, end_page_id));
            assert(g.reachable(start_page_id, end_page_id));
        }
        if g.reachable(start_page_id, end_page_id) {
            let p = choose|p: Seq<u32>| #[trigger] g.is_id_path(p, start_page_id, end_page_id);
            lemma_id_path_to_index_path(*g, p, start_page_id, end_page_id);
            let q = Seq::new(p.len(), |i: int| g.page_id_to_index@[p[i]]);
            assert(g.is_index_path(q, start_idx, end_idx));
            assert(index_paths@.len() >= 1);
        }
        if out@.len() > 0 {
            assert forall|p: Seq<u32>| #[trigger] g.is_id_path(p, start_page_id, end_page_id)
                implies p.len() >= out@[0]@.len() by {
                lemma_id_path_to_index_path(*g, p, start_page_id, end_page_id);
                let q = Seq::new(p.len(), |i: int| g.page_id_to_index@[p[i]]);
                assert(g.is_index_path(q, start_idx, end_idx));
                assert(q.len() >= index_paths@[0]@.len());
                assert(out@[0]@.len() == index_paths@[0]@.len());
            }
            assert forall|p: Seq<u32>|
                #[trigger] g.is_id_path(p, start_page_id, end_page_id) && p.len()
                    == out@[0]@.len() implies exists|i: int|
                0 <= i < out@.len() && (#[trigger] out@[i])@ == p by {
                lemma_id_path_to_index_path(*g, p, start_page_id, end_page_id);
                let q = Seq::new(p.len(), |i: int| g.page_id_to_index@[p[i]]);
                assert(g.is_index_path(q, start_idx, end_idx));
                assert(q.len() == index_paths@[0]@.len());
                let k = choose|i: int|
                    0 <= i < index_paths@.len() && (#[trigger] index_paths@[i])@ == q;
                assert(out@[k]@ == ids_of(*g, index_paths@[k]@));
                assert forall|t: int| 0 <= t < p.len() implies out@[k]@[t] == p[t] by {
                    assert(ids_of(*g, q)[t] == g.index_to_page_id@[q[t] as int]);
                    assert(q[t] == g.page_id_to_index@[p[t]]);
                    assert(g.id_known(p[t]));
                    assert(g.index_to_page_id@[g.page_id_to_index@[p[t]] as int] == p[t]);
                }
                assert(out@[k]@ =~= p);
            }
        }
    }
    out
}

} // verus!
