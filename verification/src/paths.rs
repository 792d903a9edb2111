//! Reconstruction of all shortest paths from the parent maps produced by
//! the bidirectional search.
//!
//! Reconstruction is a bottom-up fold rather than a recursive parent-chain
//! walk: a pool of partial walks, all ending at the same distance level, is
//! extended one level at a time until every walk reaches the origin, so the
//! depth of the recursion never exceeds the heap-held pool.

use vstd::prelude::*;
use crate::graph::CsrGraph;
use crate::search::{dir_edge, parents_ok};

verus! {

/// A partial reconstruction: a walk recorded from the meeting node `m`
/// backwards toward the origin, whose endpoint currently has distance `d`.
/// Consecutive entries step one distance level down along an edge of the
/// searched direction.
pub open spec fn descending_chain(
    g: CsrGraph,
    forward: bool,
    dist: Seq<u32>,
    q: Seq<u32>,
    m: u32,
    d: u32,
) -> bool {
    &&& q.len() >= 1
    &&& q[0] == m
    &&& forall|j: int| 0 <= j < q.len() ==> ((#[trigger] q[j]) as int) < g.node_count()
    &&& dist[q[q.len() - 1] as int] == d
    &&& q.len() == dist[m as int] - d + 1
    &&& forall|j: int|
        0 <= j < q.len() - 1 ==> #[trigger] dir_edge(g, forward, q[j + 1] as int, q[j] as int)
            && dist[q[j + 1] as int] + 1 == dist[q[j] as int]
}

/// A complete reconstructed walk from the origin of one search direction
/// to the node `m`, using only edges of that direction; its length is
/// fixed by `m`'s distance.
pub open spec fn path_to(
    g: CsrGraph,
    forward: bool,
    dist: Seq<u32>,
    p: Seq<u32>,
    origin: int,
    m: u32,
) -> bool {
    &&& p.len() == dist[m as int] + 1
    &&& p[0] as int == origin
    &&& p[p.len() - 1] == m
    &&& forall|j: int| 0 <= j < p.len() ==> ((#[trigger] p[j]) as int) < g.node_count()
    &&& forall|j: int|
        0 <= j < p.len() - 1 ==> #[trigger] dir_edge(g, forward, p[j] as int, p[j + 1] as int)
}

/// An ascending walk through one direction's parent links: it starts at
/// the search origin, ends at `m`, and each earlier node is a recorded
/// parent of the node after it.
pub open spec fn parent_walk(parents: Seq<Vec<u32>>, origin: int, m: u32, p: Seq<u32>) -> bool {
    &&& p.len() >= 1
    &&& p[0] as int == origin
    &&& p[p.len() - 1] == m
    &&& forall|j: int| 0 <= j < p.len() ==> ((#[trigger] p[j]) as int) < parents.len()
    &&& forall|j: int|
        0 <= j < p.len() - 1 ==> parents[(#[trigger] p[j + 1]) as int]@.contains(p[j])
}

/// The same kind of walk written from `m` downwards, as the
/// reconstruction pool holds it.
pub open spec fn descending_walk(parents: Seq<Vec<u32>>, m: u32, q: Seq<u32>) -> bool {
    &&& q.len() >= 1
    &&& q[0] == m
    &&& forall|j: int| 0 <= j < q.len() ==> ((#[trigger] q[j]) as int) < parents.len()
    &&& forall|j: int|
        0 <= j < q.len() - 1 ==> parents[(#[trigger] q[j]) as int]@.contains(q[j + 1])
}

/// A sequence written in the opposite order.
pub open spec fn seq_rev(q: Seq<u32>) -> Seq<u32> {
    Seq::new(q.len(), |k: int| q[q.len() - 1 - k])
}

/// Under a consistent parent map, an ascending parent walk climbs one
/// distance level per step, so its length is fixed by `m`'s distance.
proof fn lemma_parent_walk_dist(
    g: CsrGraph,
    forward: bool,
    origin: int,
    dist: Seq<u32>,
    parents: Seq<Vec<u32>>,
    p: Seq<u32>,
    m: u32,
    j: int,
)
    requires
        parents_ok(g, forward, origin, dist, parents),
        parent_walk(parents, origin, m, p),
        0 <= j < p.len(),
    ensures
        dist[p[j] as int] != u32::MAX,
        dist[p[j] as int] == j,
    decreases j,
{
    if j == 0 {
        assert(dist[origin] == 0);
    } else {
        lemma_parent_walk_dist(g, forward, origin, dist, parents, p, m, j - 1);
        let jj = j - 1;
        assert(parents[(p[jj + 1]) as int]@.contains(p[jj]));
        let k = choose|k: int|
            0 <= k < parents[p[jj + 1] as int]@.len()
                && (#[trigger] parents[p[jj + 1] as int]@[k]) == p[jj];
        assert(parents[p[jj + 1] as int]@[k] == p[jj]);
        assert(dist[p[jj] as int] + 1 == dist[p[jj + 1] as int]);
    }
}

/// Reversing a descending walk gives the ascending walk and conversely.
proof fn lemma_rev_walk(parents: Seq<Vec<u32>>, origin: int, m: u32, p: Seq<u32>)
    requires
        parent_walk(parents, origin, m, p),
    ensures
        descending_walk(parents, m, seq_rev(p)),
{
    let q = seq_rev(p);
    let len = p.len() as int;
    assert(q[0] == p[len - 1]);
    assert forall|j: int| 0 <= j < q.len() implies ((#[trigger] q[j]) as int) < parents.len() by {
        assert(q[j] == p[len - 1 - j]);
    }
    assert forall|j: int| 0 <= j < q.len() - 1 implies parents[(#[trigger] q[j]) as int]@.contains(
        q[j + 1],
    ) by {
        let jj = len - 2 - j;
        assert(q[j] == p[jj + 1]);
        assert(q[j + 1] == p[jj]);
        assert(parents[(p[jj + 1]) as int]@.contains(p[jj]));
    }
}

/// Copy `q` and append `u`.
fn append_one(q: &Vec<u32>, u: u32) -> (r: Vec<u32>)
    ensures
        r@ == q@.push(u),
{
    let mut r: Vec<u32> = Vec::new();
    let mut i: usize = 0;
    while i < q.len()
        invariant
            i <= q@.len(),
            r@ == q@.subrange(0, i as int),
        decreases q@.len() - i,
    {
        r.push(q[i]);
        proof {
            assert(r@ =~= q@.subrange(0, i + 1));
        }
        i = i + 1;
    }
    r.push(u);
    proof {
        assert(q@.subrange(0, q@.len() as int) =~= q@);
        assert(r@ =~= q@.push(u));
    }
    r
}

/// `q` written in the opposite order.
fn reverse_vec(q: &Vec<u32>) -> (r: Vec<u32>)
    ensures
        r@.len() == q@.len(),
        forall|j: int| 0 <= j < q@.len() ==> (#[trigger] r@[j]) == q@[q@.len() - 1 - j],
{
    let mut r: Vec<u32> = Vec::new();
    let mut i: usize = q.len();
    while i > 0
        invariant
            i <= q@.len(),
            r@.len() == q@.len() - i,
            forall|j: int| 0 <= j < r@.len() ==> (#[trigger] r@[j]) == q@[q@.len() - 1 - j],
        decreases i,
    {
        r.push(q[i - 1]);
        i = i - 1;
    }
    r
}

/// Enumerate every walk from the search origin to `m` recorded in one
/// direction's parent map: each returned walk follows the recorded parent
/// links step by step, every such walk appears, none appears twice, and
/// every walk is a shortest one (its length is `m`'s distance plus one).
#[verifier::loop_isolation(false)]
#[verifier::rlimit(100)]
pub(crate) fn build_paths(
    g: &CsrGraph,
    forward: bool,
    dist: &Vec<u32>,
    parents: &Vec<Vec<u32>>,
    m: u32,
    origin: Ghost<int>,
) -> (r: Vec<Vec<u32>>)
    requires
        g.wf(),
        parents_ok(*g, forward, origin@, dist@, parents@),
        (m as int) < g.node_count(),
        dist@[m as int] != u32::MAX,
    ensures
        r@.len() >= 1,
        forall|i: int|
            0 <= i < r@.len() ==> path_to(*g, forward, dist@, (#[trigger] r@[i])@, origin@, m),
        forall|i: int|
            0 <= i < r@.len() ==> parent_walk(parents@, origin@, m, (#[trigger] r@[i])@),
        forall|i: int, j: int| 0 <= i < j < r@.len() ==> r@[i]@ != r@[j]@,
        forall|p: Seq<u32>|
            #[trigger] parent_walk(parents@, origin@, m, p) ==> exists|i: int|
                0 <= i < r@.len() && (#[trigger] r@[i])@ == p,
{
    let d0 = dist[m as usize];
    let mut partials: Vec<Vec<u32>> = Vec::new();
    let mut first: Vec<u32> = Vec::new();
    first.push(m);
    partials.push(first);
    proof {
        assert(partials@[0]@ =~= seq![m]);
        assert(descending_walk(parents@, m, partials@[0]@));
        assert forall|q: Seq<u32>| #[trigger] descending_walk(parents@, m, q) && q.len() == 1
            implies exists|i: int| 0 <= i < partials@.len() && (#[trigger] partials@[i])@
            == q by {
            assert(q =~= partials@[0]@);
        }
    }
    let mut d = d0;
    while d > 0
        invariant
            d <= d0,
            partials@.len() >= 1,
            forall|i: int|
                0 <= i < partials@.len() ==> descending_chain(*g, forward, dist@, (
                #[trigger] partials@[i])@, m, d),
            forall|i: int|
                0 <= i < partials@.len() ==> descending_walk(parents@, m, (
                #[trigger] partials@[i])@),
            forall|i: int, j: int| 0 <= i < j < partials@.len() ==> partials@[i]@ != partials@[j]@,
            forall|q: Seq<u32>|
                #[trigger] descending_walk(parents@, m, q) && q.len() == d0 - d + 1
                    ==> exists|i: int| 0 <= i < partials@.len() && (#[trigger] partials@[i])@ == q,
        decreases d,
    {
        let ghost lcur = d0 - d + 1;
        let mut nexts: Vec<Vec<u32>> = Vec::new();
        let mut qi: usize = 0;
        while qi < partials.len()
            invariant
                qi <= partials@.len(),
                d > 0,
                qi > 0 ==> nexts@.len() >= 1,
                forall|i: int|
                    0 <= i < nexts@.len() ==> descending_chain(*g, forward, dist@, (
                    #[trigger] nexts@[i])@, m, (d - 1) as u32),
                forall|i: int|
                    0 <= i < nexts@.len() ==> descending_walk(parents@, m, (
                    #[trigger] nexts@[i])@),
                forall|i: int, j: int| 0 <= i < j < nexts@.len() ==> nexts@[i]@ != nexts@[j]@,
                forall|q: Seq<u32>|
                    #[trigger] descending_walk(parents@, m, q) && q.len() == lcur + 1 && (
                    exists|x: int|
                        0 <= x < qi && (#[trigger] partials@[x])@ == q.subrange(
                            0,
                            q.len() - 1,
                        )) ==> exists|i: int|
                        0 <= i < nexts@.len() && (#[trigger] nexts@[i])@ == q,
            decreases partials@.len() - qi,
        {
            let q = &partials[qi];
            let e = q[q.len() - 1];
            proof {
                assert(descending_chain(*g, forward, dist@, q@, m, d));
                assert(dist@[e as int] == d);
                assert(e as int != origin@);
                assert(q@.len() == lcur);
            }
            let plist = &parents[e as usize];
            proof {
                assert(plist@.len() >= 1);
            }
            let mut pj: usize = 0;
            while pj < plist.len()
                invariant
                    pj <= plist@.len(),
                    (qi > 0 || pj > 0) ==> nexts@.len() >= 1,
                    descending_chain(*g, forward, dist@, q@, m, d),
                    descending_walk(parents@, m, q@),
                    q@.len() == lcur,
                    e == q@[q@.len() - 1],
                    plist == &parents[e as int],
                    d > 0,
                    forall|i: int|
                        0 <= i < nexts@.len() ==> descending_chain(*g, forward, dist@, (
                        #[trigger] nexts@[i])@, m, (d - 1) as u32),
                    forall|i: int|
                        0 <= i < nexts@.len() ==> descending_walk(parents@, m, (
                        #[trigger] nexts@[i])@),
                    forall|i: int, j: int| 0 <= i < j < nexts@.len() ==> nexts@[i]@ != nexts@[j]@,
                    forall|q1: Seq<u32>|
                        #[trigger] descending_walk(parents@, m, q1) && q1.len() == lcur + 1 && (
                        exists|x: int|
                            0 <= x < qi && (#[trigger] partials@[x])@ == q1.subrange(
                                0,
                                q1.len() - 1,
                            )) ==> exists|i: int|
                            0 <= i < nexts@.len() && (#[trigger] nexts@[i])@ == q1,
                    forall|q1: Seq<u32>|
                        #[trigger] descending_walk(parents@, m, q1) && q1.len() == lcur + 1 && q@
                            == q1.subrange(0, q1.len() - 1) && (exists|k: int|
                            0 <= k < pj && (#[trigger] plist@[k]) == q1[q1.len() - 1])
                            ==> exists|i: int|
                            0 <= i < nexts@.len() && (#[trigger] nexts@[i])@ == q1,
                decreases plist@.len() - pj,
            {
                let u = plist[pj];
                proof {
                    assert(parents@[e as int]@[pj as int] == u);
                    assert(dist@[u as int] + 1 == dist@[e as int]);
                    assert(dir_edge(*g, forward, u as int, e as int));
                }
                let q2 = append_one(q, u);
                proof {
                    assert(q2@[q2@.len() - 1] == u);
                    assert(q2@[0] == m);
                    assert(descending_chain(*g, forward, dist@, q2@, m, (d - 1) as u32));
                    assert(parents@[e as int]@.contains(u)) by {
                        assert(parents@[e as int]@[pj as int] == u);
                    }
                    assert forall|j: int| 0 <= j < q2@.len() - 1 implies parents@[(
                    #[trigger] q2@[j]) as int]@.contains(q2@[j + 1]) by {
                        if j < q@.len() - 1 {
                            assert(q2@[j] == q@[j] && q2@[j + 1] == q@[j + 1]);
                            assert(parents@[(q@[j]) as int]@.contains(q@[j + 1]));
                        } else {
                            assert(q2@[j] == e && q2@[j + 1] == u);
                        }
                    }
                    assert(descending_walk(parents@, m, q2@));
                }
                let ghost nexts_pre = nexts@;
                if !contains_path(&nexts, &q2) {
                    nexts.push(q2);
                }
                proof {
                    assert(exists|i: int|
                        0 <= i < nexts@.len() && (#[trigger] nexts@[i])@ == q2@) by {
                        if nexts@.len() > nexts_pre.len() {
                            assert(nexts@[nexts@.len() - 1]@ == q2@);
                        } else {
                            let i0 = choose|i: int|
                                0 <= i < nexts_pre.len() && (#[trigger] nexts_pre[i])@ == q2@;
                            assert(nexts@[i0]@ == q2@);
                        }
                    }
                    assert forall|q1: Seq<u32>|
                        #[trigger] descending_walk(parents@, m, q1) && q1.len() == lcur + 1 && (
                        exists|x: int|
                            0 <= x < qi && (#[trigger] partials@[x])@ == q1.subrange(
                                0,
                                q1.len() - 1,
                            )) implies exists|i: int|
                        0 <= i < nexts@.len() && (#[trigger] nexts@[i])@ == q1 by {
                        let i0 = choose|i: int|
                            0 <= i < nexts_pre.len() && (#[trigger] nexts_pre[i])@ == q1;
                        assert(nexts@[i0]@ == q1);
                    }
                    assert forall|q1: Seq<u32>|
                        #[trigger] descending_walk(parents@, m, q1) && q1.len() == lcur + 1 && q@
                            == q1.subrange(0, q1.len() - 1) && (exists|k: int|
                            0 <= k < pj + 1 && (#[trigger] plist@[k]) == q1[q1.len() - 1])
                        implies exists|i: int|
                        0 <= i < nexts@.len() && (#[trigger] nexts@[i])@ == q1 by {
                        let k = choose|k: int|
                            0 <= k < pj + 1 && (#[trigger] plist@[k]) == q1[q1.len() - 1];
                        if k < pj {
                            assert(0 <= k < pj && plist@[k] == q1[q1.len() - 1]);
                            let i0 = choose|i: int|
                                0 <= i < nexts_pre.len() && (#[trigger] nexts_pre[i])@ == q1;
                            assert(nexts@[i0]@ == q1);
                        } else {
                            assert(q1[q1.len() - 1] == u);
                            assert forall|t: int| 0 <= t < q1.len() implies q1[t] == q2@[t] by {
                                if t < q1.len() - 1 {
                                    assert(q1.subrange(0, q1.len() - 1)[t] == q1[t]);
                                }
                            }
                            assert(q1 =~= q2@);
                        }
                    }
                }
                pj = pj + 1;
            }
            qi = qi + 1;
            proof {
                assert forall|q1: Seq<u32>|
                    #[trigger] descending_walk(parents@, m, q1) && q1.len() == lcur + 1 && (
                    exists|x: int|
                        0 <= x < qi && (#[trigger] partials@[x])@ == q1.subrange(
                            0,
                            q1.len() - 1,
                        )) implies exists|i: int|
                    0 <= i < nexts@.len() && (#[trigger] nexts@[i])@ == q1 by {
                    let x = choose|x: int|
                        0 <= x < qi && (#[trigger] partials@[x])@ == q1.subrange(
                            0,
                            q1.len() - 1,
                        );
                    if x == qi - 1 {
                        assert(q1.subrange(0, q1.len() - 1) == q@);
                        let jlast = q1.len() - 2;
                        assert(q1.subrange(0, q1.len() - 1)[jlast] == q1[jlast]);
                        assert(q1[jlast] == e);
                        assert(parents@[(q1[jlast]) as int]@.contains(q1[jlast + 1]));
                        let k = choose|k: int|
                            0 <= k < parents@[e as int]@.len()
                                && (#[trigger] parents@[e as int]@[k]) == q1[q1.len() - 1];
                        assert(0 <= k < plist@.len() && plist@[k] == q1[q1.len() - 1]);
                    }
                }
            }
        }
        proof {
            assert forall|q1: Seq<u32>|
                #[trigger] descending_walk(parents@, m, q1) && q1.len() == d0 - (d - 1) + 1
                implies exists|i: int| 0 <= i < nexts@.len() && (#[trigger] nexts@[i])@ == q1 by {
                let qpre = q1.subrange(0, q1.len() - 1);
                assert(qpre.len() == lcur);
                assert(qpre[0] == q1[0]);
                assert forall|j: int| 0 <= j < qpre.len() implies ((#[trigger] qpre[j]) as int)
                    < parents@.len() by {
                    assert(qpre[j] == q1[j]);
                }
                assert forall|j: int| 0 <= j < qpre.len() - 1 implies parents@[(
                #[trigger] qpre[j]) as int]@.contains(qpre[j + 1]) by {
                    assert(qpre[j] == q1[j] && qpre[j + 1] == q1[j + 1]);
                    assert(parents@[(q1[j]) as int]@.contains(q1[j + 1]));
                }
                assert(descending_walk(parents@, m, qpre));
                let x = choose|x: int|
                    0 <= x < partials@.len() && (#[trigger] partials@[x])@ == qpre;
            }
        }
        partials = nexts;
        d = d - 1;
    }
    let mut out: Vec<Vec<u32>> = Vec::new();
    let mut i: usize = 0;
    while i < partials.len()
        invariant
            i <= partials@.len(),
            out@.len() == i,
            forall|j: int|
                0 <= j < out@.len() ==> path_to(*g, forward, dist@, (#[trigger] out@[j])@, origin@,
                m),
            forall|j: int| 0 <= j < out@.len() ==> (#[trigger] out@[j])@ == seq_rev(partials@[j]@),
            forall|j: int|
                0 <= j < out@.len() ==> parent_walk(parents@, origin@, m, (#[trigger] out@[j])@),
            forall|j1: int, j2: int| 0 <= j1 < j2 < out@.len() ==> out@[j1]@ != out@[j2]@,
        decreases partials@.len() - i,
    {
        let q = &partials[i];
        proof {
            assert(descending_chain(*g, forward, dist@, q@, m, 0));
            let e = q@[q@.len() - 1];
            if e as int != origin@ {
                assert(dist@[e as int] == 0);
                assert(parents@[e as int]@.len() >= 1);
                assert(dist@[(parents@[e as int]@[0]) as int] + 1 == dist@[e as int]);
                assert(false);
            }
        }
        let p = reverse_vec(q);
        proof {
            let qs = q@;
            let ps = p@;
            let len = qs.len() as int;
            assert(ps[0] == qs[len - 1]);
            assert(ps[len - 1] == qs[0]);
            assert forall|j: int| 0 <= j < len - 1 implies #[trigger] dir_edge(*g, forward,
                ps[j] as int, ps[j + 1] as int) by {
                assert(ps[j] == qs[len - 1 - j]);
                assert(ps[j + 1] == qs[len - 2 - j]);
                let jj = len - 2 - j;
                assert(dir_edge(*g, forward, qs[jj + 1] as int, qs[jj] as int));
            }
            assert(path_to(*g, forward, dist@, ps, origin@, m));
            assert(ps =~= seq_rev(qs));
            assert forall|j: int| 0 <= j < ps.len() - 1 implies parents@[(
            #[trigger] ps[j + 1]) as int]@.contains(ps[j]) by {
                let jj = len - 2 - j;
                assert(ps[j] == qs[jj + 1]);
                assert(ps[j + 1] == qs[jj]);
                assert(parents@[(qs[jj]) as int]@.contains(qs[jj + 1]));
            }
            assert(parent_walk(parents@, origin@, m, ps));
            assert forall|j: int| 0 <= j < out@.len() implies out@[j]@ != ps by {
                if out@[j]@ == ps {
                    assert forall|t: int| 0 <= t < partials@[j]@.len() implies partials@[j]@[t]
                        == qs[t] by {
                        assert(seq_rev(partials@[j]@)[len - 1 - t] == partials@[j]@[t]);
                        assert(seq_rev(qs)[len - 1 - t] == qs[t]);
                        assert(out@[j]@ == seq_rev(partials@[j]@));
                    }
                    assert(partials@[j]@ =~= qs);
                    assert(false);
                }
            }
        }
        out.push(p);
        i = i + 1;
    }
    proof {
        assert forall|p: Seq<u32>| #[trigger] parent_walk(parents@, origin@, m, p) implies
            exists|i: int| 0 <= i < out@.len() && (#[trigger] out@[i])@ == p by {
            lemma_parent_walk_dist(*g, forward, origin@, dist@, parents@, p, m, p.len() - 1);
            assert(dist@[m as int] == p.len() - 1);
            lemma_rev_walk(parents@, origin@, m, p);
            let qr = seq_rev(p);
            assert(qr.len() == d0 + 1);
            assert(descending_walk(parents@, m, qr));
            let x = choose|x: int| 0 <= x < partials@.len() && (#[trigger] partials@[x])@ == qr;
            assert(out@[x]@ == seq_rev(partials@[x]@));
            assert forall|t: int| 0 <= t < p.len() implies out@[x]@[t] == p[t] by {
                assert(seq_rev(qr)[t] == qr[qr.len() - 1 - t]);
                assert(qr[qr.len() - 1 - t] == p[t]);
            }
            assert(out@[x]@ =~= p);
        }
    }
    out
}

/// The two views hold the same sequence.
pub(crate) fn vecs_equal(a: &Vec<u32>, b: &Vec<u32>) -> (r: bool)
    ensures
        r == (a@ == b@),
{
    if a.len() != b.len() {
        return false;
    }
    let mut i: usize = 0;
    while i < a.len()
        invariant
            a@.len() == b@.len(),
            i <= a@.len(),
            forall|j: int| 0 <= j < i ==> (#[trigger] a@[j]) == b@[j],
        decreases a@.len() - i,
    {
        if a[i] != b[i] {
            return false;
        }
        i = i + 1;
    }
    proof {
        assert(a@ =~= b@);
    }
    true
}

/// `p` already occurs among `paths`.
pub(crate) fn contains_path(paths: &Vec<Vec<u32>>, p: &Vec<u32>) -> (r: bool)
    ensures
        r == exists|i: int| 0 <= i < paths@.len() && (#[trigger] paths@[i])@ == p@,
{
    let mut i: usize = 0;
    while i < paths.len()
        invariant
            i <= paths@.len(),
            forall|j: int| 0 <= j < i ==> (#[trigger] paths@[j])@ != p@,
        decreases paths@.len() - i,
    {
        if vecs_equal(&paths[i], p) {
            return true;
        }
        i = i + 1;
    }
    false
}

/// The join of a forward walk `f` (source to meeting node) with a
/// backward walk `b` (target to meeting node): `f`, then `b` reversed
/// with its copy of the meeting node dropped.
pub open spec fn combined(f: Seq<u32>, b: Seq<u32>) -> Seq<u32> {
    f + Seq::new((b.len() - 1) as nat, |j: int| b[b.len() - 2 - j])
}

/// Join one forward walk `f` (from the search source to the meeting node)
/// with one backward walk `b` (from the target to the meeting node, along
/// reverse edges) into a single forward path from source to target. The
/// shared meeting node, the last entry of both, appears once.
#[verifier::loop_isolation(false)]
#[verifier::rlimit(60)]
pub(crate) fn combine(g: &CsrGraph, f: &Vec<u32>, b: &Vec<u32>) -> (r: Vec<u32>)
    requires
        g.wf(),
        f@.len() >= 1,
        b@.len() >= 1,
        f@[f@.len() - 1] == b@[b@.len() - 1],
        forall|j: int| 0 <= j < f@.len() ==> ((#[trigger] f@[j]) as int) < g.node_count(),
        forall|j: int| 0 <= j < b@.len() ==> ((#[trigger] b@[j]) as int) < g.node_count(),
        forall|j: int| 0 <= j < f@.len() - 1 ==> #[trigger] g.edge(f@[j] as int, f@[j + 1] as int),
        forall|j: int|
            0 <= j < b@.len() - 1 ==> #[trigger] g.rev_edge(b@[j] as int, b@[j + 1] as int),
    ensures
        r@.len() == f@.len() + b@.len() - 1,
        r@[0] == f@[0],
        r@[r@.len() - 1] == b@[0],
        forall|j: int| 0 <= j < r@.len() ==> ((#[trigger] r@[j]) as int) < g.node_count(),
        forall|j: int| 0 <= j < r@.len() - 1 ==> #[trigger] g.edge(r@[j] as int, r@[j + 1] as int),
        r@ == combined(f@, b@),
{
    let mut r: Vec<u32> = Vec::new();
    let mut i: usize = 0;
    while i < f.len()
        invariant
            i <= f@.len(),
            r@.len() == i,
            forall|j: int| 0 <= j < i ==> (#[trigger] r@[j]) == f@[j],
        decreases f@.len() - i,
    {
        r.push(f[i]);
        i = i + 1;
    }
    let mut t: usize = b.len() - 1;
    while t > 0
        invariant
            t <= b@.len() - 1,
            r@.len() == f@.len() + (b@.len() - 1 - t),
            forall|j: int| 0 <= j < f@.len() ==> (#[trigger] r@[j]) == f@[j],
            forall|j: int|
                f@.len() <= j < r@.len() ==> (#[trigger] r@[j]) == b@[b@.len() - 1 - (j - f@.len()
                    + 1)],
        decreases t,
    {
        r.push(b[t - 1]);
        t = t - 1;
    }
    proof {
        let rs = r@;
        let fl = f@.len() as int;
        let bl = b@.len() as int;
        assert forall|j: int| 0 <= j < rs.len() - 1 implies #[trigger] g.edge(rs[j] as int,
            rs[j + 1] as int) by {
            if j < fl - 1 {
                assert(g.edge(f@[j] as int, f@[j + 1] as int));
            } else if j == fl - 1 {
                let jj = bl - 2;
                assert(rs[j] == f@[fl - 1]);
                assert(rs[j + 1] == b@[jj]);
                assert(g.rev_edge(b@[jj] as int, b@[jj + 1] as int));
                assert(g.edge(b@[jj + 1] as int, b@[jj] as int));
            } else {
                let jj = bl - 3 - (j - fl);
                assert(rs[j] == b@[jj + 1]);
                assert(rs[j + 1] == b@[jj]);
                assert(g.rev_edge(b@[jj] as int, b@[jj + 1] as int));
                assert(g.edge(b@[jj + 1] as int, b@[jj] as int));
            }
        }
        assert forall|j: int| 0 <= j < rs.len() implies rs[j] == combined(f@, b@)[j] by {
            if j < fl {
                assert(combined(f@, b@)[j] == f@[j]);
            } else {
                assert(combined(f@, b@)[j] == b@[bl - 2 - (j - fl)]);
                assert(rs[j] == b@[bl - 1 - (j - fl + 1)]);
            }
        }
        assert(rs =~= combined(f@, b@));
    }
    r
}

} // verus!
