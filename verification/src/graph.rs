//! The in-memory form of the graph: compressed-sparse-row adjacency in both
//! directions, together with the maps between external page ids and dense
//! internal node indices.

use vstd::prelude::*;
use std::collections::HashMap;

verus! {

broadcast use vstd::std_specs::hash::group_hash_axioms;

/// A directed graph over nodes `0 .. node_count`, stored in
/// compressed-sparse-row form. `offsets[u] .. offsets[u + 1]` bounds node
/// `u`'s outgoing-edge slice in `edges`; the `reverse_*` pair encodes the
/// transposed graph. External page ids and internal indices are related by
/// `page_id_to_index` and `index_to_page_id`, which are mutual inverses.
pub struct CsrGraph {
    pub offsets: Vec<u32>,
    pub edges: Vec<u32>,
    pub reverse_offsets: Vec<u32>,
    pub reverse_edges: Vec<u32>,
    pub page_id_to_index: HashMap<u32, u32>,
    pub index_to_page_id: Vec<u32>,
}

/// One direction of adjacency is structurally sound: offsets start at zero,
/// never decrease, end at the edge count, and every edge entry names a node.
pub open spec fn csr_ok(offsets: Seq<u32>, edges: Seq<u32>, n: int) -> bool {
    &&& offsets.len() == n + 1
    &&& offsets[0] == 0
    &&& forall|i: int| 0 <= i < n ==> (#[trigger] offsets[i]) <= offsets[i + 1]
    &&& offsets[n] == edges.len()
    &&& forall|k: int| 0 <= k < edges.len() ==> (#[trigger] edges[k]) < n
}

/// `v` occurs in `u`'s slice of a compressed-sparse-row adjacency.
pub open spec fn adj(offsets: Seq<u32>, edges: Seq<u32>, u: int, v: int) -> bool {
    exists|k: int| offsets[u] <= k < offsets[u + 1] && (#[trigger] edges[k]) == v
}

/// Two compressed-sparse-row adjacencies are transposes of one another:
/// each records edge `(u, v)` exactly when the other records `(v, u)`.
pub open spec fn transpose_ok_raw(
    offs: Seq<u32>,
    eds: Seq<u32>,
    roffs: Seq<u32>,
    reds: Seq<u32>,
    n: int,
) -> bool {
    &&& forall|u: int, v: int|
        0 <= u < n && 0 <= v < n && #[trigger] adj(offs, eds, u, v) ==> adj(roffs, reds, v, u)
    &&& forall|u: int, v: int|
        0 <= u < n && 0 <= v < n && #[trigger] adj(roffs, reds, u, v) ==> adj(offs, eds, v, u)
}

/// Adjacent monotonicity of the offsets extends to any pair of positions.
pub proof fn lemma_offsets_monotonic(offsets: Seq<u32>, i: int, j: int)
    requires
        forall|x: int| 0 <= x < offsets.len() - 1 ==> (#[trigger] offsets[x]) <= offsets[x + 1],
        0 <= i <= j < offsets.len(),
    ensures
        offsets[i] <= offsets[j],
    decreases j - i,
{
    if i < j {
        lemma_offsets_monotonic(offsets, i, j - 1);
        assert(offsets[j - 1] <= offsets[j]);
    }
}

impl CsrGraph {
    /// Number of nodes; indices run over `0 .. node_count`.
    pub open spec fn node_count(self) -> int {
        self.offsets@.len() - 1
    }

    /// The forward graph has an edge from `u` to `v`.
    pub open spec fn edge(self, u: int, v: int) -> bool {
        adj(self.offsets@, self.edges@, u, v)
    }

    /// The reverse graph has an edge from `u` to `v`.
    pub open spec fn rev_edge(self, u: int, v: int) -> bool {
        adj(self.reverse_offsets@, self.reverse_edges@, u, v)
    }

    /// Lengths agree across the parallel arrays and the node count fits in
    /// an unsigned 32-bit index.
    pub open spec fn dims_ok(self) -> bool {
        &&& self.offsets@.len() >= 1
        &&& self.offsets@.len() <= u32::MAX
        &&& self.reverse_offsets@.len() == self.offsets@.len()
        &&& self.index_to_page_id@.len() == self.node_count()
    }

    /// The reverse adjacency is exactly the transpose of the forward one.
    pub open spec fn transpose_ok(self) -> bool {
        transpose_ok_raw(
            self.offsets@,
            self.edges@,
            self.reverse_offsets@,
            self.reverse_edges@,
            self.node_count(),
        )
    }

    /// Everything the adjacency arrays must satisfy, independent of the id
    /// maps.
    pub open spec fn structure_ok(self) -> bool {
        &&& self.dims_ok()
        &&& csr_ok(self.offsets@, self.edges@, self.node_count())
        &&& csr_ok(self.reverse_offsets@, self.reverse_edges@, self.node_count())
        &&& self.transpose_ok()
    }

    /// `page_id_to_index` and `index_to_page_id` are mutual inverses over a
    /// dense index range.
    pub open spec fn id_maps_ok(self) -> bool {
        &&& forall|i: int|
            0 <= i < self.node_count() ==> {
                &&& self.page_id_to_index@.contains_key(#[trigger] self.index_to_page_id@[i])
                &&& self.page_id_to_index@[self.index_to_page_id@[i]] == i as u32
            }
        &&& forall|id: u32|
            #[trigger] self.page_id_to_index@.contains_key(id) ==> {
                &&& self.page_id_to_index@[id] < self.node_count()
                &&& self.index_to_page_id@[self.page_id_to_index@[id] as int] == id
            }
    }

    /// Full well-formedness: what every loaded or built graph satisfies and
    /// every query relies on.
    pub open spec fn wf(self) -> bool {
        &&& self.structure_ok()
        &&& self.id_maps_ok()
    }

    /// The external id is present in the graph.
    pub open spec fn id_known(self, id: u32) -> bool {
        self.page_id_to_index@.contains_key(id)
    }

    /// The internal index of a known external id.
    pub open spec fn id_index(self, id: u32) -> int {
        self.page_id_to_index@[id] as int
    }

    /// An edge between two externally-identified pages.
    pub open spec fn id_edge(self, a: u32, b: u32) -> bool {
        &&& self.id_known(a)
        &&& self.id_known(b)
        &&& self.edge(self.id_index(a), self.id_index(b))
    }

    /// `p` is a forward path through the graph, written in external page
    /// ids, leading from `a` to `b`.
    pub open spec fn is_id_path(self, p: Seq<u32>, a: u32, b: u32) -> bool {
        &&& p.len() >= 1
        &&& p[0] == a
        &&& p[p.len() - 1] == b
        &&& forall|i: int| 0 <= i < p.len() - 1 ==> #[trigger] self.id_edge(p[i], p[i + 1])
    }

    /// Some forward path in external ids leads from `a` to `b`.
    pub open spec fn reachable(self, a: u32, b: u32) -> bool {
        exists|p: Seq<u32>| #[trigger] self.is_id_path(p, a, b)
    }

    /// `p` is a forward path through the graph, written in internal
    /// indices, leading from `s` to `t`.
    pub open spec fn is_index_path(self, p: Seq<u32>, s: u32, t: u32) -> bool {
        &&& p.len() >= 1
        &&& p[0] == s
        &&& p[p.len() - 1] == t
        &&& forall|i: int| 0 <= i < p.len() ==> (#[trigger] p[i]) < self.node_count()
        &&& forall|i: int|
            0 <= i < p.len() - 1 ==> #[trigger] self.edge(p[i] as int, p[i + 1] as int)
    }

    /// Resolve an external page id to its internal index.
    pub fn lookup_index(&self, id: u32) -> (r: Option<u32>)
        ensures
            match r {
                Some(i) => self.id_known(id) && i == self.page_id_to_index@[id],
                None => !self.id_known(id),
            },
    {
        match self.page_id_to_index.get(&id) {
            Some(i) => Some(*i),
            None => None,
        }
    }

    /// Check every structural invariant of the adjacency arrays.
    #[verifier::rlimit(50)]
    pub fn validate_structure(&self) -> (r: bool)
        ensures
            r == self.structure_ok(),
    {
        let n_plus = self.offsets.len();
        if n_plus < 1 || n_plus > u32::MAX as usize {
            return false;
        }
        let n = n_plus - 1;
        if self.reverse_offsets.len() != n_plus || self.index_to_page_id.len() != n {
            return false;
        }
        if !csr_valid(&self.offsets, &self.edges, n) {
            return false;
        }
        if !csr_valid(&self.reverse_offsets, &self.reverse_edges, n) {
            return false;
        }
        if !contained_in_transpose(&self.offsets, &self.edges, &self.reverse_offsets,
            &self.reverse_edges, n) {
            return false;
        }
        if !contained_in_transpose(&self.reverse_offsets, &self.reverse_edges, &self.offsets,
            &self.edges, n) {
            return false;
        }
        true
    }
}

/// Check `csr_ok` for one direction of adjacency.
pub(crate) fn csr_valid(offsets: &Vec<u32>, edges: &Vec<u32>, n: usize) -> (r: bool)
    requires
        offsets@.len() == n + 1,
    ensures
        r == csr_ok(offsets@, edges@, n as int),
{
    if offsets[0] != 0 {
        return false;
    }
    let mut i: usize = 0;
    while i < n
        invariant
            offsets@.len() == n + 1,
            0 <= i <= n,
            forall|x: int| 0 <= x < i ==> (#[trigger] offsets@[x]) <= offsets@[x + 1],
        decreases n - i,
    {
        if offsets[i] > offsets[i + 1] {
            return false;
        }
        i = i + 1;
    }
    if offsets[n] as usize != edges.len() {
        return false;
    }
    let mut k: usize = 0;
    while k < edges.len()
        invariant
            forall|x: int| 0 <= x < k ==> (#[trigger] edges@[x]) < n,
        decreases edges@.len() - k,
    {
        if edges[k] as usize >= n {
            return false;
        }
        k = k + 1;
    }
    true
}

/// `x` occurs in `edges[lo .. hi]`.
pub(crate) fn slice_contains(edges: &Vec<u32>, lo: usize, hi: usize, x: u32) -> (r: bool)
    requires
        lo <= hi <= edges@.len(),
    ensures
        r == exists|k: int| lo <= k < hi && (#[trigger] edges@[k]) == x,
{
    let mut k = lo;
    while k < hi
        invariant
            lo <= k <= hi <= edges@.len(),
            forall|j: int| lo <= j < k ==> (#[trigger] edges@[j]) != x,
        decreases hi - k,
    {
        if edges[k] == x {
            return true;
        }
        k = k + 1;
    }
    false
}

/// Every edge `(u, v)` of adjacency `a` appears as `(v, u)` in adjacency `b`.
pub(crate) fn contained_in_transpose(
    offsets_a: &Vec<u32>,
    edges_a: &Vec<u32>,
    offsets_b: &Vec<u32>,
    edges_b: &Vec<u32>,
    n: usize,
) -> (r: bool)
    requires
        n < u32::MAX,
        csr_ok(offsets_a@, edges_a@, n as int),
        csr_ok(offsets_b@, edges_b@, n as int),
    ensures
        r == forall|u: int, v: int|
            0 <= u < n && 0 <= v < n && #[trigger] adj(offsets_a@, edges_a@, u, v) ==> adj(
                offsets_b@,
                edges_b@,
                v,
                u,
            ),
{
    let mut u: usize = 0;
    while u < n
        invariant
            n < u32::MAX,
            csr_ok(offsets_a@, edges_a@, n as int),
            csr_ok(offsets_b@, edges_b@, n as int),
            0 <= u <= n,
            forall|uu: int, v: int|
                0 <= uu < u && 0 <= v < n && #[trigger] adj(offsets_a@, edges_a@, uu, v) ==> adj(
                    offsets_b@,
                    edges_b@,
                    v,
                    uu,
                ),
        decreases n - u,
    {
        let lo = offsets_a[u] as usize;
        let hi = offsets_a[u + 1] as usize;
        proof {
            lemma_offsets_monotonic(offsets_a@, u + 1, n as int);
        }
        let mut k = lo;
        while k < hi
            invariant
                n < u32::MAX,
                csr_ok(offsets_a@, edges_a@, n as int),
                csr_ok(offsets_b@, edges_b@, n as int),
                u < n,
                lo == offsets_a@[u as int],
                hi == offsets_a@[u as int + 1],
                lo <= k <= hi <= edges_a@.len(),
                forall|kk: int|
                    lo <= kk < k ==> adj(offsets_b@, edges_b@, (#[trigger] edges_a@[kk]) as int,
                    u as int),
            decreases hi - k,
        {
            let v = edges_a[k] as usize;
            let blo = offsets_b[v] as usize;
            let bhi = offsets_b[v + 1] as usize;
            proof {
                lemma_offsets_monotonic(offsets_b@, v + 1, n as int);
            }
            if !slice_contains(edges_b, blo, bhi, u as u32) {
                proof {
                    assert(adj(offsets_a@, edges_a@, u as int, v as int)) by {
                        assert(offsets_a@[u as int] <= k < offsets_a@[u as int + 1]
                            && edges_a@[k as int] == v as u32);
                    }
                    assert(!adj(offsets_b@, edges_b@, v as int, u as int));
                }
                return false;
            }
            k = k + 1;
        }
        proof {
            assert forall|v: int|
                0 <= v < n && adj(offsets_a@, edges_a@, u as int, v) implies adj(
                offsets_b@,
                edges_b@,
                v,
                u as int,
            ) by {
                let kk = choose|kk: int|
                    offsets_a@[u as int] <= kk < offsets_a@[u as int + 1]
                        && (#[trigger] edges_a@[kk]) == v;
                assert(adj(offsets_b@, edges_b@, edges_a@[kk] as int, u as int));
            }
        }
        u = u + 1;
    }
    true
}

} // verus!
