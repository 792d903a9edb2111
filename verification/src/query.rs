//! The query façade: runs the search for a pair of external page ids and
//! packages the result as the transport layer reports it — the paths, how
//! many there are, and the shortest path length in nodes.

use vstd::prelude::*;
use crate::graph::CsrGraph;
use crate::search::find_all_shortest_paths;

verus! {

/// The answer to one all-shortest-paths query. `paths` is written in
/// external page ids; `shortest_path_length` counts nodes and is zero when
/// there is no path at all.
pub struct QueryResult {
    pub paths: Vec<Vec<u32>>,
    pub num_paths: usize,
    pub shortest_path_length: usize,
}

/// Answer one query. Unknown or unreachable endpoints give an empty
/// result with count zero and length zero, not an error; otherwise the
/// reported length is the true shortest path length in nodes and every
/// reported path achieves it.
pub fn all_shortest_path(g: &CsrGraph, from_page_id: u32, to_page_id: u32) -> (r: QueryResult)
    requires
        g.wf(),
    ensures
        r.num_paths == r.paths@.len(),
        r.paths@.len() == 0 ==> r.shortest_path_length == 0,
        r.paths@.len() > 0 ==> r.shortest_path_length == r.paths@[0]@.len(),
        forall|i: int|
            0 <= i < r.paths@.len() ==> (#[trigger] r.paths@[i])@.len()
                == r.shortest_path_length,
        !g.id_known(from_page_id) || !g.id_known(to_page_id) ==> r.paths@.len() == 0,
        g.id_known(from_page_id) && from_page_id == to_page_id ==> r.paths@.len() == 1
            && r.paths@[0]@ =~= seq![from_page_id],
        forall|i: int|
            0 <= i < r.paths@.len() ==> g.is_id_path((#[trigger] r.paths@[i])@, from_page_id,
            to_page_id),
        forall|i: int, j: int| 0 <= i < j < r.paths@.len() ==> r.paths@[i]@ != r.paths@[j]@,
        !g.reachable(from_page_id, to_page_id) ==> r.paths@.len() == 0,
        g.id_edge(from_page_id, to_page_id) ==> r.paths@.len() >= 1,
        g.id_known(from_page_id) && g.id_known(to_page_id) && g.reachable(
            from_page_id,
            to_page_id,
        ) ==> r.paths@.len() >= 1,
        r.paths@.len() > 0 ==> forall|p: Seq<u32>|
            #[trigger] g.is_id_path(p, from_page_id, to_page_id) ==> p.len()
                >= r.shortest_path_length,
        r.paths@.len() > 0 ==> forall|p: Seq<u32>|
            #[trigger] g.is_id_path(p, from_page_id, to_page_id) && p.len()
                == r.shortest_path_length ==> exists|i: int|
                0 <= i < r.paths@.len() && (#[trigger] r.paths@[i])@ == p,
{
    let paths = find_all_shortest_paths(g, from_page_id, to_page_id);
    let num_paths = paths.len();
    let shortest_path_length = if paths.len() == 0 {
        0
    } else {
        paths[0].len()
    };
    QueryResult { paths, num_paths, shortest_path_length }
}

} // verus!
