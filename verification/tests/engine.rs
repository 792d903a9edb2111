use wiki_paths::archive::{decode, encode};
use wiki_paths::graph::CsrGraph;
use wiki_paths::query::all_shortest_path;
use wiki_paths::search::find_all_shortest_paths;

const MAGIC: u32 = 0x4353_5247;

fn le_bytes(words: &[u32]) -> Vec<u8> {
    let mut out = Vec::new();
    for w in words {
        out.extend_from_slice(&w.to_le_bytes());
    }
    out
}

fn archive_bytes(offsets: &[u32], edges: &[u32], roffs: &[u32], redges: &[u32], ids: &[u32]) -> Vec<u8> {
    let mut ws: Vec<u32> = vec![MAGIC, ids.len() as u32, edges.len() as u32, redges.len() as u32];
    ws.extend_from_slice(offsets);
    ws.extend_from_slice(edges);
    ws.extend_from_slice(roffs);
    ws.extend_from_slice(redges);
    ws.extend_from_slice(ids);
    le_bytes(&ws)
}

/// Build a graph from an explicit edge list over ids; indices follow the
/// order of `ids`, and the reverse adjacency is the transpose.
fn graph_from_edges(ids: &[u32], id_edges: &[(u32, u32)]) -> CsrGraph {
    let n = ids.len();
    let idx = |id: u32| ids.iter().position(|&x| x == id).unwrap() as u32;
    let mut fwd: Vec<Vec<u32>> = vec![Vec::new(); n];
    let mut rev: Vec<Vec<u32>> = vec![Vec::new(); n];
    for &(a, b) in id_edges {
        fwd[idx(a) as usize].push(idx(b));
        rev[idx(b) as usize].push(idx(a));
    }
    let flatten = |lists: &Vec<Vec<u32>>| {
        let mut offsets = vec![0u32];
        let mut edges = Vec::new();
        for l in lists {
            edges.extend_from_slice(l);
            offsets.push(edges.len() as u32);
        }
        (offsets, edges)
    };
    let (offsets, edges) = flatten(&fwd);
    let (roffs, redges) = flatten(&rev);
    let bytes = archive_bytes(&offsets, &edges, &roffs, &redges, ids);
    decode(&bytes).expect("hand-built archive must load")
}

fn diamond() -> CsrGraph {
    graph_from_edges(&[1, 2, 3, 4], &[(1, 2), (1, 3), (2, 4), (3, 4)])
}

fn sorted(mut paths: Vec<Vec<u32>>) -> Vec<Vec<u32>> {
    paths.sort();
    paths
}

#[test]
fn diamond_has_exactly_two_paths() {
    let g = diamond();
    let r = all_shortest_path(&g, 1, 4);
    assert_eq!(r.num_paths, 2);
    assert_eq!(r.shortest_path_length, 3);
    assert_eq!(sorted(r.paths), vec![vec![1, 2, 4], vec![1, 3, 4]]);
}

#[test]
fn self_query_returns_trivial_path() {
    let g = diamond();
    let r = all_shortest_path(&g, 3, 3);
    assert_eq!(r.num_paths, 1);
    assert_eq!(r.shortest_path_length, 1);
    assert_eq!(r.paths, vec![vec![3]]);
}

#[test]
fn single_node_graph_unknown_target_is_empty() {
    let g = graph_from_edges(&[1], &[]);
    let r = all_shortest_path(&g, 1, 2);
    assert_eq!(r.num_paths, 0);
    assert_eq!(r.shortest_path_length, 0);
    assert!(r.paths.is_empty());
}

#[test]
fn linear_chain_has_single_path() {
    let g = graph_from_edges(&[1, 2, 3, 4, 5], &[(1, 2), (2, 3), (3, 4), (4, 5)]);
    let paths = find_all_shortest_paths(&g, 1, 5);
    assert_eq!(paths, vec![vec![1, 2, 3, 4, 5]]);
}

#[test]
fn unreachable_pairs_give_empty_result() {
    let g = diamond();
    assert!(find_all_shortest_paths(&g, 4, 1).is_empty());
    assert!(find_all_shortest_paths(&g, 2, 3).is_empty());
}

#[test]
fn unknown_ids_give_empty_result() {
    let g = diamond();
    assert!(find_all_shortest_paths(&g, 9, 4).is_empty());
    assert!(find_all_shortest_paths(&g, 1, 9).is_empty());
    let r = all_shortest_path(&g, 9, 9);
    assert_eq!(r.num_paths, 0);
    assert_eq!(r.shortest_path_length, 0);
}

/// Independent single-source breadth-first search over the id edge list,
/// returning the shortest path length in nodes, if any.
fn oracle_bfs_len(ids: &[u32], id_edges: &[(u32, u32)], from: u32, to: u32) -> Option<usize> {
    if !ids.contains(&from) || !ids.contains(&to) {
        return None;
    }
    if from == to {
        return Some(1);
    }
    let mut frontier = vec![from];
    let mut seen = vec![from];
    let mut depth = 1usize;
    while !frontier.is_empty() {
        let mut next = Vec::new();
        for &u in &frontier {
            for &(a, b) in id_edges {
                if a == u && !seen.contains(&b) {
                    if b == to {
                        return Some(depth + 1);
                    }
                    seen.push(b);
                    next.push(b);
                }
            }
        }
        frontier = next;
        depth += 1;
    }
    None
}

#[test]
fn reported_length_matches_oracle_bfs_on_all_pairs() {
    let ids = [10, 20, 30, 40, 50, 60, 70, 80];
    let id_edges = [
        (10, 20),
        (10, 30),
        (20, 40),
        (30, 40),
        (40, 50),
        (50, 60),
        (20, 60),
        (60, 10),
        (70, 70),
        (30, 80),
        (80, 60),
        (10, 80),
    ];
    let g = graph_from_edges(&ids, &id_edges);
    for &a in &ids {
        for &b in &ids {
            let r = all_shortest_path(&g, a, b);
            match oracle_bfs_len(&ids, &id_edges, a, b) {
                None => {
                    assert_eq!(r.num_paths, 0, "{} -> {} should be unreachable", a, b);
                    assert_eq!(r.shortest_path_length, 0);
                }
                Some(len) => {
                    assert!(r.num_paths >= 1, "{} -> {} should be reachable", a, b);
                    assert_eq!(r.shortest_path_length, len, "{} -> {}", a, b);
                }
            }
        }
    }
}

#[test]
fn returned_paths_are_real_uniform_and_distinct() {
    let ids = [10, 20, 30, 40, 50, 60, 70, 80];
    let id_edges = [
        (10, 20),
        (10, 30),
        (20, 40),
        (30, 40),
        (40, 50),
        (50, 60),
        (20, 60),
        (60, 10),
        (30, 80),
        (80, 60),
        (10, 80),
        (20, 80),
        (80, 50),
    ];
    let g = graph_from_edges(&ids, &id_edges);
    for &a in &ids {
        for &b in &ids {
            let r = all_shortest_path(&g, a, b);
            for p in &r.paths {
                assert_eq!(p.len(), r.shortest_path_length);
                assert_eq!(p[0], a);
                assert_eq!(*p.last().unwrap(), b);
                for w in p.windows(2) {
                    assert!(
                        id_edges.contains(&(w[0], w[1])),
                        "edge {} -> {} missing on path {:?}",
                        w[0],
                        w[1],
                        p
                    );
                }
            }
            for i in 0..r.paths.len() {
                for j in i + 1..r.paths.len() {
                    assert_ne!(r.paths[i], r.paths[j], "duplicate path for {} -> {}", a, b);
                }
            }
        }
    }
}

#[test]
fn all_tied_shortest_paths_are_enumerated() {
    // Two meeting levels of ties: 1 -> {2,3} -> {4,5} -> 6 gives four paths.
    let g = graph_from_edges(
        &[1, 2, 3, 4, 5, 6],
        &[(1, 2), (1, 3), (2, 4), (2, 5), (3, 4), (3, 5), (4, 6), (5, 6)],
    );
    let r = all_shortest_path(&g, 1, 6);
    assert_eq!(r.shortest_path_length, 4);
    assert_eq!(
        sorted(r.paths),
        vec![
            vec![1, 2, 4, 6],
            vec![1, 2, 5, 6],
            vec![1, 3, 4, 6],
            vec![1, 3, 5, 6],
        ]
    );
}

#[test]
fn longer_detours_are_not_reported() {
    // 1 -> 4 directly and also via 2 and 3; only the direct edge is shortest.
    let g = graph_from_edges(&[1, 2, 3, 4], &[(1, 4), (1, 2), (2, 3), (3, 4)]);
    let r = all_shortest_path(&g, 1, 4);
    assert_eq!(r.paths, vec![vec![1, 4]]);
    assert_eq!(r.shortest_path_length, 2);
}

#[test]
fn directly_linked_pages_always_have_a_path() {
    let ids = [10, 20, 30, 40, 50, 60, 70, 80];
    let id_edges = [
        (10, 20),
        (10, 30),
        (20, 40),
        (30, 40),
        (40, 50),
        (50, 60),
        (20, 60),
        (60, 10),
        (70, 70),
        (30, 80),
        (80, 60),
    ];
    let g = graph_from_edges(&ids, &id_edges);
    for &(a, b) in &id_edges {
        let r = all_shortest_path(&g, a, b);
        assert!(r.num_paths >= 1, "{} links to {} but no path was found", a, b);
    }
}

#[test]
fn nontrivial_graph_round_trips_through_the_codec() {
    let ids = [10, 20, 30, 40, 50, 60, 70, 80];
    let id_edges = [(10, 20), (10, 30), (20, 40), (30, 40), (40, 50), (50, 60), (20, 60), (60, 10)];
    let g = graph_from_edges(&ids, &id_edges);
    let bytes = encode(&g);
    let g2 = decode(&bytes).expect("own encoding must load");
    assert_eq!(g2.offsets, g.offsets);
    assert_eq!(g2.edges, g.edges);
    assert_eq!(g2.reverse_offsets, g.reverse_offsets);
    assert_eq!(g2.reverse_edges, g.reverse_edges);
    assert_eq!(g2.index_to_page_id, g.index_to_page_id);
}
