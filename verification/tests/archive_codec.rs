use wiki_paths::ArchiveError;
use wiki_paths::archive::{decode, encode};

const MAGIC: u32 = 0x4353_5247;

fn le_bytes(words: &[u32]) -> Vec<u8> {
    let mut out = Vec::new();
    for w in words {
        out.extend_from_slice(&w.to_le_bytes());
    }
    out
}

fn archive_words(offsets: &[u32], edges: &[u32], roffs: &[u32], redges: &[u32], ids: &[u32]) -> Vec<u32> {
    let mut ws: Vec<u32> = vec![MAGIC, ids.len() as u32, edges.len() as u32, redges.len() as u32];
    ws.extend_from_slice(offsets);
    ws.extend_from_slice(edges);
    ws.extend_from_slice(roffs);
    ws.extend_from_slice(redges);
    ws.extend_from_slice(ids);
    ws
}

fn diamond_bytes() -> Vec<u8> {
    le_bytes(&archive_words(
        &[0, 2, 3, 4, 4],
        &[1, 2, 3, 3],
        &[0, 0, 1, 2, 4],
        &[0, 0, 1, 2],
        &[1, 2, 3, 4],
    ))
}

#[test]
fn round_trip_reproduces_the_graph() {
    let bytes = diamond_bytes();
    let g = decode(&bytes).expect("valid archive");
    let reencoded = encode(&g);
    assert_eq!(reencoded, bytes);
    let g2 = decode(&reencoded).expect("valid archive");
    assert_eq!(g2.offsets, g.offsets);
    assert_eq!(g2.edges, g.edges);
    assert_eq!(g2.reverse_offsets, g.reverse_offsets);
    assert_eq!(g2.reverse_edges, g.reverse_edges);
    assert_eq!(g2.index_to_page_id, g.index_to_page_id);
    for id in [1u32, 2, 3, 4] {
        assert_eq!(g2.lookup_index(id), g.lookup_index(id));
    }
}

#[test]
fn loaded_graph_exposes_id_maps() {
    let g = decode(&diamond_bytes()).expect("valid archive");
    assert_eq!(g.lookup_index(1), Some(0));
    assert_eq!(g.lookup_index(4), Some(3));
    assert_eq!(g.lookup_index(5), None);
    assert_eq!(g.index_to_page_id, vec![1, 2, 3, 4]);
}

#[test]
fn truncated_archive_is_rejected() {
    let mut bytes = diamond_bytes();
    bytes.pop();
    assert!(matches!(decode(&bytes), Err(ArchiveError::Corrupt)));
    assert!(matches!(decode(&[]), Err(ArchiveError::Corrupt)));
}

#[test]
fn wrong_magic_is_rejected() {
    let mut ws = archive_words(&[0, 2, 3, 4, 4], &[1, 2, 3, 3], &[0, 0, 1, 2, 4], &[0, 0, 1, 2], &[1, 2, 3, 4]);
    ws[0] = 0xdead_beef;
    assert!(matches!(decode(&le_bytes(&ws)), Err(ArchiveError::Corrupt)));
}

#[test]
fn wrong_length_is_rejected() {
    let mut ws = archive_words(&[0, 2, 3, 4, 4], &[1, 2, 3, 3], &[0, 0, 1, 2, 4], &[0, 0, 1, 2], &[1, 2, 3, 4]);
    ws.push(7);
    assert!(matches!(decode(&le_bytes(&ws)), Err(ArchiveError::Corrupt)));
}

#[test]
fn non_monotonic_offsets_are_rejected() {
    let ws = archive_words(&[0, 3, 2, 4, 4], &[1, 2, 3, 3], &[0, 0, 1, 2, 4], &[0, 0, 1, 2], &[1, 2, 3, 4]);
    assert!(matches!(decode(&le_bytes(&ws)), Err(ArchiveError::Corrupt)));
}

#[test]
fn out_of_range_edge_is_rejected() {
    let ws = archive_words(&[0, 2, 3, 4, 4], &[1, 9, 3, 3], &[0, 0, 1, 2, 4], &[0, 0, 1, 2], &[1, 2, 3, 4]);
    assert!(matches!(decode(&le_bytes(&ws)), Err(ArchiveError::Corrupt)));
}

#[test]
fn mismatched_transpose_is_rejected() {
    // Reverse claims an in-edge of node 1 from node 3 that the forward
    // graph does not have.
    let ws = archive_words(&[0, 2, 3, 4, 4], &[1, 2, 3, 3], &[0, 0, 1, 2, 4], &[3, 0, 1, 2], &[1, 2, 3, 4]);
    assert!(matches!(decode(&le_bytes(&ws)), Err(ArchiveError::Corrupt)));
}

#[test]
fn duplicate_page_id_is_rejected() {
    let ws = archive_words(&[0, 2, 3, 4, 4], &[1, 2, 3, 3], &[0, 0, 1, 2, 4], &[0, 0, 1, 2], &[1, 2, 1, 4]);
    assert!(matches!(decode(&le_bytes(&ws)), Err(ArchiveError::Corrupt)));
}

#[test]
fn empty_graph_round_trips() {
    let bytes = le_bytes(&archive_words(&[0], &[], &[0], &[], &[]));
    let g = decode(&bytes).expect("empty graph is a valid archive");
    assert_eq!(encode(&g), bytes);
    assert_eq!(g.lookup_index(1), None);
}
