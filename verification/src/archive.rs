//! The on-disk archive format and its codec.
//!
//! An archive is a flat little-endian encoding of 32-bit words: a magic
//! word, the node count, the two edge counts, then the forward offsets and
//! edges, the reverse offsets and edges, and finally the external page id
//! of every node in index order. The id-to-index map is rebuilt on load
//! and checked for duplicate ids, and every structural invariant of the
//! graph is validated before a handle is returned.

use vstd::prelude::*;
use std::collections::HashMap;
use crate::ArchiveError;
use crate::graph::{CsrGraph, csr_ok, csr_valid, contained_in_transpose, transpose_ok_raw};

verus! {

broadcast use vstd::std_specs::hash::group_hash_axioms;

/// First word of every archive.
pub const ARCHIVE_MAGIC: u32 = 0x4353_5247;

/// The four little-endian bytes of one 32-bit word.
pub open spec fn word_bytes(w: u32) -> Seq<u8> {
    seq![
        (w & 0xff) as u8,
        ((w >> 8) & 0xff) as u8,
        ((w >> 16) & 0xff) as u8,
        ((w >> 24) & 0xff) as u8,
    ]
}

/// A word sequence written out as little-endian bytes.
pub open spec fn words_to_bytes(ws: Seq<u32>) -> Seq<u8> {
    Seq::new(4 * ws.len(), |i: int| word_bytes(ws[i / 4])[i % 4])
}

/// The 32-bit word at word position `i` of a byte sequence.
pub open spec fn word_at(bytes: Seq<u8>, i: int) -> u32 {
    (bytes[4 * i] as u32) | ((bytes[4 * i + 1] as u32) << 8) | ((bytes[4 * i + 2] as u32) << 16)
        | ((bytes[4 * i + 3] as u32) << 24)
}

/// A byte sequence read back as 32-bit words.
pub open spec fn words(bytes: Seq<u8>) -> Seq<u32> {
    Seq::new(bytes.len() / 4, |i: int| word_at(bytes, i))
}

/// The word sequence that encodes a graph.
pub open spec fn archive_words(g: CsrGraph) -> Seq<u32> {
    seq![
        ARCHIVE_MAGIC,
        g.node_count() as u32,
        g.edges@.len() as u32,
        g.reverse_edges@.len() as u32,
    ] + g.offsets@ + g.edges@ + g.reverse_offsets@ + g.reverse_edges@ + g.index_to_page_id@
}

/// The byte sequence that encodes a graph.
pub open spec fn spec_encode(g: CsrGraph) -> Seq<u8> {
    words_to_bytes(archive_words(g))
}

/// The bytes form a structurally valid archive: right shape, valid
/// compressed-sparse-row arrays in both directions, exact transposes of
/// one another, and no external id listed twice.
pub open spec fn valid_archive(bytes: Seq<u8>) -> bool {
    let ws = words(bytes);
    let n = ws[1] as int;
    let e = ws[2] as int;
    let rv = ws[3] as int;
    let offs = ws.subrange(4, 4 + n + 1);
    let eds = ws.subrange(4 + n + 1, 4 + n + 1 + e);
    let roffs = ws.subrange(4 + n + 1 + e, 4 + n + 1 + e + n + 1);
    let reds = ws.subrange(4 + n + 1 + e + n + 1, 4 + n + 1 + e + n + 1 + rv);
    let ids = ws.subrange(4 + n + 1 + e + n + 1 + rv, 4 + n + 1 + e + n + 1 + rv + n);
    &&& bytes.len() % 4 == 0
    &&& ws.len() >= 4
    &&& ws[0] == ARCHIVE_MAGIC
    &&& n < u32::MAX
    &&& ws.len() == 4 + (n + 1) + e + (n + 1) + rv + n
    &&& csr_ok(offs, eds, n)
    &&& csr_ok(roffs, reds, n)
    &&& transpose_ok_raw(offs, eds, roffs, reds, n)
    &&& forall|i: int, j: int| 0 <= i < j < n ==> ids[i] != ids[j]
}

/// Reading back the four little-endian bytes of a word gives the word.
proof fn lemma_word_roundtrip(w: u32)
    ensures
        ((w & 0xff) as u32) | ((((w >> 8) & 0xff) as u32) << 8) | ((((w >> 16) & 0xff) as u32)
            << 16) | ((((w >> 24) & 0xff) as u32) << 24) == w,
        w & 0xff < 256,
        (w >> 8) & 0xff < 256,
        (w >> 16) & 0xff < 256,
        (w >> 24) & 0xff < 256,
{
    assert(((w & 0xff) as u32) | ((((w >> 8) & 0xff) as u32) << 8) | ((((w >> 16) & 0xff) as u32)
        << 16) | ((((w >> 24) & 0xff) as u32) << 24) == w) by (bit_vector);
    assert(w & 0xff < 256) by (bit_vector);
    assert((w >> 8) & 0xff < 256) by (bit_vector);
    assert((w >> 16) & 0xff < 256) by (bit_vector);
    assert((w >> 24) & 0xff < 256) by (bit_vector);
}

/// Serialising words and reading them back is the identity.
pub proof fn lemma_words_roundtrip(ws: Seq<u32>)
    ensures
        words(words_to_bytes(ws)) == ws,
{
    let bytes = words_to_bytes(ws);
    assert(bytes.len() == 4 * ws.len());
    assert(words(bytes).len() == ws.len());
    assert forall|i: int| 0 <= i < ws.len() implies words(bytes)[i] == ws[i] by {
        let w = ws[i];
        assert(bytes[4 * i] == word_bytes(w)[0]);
        assert(bytes[4 * i + 1] == word_bytes(w)[1]);
        assert(bytes[4 * i + 2] == word_bytes(w)[2]);
        assert(bytes[4 * i + 3] == word_bytes(w)[3]);
        lemma_word_roundtrip(w);
        assert(word_at(bytes, i) == w);
    }
    assert(words(words_to_bytes(ws)) =~= ws);
}

/// Append the four little-endian bytes of one word.
fn push_word(out: &mut Vec<u8>, w: u32)
    ensures
        final(out)@ == old(out)@ + word_bytes(w),
{
    proof {
        lemma_word_roundtrip(w);
    }
    out.push((w & 0xff) as u8);
    out.push(((w >> 8) & 0xff) as u8);
    out.push(((w >> 16) & 0xff) as u8);
    out.push(((w >> 24) & 0xff) as u8);
    proof {
        assert(out@ =~= old(out)@ + word_bytes(w));
    }
}

/// Read the word at word position `i`.
fn read_word(bytes: &[u8], i: usize) -> (w: u32)
    requires
        4 * i + 4 <= bytes@.len(),
    ensures
        w == word_at(bytes@, i as int),
{
    let len = bytes.len();
    proof {
        assert(4 * i + 4 <= len);
    }
    let base = 4 * i;
    let b0 = bytes[base] as u32;
    let b1 = bytes[base + 1] as u32;
    let b2 = bytes[base + 2] as u32;
    let b3 = bytes[base + 3] as u32;
    b0 | (b1 << 8) | (b2 << 16) | (b3 << 24)
}

/// Append every element of `src` to `out`.
fn extend_words(out: &mut Vec<u8>, src: &Vec<u32>)
    ensures
        final(out)@ == old(out)@ + words_to_bytes(src@),
{
    let ghost base = out@;
    let mut i: usize = 0;
    while i < src.len()
        invariant
            i <= src@.len(),
            out@.len() == base.len() + 4 * i,
            out@ == base + words_to_bytes(src@.subrange(0, i as int)),
        decreases src@.len() - i,
    {
        push_word(out, src[i]);
        proof {
            let pre = src@.subrange(0, i as int);
            let cur = src@.subrange(0, i + 1);
            let w = src@[i as int];
            assert(cur =~= pre + seq![w]);
            lemma_words_concat(pre, seq![w]);
            assert(words_to_bytes(seq![w]) =~= word_bytes(w));
            assert(out@ =~= base + words_to_bytes(cur));
        }
        i = i + 1;
    }
    proof {
        assert(src@.subrange(0, src@.len() as int) =~= src@);
    }
}

/// Copy the words in positions `lo .. hi`.
fn copy_range(ws: &Vec<u32>, lo: usize, hi: usize) -> (r: Vec<u32>)
    requires
        lo <= hi <= ws@.len(),
    ensures
        r@ == ws@.subrange(lo as int, hi as int),
{
    let mut r: Vec<u32> = Vec::new();
    let mut i = lo;
    while i < hi
        invariant
            lo <= i <= hi <= ws@.len(),
            r@ == ws@.subrange(lo as int, i as int),
        decreases hi - i,
    {
        r.push(ws[i]);
        proof {
            assert(r@ =~= ws@.subrange(lo as int, i + 1));
        }
        i = i + 1;
    }
    r
}

/// Write a graph into the archive byte format.
pub fn encode(g: &CsrGraph) -> (r: Vec<u8>)
    requires
        g.wf(),
    ensures
        r@ == spec_encode(*g),
{
    let n = g.offsets.len() - 1;
    proof {
        assert(g.edges@.len() == g.offsets@[n as int]);
        assert(g.reverse_edges@.len() == g.reverse_offsets@[n as int]);
    }
    let mut out: Vec<u8> = Vec::new();
    let mut header: Vec<u32> = Vec::new();
    header.push(ARCHIVE_MAGIC);
    header.push(n as u32);
    header.push(g.edges.len() as u32);
    header.push(g.reverse_edges.len() as u32);
    extend_words(&mut out, &header);
    extend_words(&mut out, &g.offsets);
    extend_words(&mut out, &g.edges);
    extend_words(&mut out, &g.reverse_offsets);
    extend_words(&mut out, &g.reverse_edges);
    extend_words(&mut out, &g.index_to_page_id);
    proof {
        let hw = header@;
        let aw = archive_words(*g);
        assert(hw =~= seq![
            ARCHIVE_MAGIC,
            g.node_count() as u32,
            g.edges@.len() as u32,
            g.reverse_edges@.len() as u32,
        ]);
        let all = hw + g.offsets@ + g.edges@ + g.reverse_offsets@ + g.reverse_edges@
            + g.index_to_page_id@;
        assert(aw =~= all);
        lemma_words_concat(
            hw + g.offsets@ + g.edges@ + g.reverse_offsets@ + g.reverse_edges@,
            g.index_to_page_id@,
        );
        lemma_words_concat(hw + g.offsets@ + g.edges@ + g.reverse_offsets@, g.reverse_edges@);
        lemma_words_concat(hw + g.offsets@ + g.edges@, g.reverse_offsets@);
        lemma_words_concat(hw + g.offsets@, g.edges@);
        lemma_words_concat(hw, g.offsets@);
        assert(out@ =~= words_to_bytes(aw));
    }
    out
}

/// Parse and validate an archive. Returns a well-formed graph exactly when
/// the bytes form a valid archive, and `ArchiveError::Corrupt` otherwise;
/// the returned graph's own encoding words are the archive's words.
#[verifier::loop_isolation(false)]
#[verifier::rlimit(100)]
pub fn decode(bytes: &[u8]) -> (r: Result<CsrGraph, ArchiveError>)
    ensures
        match r {
            Ok(g) => g.wf() && valid_archive(bytes@) && archive_words(g) == words(bytes@),
            Err(e) => e == ArchiveError::Corrupt && !valid_archive(bytes@),
        },
{
    let len = bytes.len();
    if len % 4 != 0 {
        return Err(ArchiveError::Corrupt);
    }
    let wn = len / 4;
    let mut ws: Vec<u32> = Vec::new();
    let mut i: usize = 0;
    while i < wn
        invariant
            4 * wn <= bytes@.len(),
            i <= wn,
            ws@.len() == i,
            forall|j: int| 0 <= j < i ==> (#[trigger] ws@[j]) == word_at(bytes@, j),
        decreases wn - i,
    {
        let w = read_word(bytes, i);
        ws.push(w);
        i = i + 1;
    }
    proof {
        assert(ws@ =~= words(bytes@));
    }
    if ws.len() < 4 {
        return Err(ArchiveError::Corrupt);
    }
    if ws[0] != ARCHIVE_MAGIC {
        return Err(ArchiveError::Corrupt);
    }
    let n32 = ws[1];
    let e32 = ws[2];
    let r32 = ws[3];
    if n32 == u32::MAX {
        return Err(ArchiveError::Corrupt);
    }
    let expected: u64 = 4u64 + (n32 as u64 + 1) + e32 as u64 + (n32 as u64 + 1) + r32 as u64
        + n32 as u64;
    if ws.len() as u64 != expected {
        return Err(ArchiveError::Corrupt);
    }
    let n = n32 as usize;
    let b2 = 4 + (n + 1);
    let b3 = b2 + e32 as usize;
    let b4 = b3 + (n + 1);
    let b5 = b4 + r32 as usize;
    let b6 = b5 + n;
    let offsets = copy_range(&ws, 4, b2);
    let edges = copy_range(&ws, b2, b3);
    let reverse_offsets = copy_range(&ws, b3, b4);
    let reverse_edges = copy_range(&ws, b4, b5);
    let ids = copy_range(&ws, b5, b6);
    if !csr_valid(&offsets, &edges, n) {
        return Err(ArchiveError::Corrupt);
    }
    if !csr_valid(&reverse_offsets, &reverse_edges, n) {
        return Err(ArchiveError::Corrupt);
    }
    if !contained_in_transpose(&offsets, &edges, &reverse_offsets, &reverse_edges, n) {
        return Err(ArchiveError::Corrupt);
    }
    if !contained_in_transpose(&reverse_offsets, &reverse_edges, &offsets, &edges, n) {
        return Err(ArchiveError::Corrupt);
    }
    let mut page_id_to_index: HashMap<u32, u32> = HashMap::new();
    let mut j: usize = 0;
    while j < n
        invariant
            j <= n,
            ids@.len() == n,
            n < u32::MAX,
            forall|k: int|
                0 <= k < j ==> page_id_to_index@.contains_key(#[trigger] ids@[k])
                    && page_id_to_index@[ids@[k]] == k as u32,
            forall|id: u32|
                #[trigger] page_id_to_index@.contains_key(id) ==> (page_id_to_index@[id] as int)
                    < j && ids@[page_id_to_index@[id] as int] == id,
            forall|k1: int, k2: int| 0 <= k1 < k2 < j ==> ids@[k1] != ids@[k2],
        decreases n - j,
    {
        if page_id_to_index.contains_key(&ids[j]) {
            proof {
                let k = page_id_to_index@[ids@[j as int]] as int;
                assert(0 <= k < j && ids@[k] == ids@[j as int]);
                let wsp = words(bytes@);
                let nn = wsp[1] as int;
                let ei = wsp[2] as int;
                let ri = wsp[3] as int;
                let ids_spec = wsp.subrange(
                    4 + nn + 1 + ei + nn + 1 + ri,
                    4 + nn + 1 + ei + nn + 1 + ri + nn,
                );
                assert(ids_spec =~= ids@);
                assert(ids_spec[k] == ids_spec[j as int]);
                assert(!valid_archive(bytes@));
            }
            return Err(ArchiveError::Corrupt);
        }
        page_id_to_index.insert(ids[j], j as u32);
        j = j + 1;
    }
    let g = CsrGraph {
        offsets,
        edges,
        reverse_offsets,
        reverse_edges,
        page_id_to_index,
        index_to_page_id: ids,
    };
    proof {
        assert(g.wf());
        assert(valid_archive(bytes@));
        let aw = archive_words(g);
        lemma_archive_words_shape(g);
        lemma_segments_equal(aw, ws@, b2 as int, b3 as int, b4 as int, b5 as int, b6 as int);
    }
    Ok(g)
}

/// Serialisation distributes over concatenation of word sequences.
proof fn lemma_words_concat(a: Seq<u32>, b: Seq<u32>)
    ensures
        words_to_bytes(a + b) == words_to_bytes(a) + words_to_bytes(b),
{
    let lhs = words_to_bytes(a + b);
    let rhs = words_to_bytes(a) + words_to_bytes(b);
    assert(lhs.len() == rhs.len());
    assert forall|j: int| 0 <= j < lhs.len() implies lhs[j] == rhs[j] by {
        if j < 4 * a.len() {
            assert((a + b)[j / 4] == a[j / 4]);
        } else {
            assert((a + b)[j / 4] == b[j / 4 - a.len()]);
            assert(rhs[j] == words_to_bytes(b)[j - 4 * a.len()]);
            assert(words_to_bytes(b)[j - 4 * a.len()] == word_bytes(b[(j - 4 * a.len()) / 4])[(j
                - 4 * a.len()) % 4]);
            assert((j - 4 * a.len()) / 4 == j / 4 - a.len());
            assert((j - 4 * a.len()) % 4 == j % 4);
        }
    }
    assert(lhs =~= rhs);
}

/// The two graphs have identical adjacency structure, forward and
/// reverse, and identical id maps.
pub open spec fn same_graph(g1: CsrGraph, g2: CsrGraph) -> bool {
    &&& g1.offsets@ == g2.offsets@
    &&& g1.edges@ == g2.edges@
    &&& g1.reverse_offsets@ == g2.reverse_offsets@
    &&& g1.reverse_edges@ == g2.reverse_edges@
    &&& g1.index_to_page_id@ == g2.index_to_page_id@
    &&& g1.page_id_to_index@ == g2.page_id_to_index@
}

/// Where the header and each field of a graph sit inside its word
/// encoding.
proof fn lemma_archive_words_shape(g: CsrGraph)
    requires
        g.dims_ok(),
        g.edges@.len() <= u32::MAX,
        g.reverse_edges@.len() <= u32::MAX,
    ensures
        ({
            let aw = archive_words(g);
            let ni = g.node_count();
            let ei = g.edges@.len() as int;
            let ri = g.reverse_edges@.len() as int;
            &&& aw.len() == 4 + (ni + 1) + ei + (ni + 1) + ri + ni
            &&& aw[0] == ARCHIVE_MAGIC
            &&& aw[1] == ni as u32
            &&& aw[2] == ei as u32
            &&& aw[3] == ri as u32
            &&& aw.subrange(4, 4 + ni + 1) == g.offsets@
            &&& aw.subrange(4 + ni + 1, 4 + ni + 1 + ei) == g.edges@
            &&& aw.subrange(4 + ni + 1 + ei, 4 + ni + 1 + ei + ni + 1) == g.reverse_offsets@
            &&& aw.subrange(4 + ni + 1 + ei + ni + 1, 4 + ni + 1 + ei + ni + 1 + ri)
                == g.reverse_edges@
            &&& aw.subrange(4 + ni + 1 + ei + ni + 1 + ri, 4 + ni + 1 + ei + ni + 1 + ri + ni)
                == g.index_to_page_id@
        }),
{
    let aw = archive_words(g);
    let ni = g.node_count();
    let ei = g.edges@.len() as int;
    let ri = g.reverse_edges@.len() as int;
    assert(aw.subrange(4, 4 + ni + 1) =~= g.offsets@);
    assert(aw.subrange(4 + ni + 1, 4 + ni + 1 + ei) =~= g.edges@);
    assert(aw.subrange(4 + ni + 1 + ei, 4 + ni + 1 + ei + ni + 1) =~= g.reverse_offsets@);
    assert(aw.subrange(4 + ni + 1 + ei + ni + 1, 4 + ni + 1 + ei + ni + 1 + ri)
        =~= g.reverse_edges@);
    assert(aw.subrange(4 + ni + 1 + ei + ni + 1 + ri, 4 + ni + 1 + ei + ni + 1 + ri + ni)
        =~= g.index_to_page_id@);
}

/// Two word sequences that agree on the header and on every segment
/// between the given cut points are equal.
proof fn lemma_segments_equal(a: Seq<u32>, b: Seq<u32>, c1: int, c2: int, c3: int, c4: int, c5: int)
    requires
        a.len() == b.len(),
        4 <= c1,
        c1 <= c2,
        c2 <= c3,
        c3 <= c4,
        c4 <= c5,
        c5 == a.len(),
        a[0] == b[0],
        a[1] == b[1],
        a[2] == b[2],
        a[3] == b[3],
        a.subrange(4, c1) == b.subrange(4, c1),
        a.subrange(c1, c2) == b.subrange(c1, c2),
        a.subrange(c2, c3) == b.subrange(c2, c3),
        a.subrange(c3, c4) == b.subrange(c3, c4),
        a.subrange(c4, c5) == b.subrange(c4, c5),
    ensures
        a == b,
{
    assert forall|k: int| 0 <= k < a.len() implies a[k] == b[k] by {
        if k == 0 {
        } else if k == 1 {
        } else if k == 2 {
        } else if k == 3 {
        } else if k < c1 {
            vstd::seq::lemma_seq_subrange_index_alt::<u32>(a, 4, c1, k);
            vstd::seq::lemma_seq_subrange_index_alt::<u32>(b, 4, c1, k);
        } else if k < c2 {
            vstd::seq::lemma_seq_subrange_index_alt::<u32>(a, c1, c2, k);
            vstd::seq::lemma_seq_subrange_index_alt::<u32>(b, c1, c2, k);
        } else if k < c3 {
            vstd::seq::lemma_seq_subrange_index_alt::<u32>(a, c2, c3, k);
            vstd::seq::lemma_seq_subrange_index_alt::<u32>(b, c2, c3, k);
        } else if k < c4 {
            vstd::seq::lemma_seq_subrange_index_alt::<u32>(a, c3, c4, k);
            vstd::seq::lemma_seq_subrange_index_alt::<u32>(b, c3, c4, k);
        } else {
            vstd::seq::lemma_seq_subrange_index_alt::<u32>(a, c4, c5, k);
            vstd::seq::lemma_seq_subrange_index_alt::<u32>(b, c4, c5, k);
        }
    }
    assert(a =~= b);
}

/// Law: the encoding of a well-formed graph is a valid archive, so the
/// loader accepts exactly what the encoder writes.
pub proof fn lemma_encode_valid(g: CsrGraph)
    requires
        g.wf(),
    ensures
        valid_archive(spec_encode(g)),
        words(spec_encode(g)) == archive_words(g),
{
    let aw = archive_words(g);
    lemma_words_roundtrip(aw);
    let bytes = spec_encode(g);
    assert(bytes.len() == 4 * aw.len());
    assert(words(bytes) == aw);
    let ni = g.node_count();
    assert(g.edges@.len() == g.offsets@[ni]);
    assert(g.reverse_edges@.len() == g.reverse_offsets@[ni]);
    lemma_archive_words_shape(g);
    assert forall|i: int, j: int| 0 <= i < j < ni implies g.index_to_page_id@[i]
        != g.index_to_page_id@[j] by {
        assert(g.page_id_to_index@[g.index_to_page_id@[i]] == i as u32);
        assert(g.page_id_to_index@[g.index_to_page_id@[j]] == j as u32);
    }
}

/// Law: the archive words pin the graph down — two well-formed graphs
/// with the same encoding have identical adjacency structure and id maps.
/// Together with the codec contracts this says that reloading an encoded
/// graph through the loader reproduces it exactly.
pub proof fn lemma_archive_round_trip(g1: CsrGraph, g2: CsrGraph)
    requires
        g1.wf(),
        g2.wf(),
        archive_words(g1) == archive_words(g2),
    ensures
        same_graph(g1, g2),
{
    assert(g1.edges@.len() == g1.offsets@[g1.node_count()]);
    assert(g1.reverse_edges@.len() == g1.reverse_offsets@[g1.node_count()]);
    assert(g2.edges@.len() == g2.offsets@[g2.node_count()]);
    assert(g2.reverse_edges@.len() == g2.reverse_offsets@[g2.node_count()]);
    lemma_archive_words_shape(g1);
    lemma_archive_words_shape(g2);
    assert(g1.node_count() as u32 == g2.node_count() as u32);
    assert(g1.node_count() == g2.node_count());
    assert(g1.edges@.len() == g2.edges@.len());
    assert(g1.reverse_edges@.len() == g2.reverse_edges@.len());
    assert forall|id: u32| #[trigger] g1.page_id_to_index@.contains_key(id) implies
        g2.page_id_to_index@.contains_key(id) && g2.page_id_to_index@[id]
        == g1.page_id_to_index@[id] by {
        let i = g1.page_id_to_index@[id] as int;
        assert(g1.index_to_page_id@[i] == id);
        assert(g2.page_id_to_index@.contains_key(g2.index_to_page_id@[i]));
        assert(g2.page_id_to_index@[g2.index_to_page_id@[i]] == i as u32);
    }
    assert forall|id: u32| #[trigger] g2.page_id_to_index@.contains_key(id) implies
        g1.page_id_to_index@.contains_key(id) by {
        let i = g2.page_id_to_index@[id] as int;
        assert(g2.index_to_page_id@[i] == id);
        assert(g1.page_id_to_index@.contains_key(g1.index_to_page_id@[i]));
    }
    assert(g1.page_id_to_index@ =~= g2.page_id_to_index@);
}

} // verus!
