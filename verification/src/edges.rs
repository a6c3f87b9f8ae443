//! Sparse block index over `*-domain-edges.txt` for outbound lookups.
//!
//! The file is `from_id \t to_id`, sorted by `from_id`, so all edges of one
//! domain sit in a contiguous run. Finding that run needs nothing but the id
//! at a few thousand file positions, which is why this index is built by
//! sampling the file every [`BLOCK_BYTES`] rather than by reading it.

use vstd::prelude::*;
use crate::binary::{le32, le64, read32, read64, put32, put64, get32, get64, lemma_le_round_trips};
use crate::lines::{
    first_index_of, find, split_lines, next_line_end, trim_eol, spec_trim_eol, parse_edge_line,
    spec_parse_edge_line, is_first_index, lemma_first_index_some, lemma_first_index_unique, lemma_first_index_none,
};
use crate::order::{dedup_u32, increasing_u32, sorted_u32};
use crate::vertices::{bsearch, lemma_bsearch_range, lemma_bsearch_partition, prefix_pred, IndexFileError};

verus! {

/// Bytes between samples: 4 MB, about 16 000 entries for a 67 GB file.
pub const BLOCK_BYTES: u64 = 4194304;
/// How much is read at each sample: enough for a whole line.
pub const PROBE_BYTES: u64 = 4096;

/// One sample: where a line starts and the `from_id` on it.
#[derive(Clone, Copy, PartialEq, Eq, Structural)]
pub struct EdgeBlock {
    pub offset: u64,
    pub first_from: u32,
}

/// What the sampling learned about the edges file.
#[derive(Clone, Copy, PartialEq, Eq, Structural)]
pub struct EdgesSummary {
    pub sorted_by_from: bool,
    pub estimated_edges: u64,
    pub max_from_id: u32,
}

/// The sampled block index, as written to `edges.idx`.
pub struct EdgeIndex {
    pub blocks: Vec<EdgeBlock>,
    /// Bytes between samples, as recorded in the header.
    pub block_bytes: u32,
    pub file_size: u64,
    pub sorted_by_from: bool,
    /// Estimated from the average sampled line length.
    pub estimated_edges: u64,
}

/// Why the edges file could not be indexed.
#[derive(Debug, Clone, Copy, PartialEq, Eq, Structural)]
pub enum EdgeBuildError {
    /// The file holds no bytes.
    Empty,
    /// No sample landed on a `from_id \t to_id` line.
    NoEdgeLines,
}

/// What a probe at `p` finds: the offset of the first whole line in the
/// 4 KB window at `p`, its `from_id`, and its length with the newline.
pub open spec fn probe_at(src: Seq<u8>, p: int) -> Option<(int, u32, int)> {
    let n = src.len() as int;
    let w = src.subrange(p, if p + 4096 < n { p + 4096 } else { n });
    let start: Option<int> = if p == 0 {
        Some(0)
    } else {
        match first_index_of(w, 10) {
            Some(i) => Some(i + 1),
            None => None,
        }
    };
    match start {
        None => None,
        Some(s) => {
            let rest = w.subrange(s, w.len() as int);
            let le = match first_index_of(rest, 10) {
                Some(e) => e,
                None => rest.len() as int,
            };
            match spec_parse_edge_line(spec_trim_eol(rest.subrange(0, le))) {
                Some((from, _to)) => Some((p + s, from, le + 1)),
                None => None,
            }
        },
    }
}

/// The samples taken at the first `m` positions `0, step, 2·step, …`.
pub open spec fn samples(src: Seq<u8>, step: int, m: nat) -> Seq<(int, u32, int)>
    decreases m,
{
    if m == 0 {
        Seq::empty()
    } else {
        let before = samples(src, step, (m - 1) as nat);
        match probe_at(src, (m - 1) * step) {
            Some(x) => before.push(x),
            None => before,
        }
    }
}

/// How many sample positions fall inside a file of `n` bytes.
pub open spec fn probe_count(n: int, step: int) -> nat {
    ((n + step - 1) / step) as nat
}

pub open spec fn samples_sorted(s: Seq<(int, u32, int)>) -> bool {
    forall|k: int| 0 < k < s.len() ==> #[trigger] s[k].1 >= s[k - 1].1
}

pub open spec fn samples_max(s: Seq<(int, u32, int)>) -> u32
    decreases s.len(),
{
    if s.len() == 0 {
        0
    } else {
        let m = samples_max(s.drop_last());
        if s.last().1 > m { s.last().1 } else { m }
    }
}

pub open spec fn samples_bytes(s: Seq<(int, u32, int)>) -> int
    decreases s.len(),
{
    if s.len() == 0 { 0 } else { samples_bytes(s.drop_last()) + s.last().2 }
}

pub open spec fn sample_blocks(s: Seq<(int, u32, int)>) -> Seq<EdgeBlock> {
    s.map_values(|x: (int, u32, int)| EdgeBlock { offset: x.0 as u64, first_from: x.1 })
}

/// Average sampled line length, never below 4 bytes.
pub open spec fn average_line(s: Seq<(int, u32, int)>) -> int {
    let lines = if s.len() > 1 { s.len() as int } else { 1 };
    let a = samples_bytes(s) / lines;
    if a > 4 { a } else { 4 }
}

/// What sampling `src` every `step` bytes gives.
pub open spec fn spec_sample_edges(src: Seq<u8>, step: int) -> Result<(Seq<EdgeBlock>, EdgesSummary), EdgeBuildError> {
    let s = samples(src, step, probe_count(src.len() as int, step));
    if src.len() == 0 {
        Err(EdgeBuildError::Empty)
    } else if s.len() == 0 {
        Err(EdgeBuildError::NoEdgeLines)
    } else {
        Ok((sample_blocks(s), EdgesSummary {
            sorted_by_from: samples_sorted(s),
            estimated_edges: ((src.len() as int) / average_line(s)) as u64,
            max_from_id: samples_max(s),
        }))
    }
}

proof fn lemma_samples_push(s0: Seq<(int, u32, int)>, x: (int, u32, int))
    ensures
        sample_blocks(s0.push(x)) == sample_blocks(s0).push(EdgeBlock { offset: x.0 as u64, first_from: x.1 }),
        samples_sorted(s0.push(x)) == (samples_sorted(s0) && (s0.len() > 0 ==> x.1 >= s0.last().1)),
        samples_max(s0.push(x)) == (if x.1 > samples_max(s0) { x.1 } else { samples_max(s0) }),
        samples_bytes(s0.push(x)) == samples_bytes(s0) + x.2,
{
    let s1 = s0.push(x);
    assert(s1.drop_last() =~= s0);
    assert(sample_blocks(s1) =~= sample_blocks(s0).push(EdgeBlock { offset: x.0 as u64, first_from: x.1 }));
    if samples_sorted(s0) && (s0.len() > 0 ==> x.1 >= s0.last().1) {
        assert forall|k: int| 0 < k < s1.len() implies #[trigger] s1[k].1 >= s1[k - 1].1 by {
            if k < s0.len() {
                assert(s1[k] == s0[k] && s1[k - 1] == s0[k - 1]);
            }
        }
    }
    if samples_sorted(s1) {
        assert forall|k: int| 0 < k < s0.len() implies #[trigger] s0[k].1 >= s0[k - 1].1 by {
            assert(s1[k] == s0[k] && s1[k - 1] == s0[k - 1]);
        }
        if s0.len() > 0 {
            assert(s1[s0.len() as int].1 >= s1[s0.len() - 1].1);
        }
    }
}

#[verifier::spinoff_prover]
#[verifier::rlimit(30)]
fn probe(source: &[u8], position: u64) -> (r: Option<(u64, u32, u64)>)
    requires
        position < source@.len(),
    ensures
        match r {
            Some((o, f, l)) => probe_at(source@, position as int) == Some((o as int, f, l as int)) && l <= 4097,
            None => probe_at(source@, position as int) is None,
        },
{
    let n = source.len() as u64;
    let stop: u64 = if n - position > 4096 { position + 4096 } else { n };
    let window = &source[position as usize..stop as usize];
    assert(window@ == source@.subrange(position as int, if position + 4096 < n { position + 4096 } else { n as int }));
    let start: usize = if position == 0 {
        0
    } else {
        match find(10u8, window) {
            Some(i) => i + 1,
            None => return None,
        }
    };
    let rest = &window[start..window.len()];
    let le: usize = match find(10u8, rest) {
        Some(e) => e,
        None => rest.len(),
    };
    let line = trim_eol(&rest[0..le]);
    match parse_edge_line(line) {
        Some((from, _to)) => Some((position + start as u64, from, le as u64 + 1)),
        None => None,
    }
}

proof fn lemma_probe_count_end(n: int, step: int, m: nat)
    requires
        step > 0,
        n >= 0,
        m * step >= n,
        m == 0 || (m - 1) * step < n,
    ensures
        m == probe_count(n, step),
{
    if m == 0 {
        assert(n == 0);
        assert((step - 1) / step == 0) by (nonlinear_arith)
            requires step > 0;
    } else {
        assert((m - 1) * step + step == m * step) by (nonlinear_arith);
        assert(n + step - 1 >= m * step - step + step);
        assert(n + step - 1 < m * step + step);
        assert((n + step - 1) / step == m) by (nonlinear_arith)
            requires n + step - 1 >= m * step, n + step - 1 < m * step + step, step > 0, m >= 1;
    }
}

/// Sample the edges file `source` every `block_bytes` bytes, reading 4 KB at
/// each sample position and keeping the first whole line found there.
#[verifier::rlimit(80)]
pub fn build_with_block_size(source: &[u8], block_bytes: u64) -> (r: Result<(Vec<EdgeBlock>, EdgesSummary), EdgeBuildError>)
    requires
        block_bytes > 0,
    ensures
        match r {
            Ok((blocks, summary)) => spec_sample_edges(source@, block_bytes as int) == Ok::<(Seq<EdgeBlock>, EdgesSummary), EdgeBuildError>((blocks@, summary)),
            Err(e) => spec_sample_edges(source@, block_bytes as int) == Err::<(Seq<EdgeBlock>, EdgesSummary), EdgeBuildError>(e),
        },
{
    let n = source.len() as u64;
    if n == 0 {
        return Err(EdgeBuildError::Empty);
    }
    let mut blocks: Vec<EdgeBlock> = Vec::new();
    let mut sorted = true;
    let mut previous: Option<u32> = None;
    let mut max_from_id: u32 = 0;
    let mut sampled_lines: u64 = 0;
    let mut sampled_bytes: u128 = 0;
    let mut position: u64 = 0;
    let mut m: u64 = 0;
    let ghost step = block_bytes as int;
    while position < n
        invariant
            n == source@.len() > 0,
            step == block_bytes > 0,
            position <= n,
            position < n ==> position == m * step,
            position == n ==> m * step >= n,
            m == 0 || (m - 1) * step < n,
            blocks@ == sample_blocks(samples(source@, step, m as nat)),
            sorted == samples_sorted(samples(source@, step, m as nat)),
            max_from_id == samples_max(samples(source@, step, m as nat)),
            sampled_lines == samples(source@, step, m as nat).len(),
            sampled_bytes == samples_bytes(samples(source@, step, m as nat)),
            sampled_lines <= m,
            sampled_bytes <= 4097 * m,
            m <= n,
            match previous {
                Some(p) => samples(source@, step, m as nat).len() > 0 && p == samples(source@, step, m as nat).last().1,
                None => samples(source@, step, m as nat).len() == 0,
            },
        decreases n - position,
    {
        let ghost s0 = samples(source@, step, m as nat);
        proof {
            assert(m <= m * step) by (nonlinear_arith)
                requires step >= 1, m >= 0;
        }
        match probe(source, position) {
            Some((offset, from, len)) => {
                proof {
                    lemma_samples_push(s0, (offset as int, from, len as int));
                }
                match previous {
                    Some(p) => {
                        if from < p {
                            sorted = false;
                        }
                    },
                    None => {},
                }
                previous = Some(from);
                if from > max_from_id {
                    max_from_id = from;
                }
                blocks.push(EdgeBlock { offset, first_from: from });
                sampled_lines = sampled_lines + 1;
                sampled_bytes = sampled_bytes + len as u128;
            },
            None => {},
        }
        m = m + 1;
        proof {
            assert(m * step == (m - 1) * step + step) by (nonlinear_arith);
        }
        if n - position <= block_bytes {
            position = n;
        } else {
            position = position + block_bytes;
        }
    }
    proof {
        lemma_probe_count_end(n as int, step, m as nat);
    }
    if sampled_lines == 0 {
        return Err(EdgeBuildError::NoEdgeLines);
    }
    let lines: u128 = if sampled_lines > 1 { sampled_lines as u128 } else { 1 };
    let avg: u128 = sampled_bytes / lines;
    let average: u128 = if avg > 4 { avg } else { 4 };
    let estimated_edges = (n as u128 / average) as u64;
    Ok((blocks, EdgesSummary { sorted_by_from: sorted, estimated_edges, max_from_id }))
}

pub open spec fn edge_magic() -> Seq<u8> {
    seq![87u8, 82u8, 69u8, 73u8]
}

pub open spec fn edge_entry_bytes(b: EdgeBlock) -> Seq<u8> {
    le64(b.offset) + le32(b.first_from) + seq![0u8, 0u8, 0u8, 0u8]
}

pub open spec fn edge_entries_bytes(bs: Seq<EdgeBlock>) -> Seq<u8>
    decreases bs.len(),
{
    if bs.len() == 0 { Seq::empty() } else { edge_entries_bytes(bs.drop_last()) + edge_entry_bytes(bs.last()) }
}

/// `edges.idx`: a 48-byte header, then one 16-byte entry per sample.
pub open spec fn spec_encode_edge_index(blocks: Seq<EdgeBlock>, block_bytes: u32, file_size: u64, sorted: bool,
    estimated_edges: u64) -> Seq<u8> {
    edge_magic() + le32(1) + le32(block_bytes) + seq![if sorted { 1u8 } else { 0u8 }, 0u8, 0u8, 0u8]
        + le64(file_size) + le64((blocks.len() % 0x1_0000_0000_0000_0000) as u64) + le64(estimated_edges)
        + seq![0u8, 0u8, 0u8, 0u8, 0u8, 0u8, 0u8, 0u8]
        + edge_entries_bytes(blocks)
}

pub open spec fn edge_entry_at(raw: Seq<u8>, at: int) -> EdgeBlock {
    EdgeBlock { offset: read64(raw, at), first_from: read32(raw, at + 8) }
}

/// What reading `raw` as `edges.idx` gives: blocks, block size, file size,
/// sortedness and edge estimate, or why not.
pub open spec fn spec_decode_edge_index(raw: Seq<u8>) -> Result<(Seq<EdgeBlock>, u32, u64, bool, u64), IndexFileError> {
    if raw.len() < 48 || raw.subrange(0, 4) != edge_magic() {
        Err(IndexFileError::NotAnIndex)
    } else if read32(raw, 4) != 1 {
        Err(IndexFileError::Version(read32(raw, 4)))
    } else {
        let count = read64(raw, 24) as int;
        if raw.len() < 48 + 16 * count {
            Err(IndexFileError::Truncated)
        } else {
            Ok((Seq::new(count as nat, |i: int| edge_entry_at(raw, 48 + 16 * i)), read32(raw, 8), read64(raw, 16),
                raw[12] == 1, read64(raw, 32)))
        }
    }
}

proof fn lemma_edge_entries_layout(bs: Seq<EdgeBlock>)
    ensures
        edge_entries_bytes(bs).len() == 16 * bs.len(),
        forall|i: int| 0 <= i < bs.len() ==> edge_entries_bytes(bs).subrange(16 * i, 16 * i + 16) == edge_entry_bytes(#[trigger] bs[i]),
    decreases bs.len(),
{
    lemma_le_round_trips();
    if bs.len() > 0 {
        let t = bs.drop_last();
        lemma_edge_entries_layout(t);
        let e = edge_entries_bytes(bs);
        assert(edge_entry_bytes(bs.last()).len() == 16);
        assert forall|i: int| 0 <= i < bs.len() implies e.subrange(16 * i, 16 * i + 16) == edge_entry_bytes(#[trigger] bs[i]) by {
            if i < t.len() {
                assert(e.subrange(16 * i, 16 * i + 16) =~= edge_entries_bytes(t).subrange(16 * i, 16 * i + 16));
                assert(t[i] == bs[i]);
            } else {
                assert(e.subrange(16 * i, 16 * i + 16) =~= edge_entry_bytes(bs.last()));
            }
        }
    }
}

/// Reading back a written edge index gives the index that was written.
pub proof fn lemma_edge_index_round_trip(blocks: Seq<EdgeBlock>, block_bytes: u32, file_size: u64, sorted: bool,
    estimated_edges: u64)
    requires
        blocks.len() <= u64::MAX,
    ensures
        spec_decode_edge_index(spec_encode_edge_index(blocks, block_bytes, file_size, sorted, estimated_edges))
            == Ok::<(Seq<EdgeBlock>, u32, u64, bool, u64), IndexFileError>((blocks, block_bytes, file_size, sorted, estimated_edges)),
{
    lemma_le_round_trips();
    lemma_edge_entries_layout(blocks);
    let raw = spec_encode_edge_index(blocks, block_bytes, file_size, sorted, estimated_edges);
    assert(raw.subrange(0, 4) =~= edge_magic());
    assert(raw.subrange(4, 8) =~= le32(1));
    assert(raw.subrange(8, 12) =~= le32(block_bytes));
    assert(raw.subrange(16, 24) =~= le64(file_size));
    assert(raw.subrange(24, 32) =~= le64(blocks.len() as u64));
    assert(raw.subrange(32, 40) =~= le64(estimated_edges));
    assert(raw[12] == if sorted { 1u8 } else { 0u8 });
    let decoded = Seq::new(blocks.len(), |i: int| edge_entry_at(raw, 48 + 16 * i));
    assert forall|i: int| 0 <= i < blocks.len() implies decoded[i] == blocks[i] by {
        let at = 48 + 16 * i;
        assert(raw.subrange(at, at + 16) =~= edge_entries_bytes(blocks).subrange(16 * i, 16 * i + 16));
        let e = edge_entry_bytes(blocks[i]);
        assert(raw.subrange(at, at + 8) =~= e.subrange(0, 8));
        assert(e.subrange(0, 8) =~= le64(blocks[i].offset));
        assert(raw.subrange(at + 8, at + 12) =~= e.subrange(8, 12));
        assert(e.subrange(8, 12) =~= le32(blocks[i].first_from));
    }
    assert(decoded =~= blocks);
}

impl EdgeIndex {
    /// The bytes of `edges.idx` for this index.
    pub fn encode(&self) -> (raw: Vec<u8>)
        ensures
            raw@ == spec_encode_edge_index(self.blocks@, self.block_bytes, self.file_size, self.sorted_by_from,
                self.estimated_edges),
    {
        let mut out: Vec<u8> = Vec::new();
        out.push(87u8);
        out.push(82u8);
        out.push(69u8);
        out.push(73u8);
        put32(&mut out, 1);
        put32(&mut out, self.block_bytes);
        out.push(if self.sorted_by_from { 1u8 } else { 0u8 });
        out.push(0u8);
        out.push(0u8);
        out.push(0u8);
        put64(&mut out, self.file_size);
        put64(&mut out, self.blocks.len() as u64);
        put64(&mut out, self.estimated_edges);
        let mut z: usize = 0;
        let ghost before_pad = out@;
        while z < 8
            invariant
                z <= 8,
                out@ == before_pad + Seq::new(z as nat, |k: int| 0u8),
            decreases 8 - z,
        {
            out.push(0u8);
            assert(out@ =~= before_pad + Seq::new((z + 1) as nat, |k: int| 0u8));
            z = z + 1;
        }
        let ghost head = out@;
        assert(head =~= edge_magic() + le32(1) + le32(self.block_bytes)
            + seq![if self.sorted_by_from { 1u8 } else { 0u8 }, 0u8, 0u8, 0u8]
            + le64(self.file_size) + le64((self.blocks@.len() % 0x1_0000_0000_0000_0000) as u64)
            + le64(self.estimated_edges) + seq![0u8, 0u8, 0u8, 0u8, 0u8, 0u8, 0u8, 0u8]);
        let mut i: usize = 0;
        while i < self.blocks.len()
            invariant
                i <= self.blocks@.len(),
                out@ == head + edge_entries_bytes(self.blocks@.subrange(0, i as int)),
            decreases self.blocks.len() - i,
        {
            let b = self.blocks[i];
            put64(&mut out, b.offset);
            put32(&mut out, b.first_from);
            out.push(0u8);
            out.push(0u8);
            out.push(0u8);
            out.push(0u8);
            proof {
                let p = self.blocks@.subrange(0, i + 1);
                assert(p.drop_last() =~= self.blocks@.subrange(0, i as int));
                assert(out@ =~= head + edge_entries_bytes(p));
            }
            i = i + 1;
        }
        assert(self.blocks@.subrange(0, i as int) =~= self.blocks@);
        out
    }

    /// Read `edges.idx`.
    pub fn decode(raw: &[u8]) -> (r: Result<EdgeIndex, IndexFileError>)
        ensures
            match r {
                Ok(ix) => spec_decode_edge_index(raw@) == Ok::<(Seq<EdgeBlock>, u32, u64, bool, u64), IndexFileError>(
                    (ix.blocks@, ix.block_bytes, ix.file_size, ix.sorted_by_from, ix.estimated_edges)),
                Err(e) => spec_decode_edge_index(raw@) == Err::<(Seq<EdgeBlock>, u32, u64, bool, u64), IndexFileError>(e),
            },
    {
        let n = raw.len();
        if n < 48 || !(raw[0] == 87u8 && raw[1] == 82u8 && raw[2] == 69u8 && raw[3] == 73u8) {
            proof {
                if n >= 48 && raw@.subrange(0, 4) == edge_magic() {
                    assert(raw@.subrange(0, 4)[0] == raw@[0]);
                    assert(raw@.subrange(0, 4)[1] == raw@[1]);
                    assert(raw@.subrange(0, 4)[2] == raw@[2]);
                    assert(raw@.subrange(0, 4)[3] == raw@[3]);
                }
            }
            return Err(IndexFileError::NotAnIndex);
        }
        assert(raw@.subrange(0, 4) =~= edge_magic());
        let format = get32(raw, 4);
        if format != 1 {
            return Err(IndexFileError::Version(format));
        }
        let block_bytes = get32(raw, 8);
        let sorted_by_from = raw[12] == 1u8;
        let file_size = get64(raw, 16);
        let count = get64(raw, 24);
        let estimated_edges = get64(raw, 32);
        if (n as u128) < 48 + 16 * (count as u128) {
            return Err(IndexFileError::Truncated);
        }
        let c = count as usize;
        let ghost expected = Seq::new(count as nat, |i: int| edge_entry_at(raw@, 48 + 16 * i));
        let mut blocks: Vec<EdgeBlock> = Vec::new();
        let mut i: usize = 0;
        while i < c
            invariant
                i <= c == count,
                48 + 16 * c <= n == raw@.len(),
                blocks@ == expected.subrange(0, i as int),
                expected == Seq::new(count as nat, |i: int| edge_entry_at(raw@, 48 + 16 * i)),
            decreases c - i,
        {
            let at = 48 + 16 * i;
            let b = EdgeBlock { offset: get64(raw, at), first_from: get32(raw, at + 8) };
            blocks.push(b);
            proof {
                assert(expected[i as int] == b);
                assert(blocks@ =~= expected.subrange(0, i + 1));
            }
            i = i + 1;
        }
        assert(blocks@ =~= expected);
        Ok(EdgeIndex { blocks, block_bytes, file_size, sorted_by_from, estimated_edges })
    }
}

impl EdgeIndex {
    /// Load `edges.idx` for an edges file of `source_len` bytes; an index
    /// built for a file of another size is refused.
    pub fn open(raw: &[u8], source_len: u64) -> (r: Result<EdgeIndex, IndexFileError>)
        ensures
            match r {
                Ok(ix) => spec_decode_edge_index(raw@) == Ok::<(Seq<EdgeBlock>, u32, u64, bool, u64), IndexFileError>(
                    (ix.blocks@, ix.block_bytes, ix.file_size, ix.sorted_by_from, ix.estimated_edges))
                    && ix.file_size == source_len,
                Err(IndexFileError::SourceChanged { actual, expected }) => actual == source_len && expected != source_len
                    && (spec_decode_edge_index(raw@) matches Ok(parts) && parts.2 == expected),
                Err(e) => spec_decode_edge_index(raw@) == Err::<(Seq<EdgeBlock>, u32, u64, bool, u64), IndexFileError>(e),
            },
    {
        let ix = EdgeIndex::decode(raw)?;
        if ix.file_size != source_len {
            return Err(IndexFileError::SourceChanged { actual: source_len, expected: ix.file_size });
        }
        Ok(ix)
    }
}

/// Why an outbound lookup was refused.
#[derive(Debug, Clone, Copy, PartialEq, Eq, Structural)]
pub enum OutboundError {
    /// The file is not sorted by `from_id`: the run cannot be found by search.
    NotSortedByFrom,
}

/// Walking the lines of the edges file from a sample on: the destinations of
/// `id` met so far (`acc`, self links left out) and whether `limit` stopped
/// the walk.
pub open spec fn scan_outbound(lines: Seq<Seq<u8>>, id: u32, limit: int, acc: Seq<u32>) -> (Seq<u32>, bool)
    decreases lines.len(),
{
    if lines.len() == 0 {
        (acc, false)
    } else {
        let rest = lines.drop_first();
        match spec_parse_edge_line(spec_trim_eol(lines[0])) {
            None => scan_outbound(rest, id, limit, acc),
            Some((from, to)) => {
                if from < id {
                    scan_outbound(rest, id, limit, acc)
                } else if from > id {
                    (acc, false)
                } else if acc.len() >= limit {
                    (acc, true)
                } else {
                    scan_outbound(rest, id, limit, if to != id { acc.push(to) } else { acc })
                }
            },
        }
    }
}

impl EdgeIndex {
    /// The number of samples whose id is below `id`: the walk for `id` starts
    /// at the last of them, since the run of `id` can begin inside its block.
    pub open spec fn start_of(&self, id: u32) -> int {
        bsearch(|i: int| self.blocks@[i].first_from < id, 0, self.blocks@.len() as int)
    }

    /// Byte of a file of `n` bytes where the walk for `id` begins: the offset
    /// of the last sample whose id is below `id`, else the start of the file;
    /// `None` when nothing was sampled.
    pub open spec fn walk_from(&self, n: int, id: u32) -> Option<int> {
        if self.blocks@.len() == 0 {
            None
        } else {
            let p = self.start_of(id);
            let at = if p == 0 { 0 } else { self.blocks@[p - 1].offset as int };
            Some(if at < n { at } else { n })
        }
    }

    /// The lines walked for `id` in the file `source`.
    pub open spec fn walk_lines(&self, source: Seq<u8>, id: u32) -> Option<Seq<Seq<u8>>> {
        match self.walk_from(source.len() as int, id) {
            None => None,
            Some(at) => Some(split_lines(source.subrange(at, source.len() as int))),
        }
    }

    /// What `outbound` answers on the file `source`.
    pub open spec fn spec_outbound(&self, source: Seq<u8>, id: u32, limit: int) -> Result<(Seq<u32>, bool), OutboundError> {
        if !self.sorted_by_from {
            Err(OutboundError::NotSortedByFrom)
        } else {
            match self.walk_lines(source, id) {
                None => Ok((Seq::empty(), false)),
                Some(ls) => {
                    let walked = scan_outbound(ls, id, limit, Seq::empty());
                    Ok((dedup_u32(walked.0), walked.1))
                },
            }
        }
    }

    /// How many distinct destinations the run of `id` holds, with no cap: a
    /// cap as large as the number of lines walked never binds.
    pub open spec fn spec_outbound_total(&self, source: Seq<u8>, id: u32) -> Result<nat, OutboundError> {
        if !self.sorted_by_from {
            Err(OutboundError::NotSortedByFrom)
        } else {
            match self.walk_lines(source, id) {
                None => Ok(0),
                Some(ls) => Ok(dedup_u32(scan_outbound(ls, id, ls.len() as int, Seq::empty()).0).len()),
            }
        }
    }

    /// Where the walk for `from_id` begins in a file of `n` bytes.
    fn walk_start(&self, n: usize, from_id: u32) -> (r: Option<usize>)
        ensures
            match r {
                Some(at) => self.walk_from(n as int, from_id) == Some(at as int),
                None => self.walk_from(n as int, from_id) is None,
            },
    {
        let nb = self.blocks.len();
        if nb == 0 {
            return None;
        }
        let mut lo: usize = 0;
        let mut hi: usize = nb;
        let ghost pred = |i: int| self.blocks@[i].first_from < from_id;
        proof {
            lemma_bsearch_range(pred, 0, nb as int);
        }
        while lo < hi
            invariant
                lo <= hi <= nb == self.blocks@.len(),
                pred == (|i: int| self.blocks@[i].first_from < from_id),
                bsearch(pred, lo as int, hi as int) == bsearch(pred, 0, nb as int),
            decreases hi - lo,
        {
            let mid = lo + (hi - lo) / 2;
            if self.blocks[mid].first_from < from_id {
                lo = mid + 1;
            } else {
                hi = mid;
            }
        }
        let at: u64 = if lo == 0 { 0 } else { self.blocks[lo - 1].offset };
        Some(if at < n as u64 { at as usize } else { n })
    }

    /// Every domain id that `from_id` links to, ascending, capped at `limit`,
    /// with whether the cap cut the run short; `source` is the edges file.
    #[verifier::spinoff_prover]
    #[verifier::rlimit(40)]
    pub fn outbound(&self, source: &[u8], from_id: u32, limit: usize) -> (r: Result<(Vec<u32>, bool), OutboundError>)
        ensures
            match r {
                Ok((v, t)) => self.spec_outbound(source@, from_id, limit as int) == Ok::<(Seq<u32>, bool), OutboundError>((v@, t)),
                Err(e) => self.spec_outbound(source@, from_id, limit as int) == Err::<(Seq<u32>, bool), OutboundError>(e),
            },
    {
        if !self.sorted_by_from {
            return Err(OutboundError::NotSortedByFrom);
        }
        let mut out: Vec<u32> = Vec::new();
        let n = source.len();
        let mut cursor: usize = match self.walk_start(n, from_id) {
            None => return Ok((out, false)),
            Some(at) => at,
        };
        let ghost start = cursor as int;
        let ghost whole = split_lines(source@.subrange(start, n as int));
        let mut truncated = false;
        let mut done = false;
        while cursor < n && !done
            invariant
                n == source@.len(),
                start <= cursor <= n,
                whole == split_lines(source@.subrange(start, n as int)),
                !done ==> scan_outbound(whole, from_id, limit as int, Seq::empty())
                    == scan_outbound(split_lines(source@.subrange(cursor as int, n as int)), from_id, limit as int, out@),
                done ==> scan_outbound(whole, from_id, limit as int, Seq::empty()) == (out@, truncated),
                !done ==> !truncated,
            decreases n - cursor, if done { 0int } else { 1int },
        {
            let end = next_line_end(source, cursor);
            let ghost ls = split_lines(source@.subrange(cursor as int, n as int));
            proof {
                assert(ls.drop_first() =~= split_lines(source@.subrange(end as int, n as int)));
                assert(ls[0] == source@.subrange(cursor as int, end as int));
            }
            let raw_line = &source[cursor..end];
            let line = trim_eol(raw_line);
            match parse_edge_line(line) {
                None => {},
                Some((from, to)) => {
                    if from < from_id {
                    } else if from > from_id {
                        done = true;
                    } else if out.len() >= limit {
                        truncated = true;
                        done = true;
                    } else if to != from_id {
                        out.push(to);
                    }
                },
            }
            if !done {
                cursor = end;
            }
        }
        proof {
            if !done {
                assert(source@.subrange(n as int, n as int) =~= Seq::<u8>::empty());
                crate::lines::lemma_split_lines_empty();
            }
        }
        let v = crate::order::dedup_vec_u32(&out);
        Ok((v, truncated))
    }

    /// How many distinct domains `from_id` links to, self links left out,
    /// whatever the cap of a lookup: the real size of the run.
    #[verifier::spinoff_prover]
    #[verifier::rlimit(60)]
    pub fn outbound_total(&self, source: &[u8], from_id: u32) -> (r: Result<u64, OutboundError>)
        ensures
            match r {
                Ok(t) => self.spec_outbound_total(source@, from_id) == Ok::<nat, OutboundError>(t as nat),
                Err(e) => self.spec_outbound_total(source@, from_id) == Err::<nat, OutboundError>(e),
            },
    {
        if !self.sorted_by_from {
            return Err(OutboundError::NotSortedByFrom);
        }
        let n = source.len();
        let mut cursor: usize = match self.walk_start(n, from_id) {
            None => return Ok(0),
            Some(at) => at,
        };
        let ghost start = cursor as int;
        let ghost whole = split_lines(source@.subrange(start, n as int));
        let ghost cap = whole.len() as int;
        let ghost mut acc: Seq<u32> = Seq::empty();
        let mut count: u64 = 0;
        let mut last: u32 = 0;
        let mut any = false;
        let mut done = false;
        proof {
            crate::lines::lemma_split_lines_len(source@.subrange(start, n as int));
        }
        while cursor < n && !done
            invariant
                n == source@.len(),
                start <= cursor <= n,
                whole == split_lines(source@.subrange(start, n as int)),
                cap == whole.len(),
                cap <= n,
                count == dedup_u32(acc).len(),
                any == (acc.len() > 0),
                acc.len() > 0 ==> last == acc.last(),
                !done ==> acc.len() + split_lines(source@.subrange(cursor as int, n as int)).len() <= cap,
                !done ==> scan_outbound(whole, from_id, cap, Seq::empty())
                    == scan_outbound(split_lines(source@.subrange(cursor as int, n as int)), from_id, cap, acc),
                done ==> scan_outbound(whole, from_id, cap, Seq::empty()).0 == acc,
            decreases n - cursor, if done { 0int } else { 1int },
        {
            let end = next_line_end(source, cursor);
            let ghost ls = split_lines(source@.subrange(cursor as int, n as int));
            proof {
                assert(ls.drop_first() =~= split_lines(source@.subrange(end as int, n as int)));
                assert(ls[0] == source@.subrange(cursor as int, end as int));
            }
            let raw_line = &source[cursor..end];
            let line = trim_eol(raw_line);
            match parse_edge_line(line) {
                None => {},
                Some((from, to)) => {
                    if from < from_id {
                    } else if from > from_id {
                        done = true;
                    } else if to != from_id {
                        proof {
                            crate::order::lemma_dedup_u32_push_len(acc, to);
                            crate::order::lemma_dedup_u32_len_le(acc);
                        }
                        if !any || last != to {
                            count = count + 1;
                        }
                        last = to;
                        any = true;
                        proof {
                            acc = acc.push(to);
                        }
                    }
                },
            }
            if !done {
                cursor = end;
            }
        }
        proof {
            if !done {
                assert(source@.subrange(n as int, n as int) =~= Seq::<u8>::empty());
                crate::lines::lemma_split_lines_empty();
            }
        }
        Ok(count)
    }
}


// ---------------------------------------------------------------------------
// What an outbound lookup finds on a file sorted by `from_id`
// ---------------------------------------------------------------------------

/// The `(from_id, to_id)` of a line of the edges file, if it holds one.
pub open spec fn line_edge(l: Seq<u8>) -> Option<(u32, u32)> {
    spec_parse_edge_line(spec_trim_eol(l))
}

/// Every line is an edge, and the edges come by ascending `from_id`.
pub open spec fn edges_sorted(lines: Seq<Seq<u8>>) -> bool {
    &&& forall|i: int| 0 <= i < lines.len() ==> line_edge(#[trigger] lines[i]) is Some
    &&& forall|i: int, j: int| 0 <= i < j < lines.len() ==>
        line_edge(#[trigger] lines[i])->Some_0.0 <= line_edge(#[trigger] lines[j])->Some_0.0
}

/// Byte `o` of the file starts a line, and that line is an edge from `from`.
pub open spec fn at_line_of(source: Seq<u8>, o: int, from: u32) -> bool {
    &&& 0 <= o < source.len()
    &&& (o == 0 || source[o - 1] == 10)
    &&& line_edge(split_lines(source.subrange(o, source.len() as int))[0]) matches Some(e) && e.0 == from
}

/// Each sample stands at the start of a line whose `from_id` it records,
/// and the samples come by ascending id.
pub open spec fn blocks_faithful(blocks: Seq<EdgeBlock>, source: Seq<u8>) -> bool {
    &&& forall|k: int| 0 <= k < blocks.len() ==> at_line_of(source, (#[trigger] blocks[k]).offset as int, blocks[k].first_from)
    &&& forall|i: int, j: int| 0 <= i <= j < blocks.len() ==> (#[trigger] blocks[i]).first_from <= (#[trigger] blocks[j]).first_from
}

/// The walk keeps what it had gathered before.
proof fn lemma_scan_keeps(lines: Seq<Seq<u8>>, id: u32, limit: int, acc: Seq<u32>, y: u32)
    requires
        acc.contains(y),
    ensures
        scan_outbound(lines, id, limit, acc).0.contains(y),
    decreases lines.len(),
{
    if lines.len() > 0 {
        let rest = lines.drop_first();
        match spec_parse_edge_line(spec_trim_eol(lines[0])) {
            None => lemma_scan_keeps(rest, id, limit, acc, y),
            Some((from, to)) => {
                if from < id {
                    lemma_scan_keeps(rest, id, limit, acc, y);
                } else if from > id || acc.len() >= limit {
                } else {
                    let next = if to != id { acc.push(to) } else { acc };
                    assert(next.contains(y)) by {
                        let k = choose|k: int| 0 <= k < acc.len() && acc[k] == y;
                        assert(next[k] == y);
                    }
                    lemma_scan_keeps(rest, id, limit, next, y);
                }
            },
        }
    }
}

/// An untruncated walk over sorted edges meets every destination of `id`.
proof fn lemma_scan_finds(lines: Seq<Seq<u8>>, id: u32, limit: int, acc: Seq<u32>, j: int, x: u32)
    requires
        edges_sorted(lines),
        0 <= j < lines.len(),
        line_edge(lines[j]) == Some((id, x)),
        x != id,
        !scan_outbound(lines, id, limit, acc).1,
    ensures
        scan_outbound(lines, id, limit, acc).0.contains(x),
    decreases lines.len(),
{
    let rest = lines.drop_first();
    let (from, to) = line_edge(lines[0])->Some_0;
    assert(line_edge(lines[0]) is Some);
    if j == 0 {
        let next = acc.push(x);
        assert(next[acc.len() as int] == x);
        lemma_scan_keeps(rest, id, limit, next, x);
    } else {
        assert(line_edge(lines[0])->Some_0.0 <= line_edge(lines[j])->Some_0.0);
        assert(rest[j - 1] == lines[j]);
        assert(edges_sorted(rest)) by {
            assert forall|i: int| 0 <= i < rest.len() implies line_edge(#[trigger] rest[i]) is Some by {
                assert(rest[i] == lines[i + 1]);
            }
            assert forall|a: int, b: int| 0 <= a < b < rest.len() implies
                line_edge(#[trigger] rest[a])->Some_0.0 <= line_edge(#[trigger] rest[b])->Some_0.0 by {
                assert(rest[a] == lines[a + 1]);
                assert(rest[b] == lines[b + 1]);
            }
        }
        if from < id {
            lemma_scan_finds(rest, id, limit, acc, j - 1, x);
        } else {
            let next = if to != id { acc.push(to) } else { acc };
            lemma_scan_finds(rest, id, limit, next, j - 1, x);
        }
    }
}

/// What the walk gathers beyond `acc` are destinations of `id` on its lines.
proof fn lemma_scan_sound(lines: Seq<Seq<u8>>, id: u32, limit: int, acc: Seq<u32>, y: u32)
    requires
        scan_outbound(lines, id, limit, acc).0.contains(y),
        !acc.contains(y),
    ensures
        y != id,
        exists|j: int| 0 <= j < lines.len() && line_edge(#[trigger] lines[j]) == Some((id, y)),
    decreases lines.len(),
{
    let rest = lines.drop_first();
    match spec_parse_edge_line(spec_trim_eol(lines[0])) {
        None => {
            lemma_scan_sound(rest, id, limit, acc, y);
            let j = choose|j: int| 0 <= j < rest.len() && line_edge(#[trigger] rest[j]) == Some((id, y));
            assert(lines[j + 1] == rest[j]);
        },
        Some((from, to)) => {
            if from < id {
                lemma_scan_sound(rest, id, limit, acc, y);
                let j = choose|j: int| 0 <= j < rest.len() && line_edge(#[trigger] rest[j]) == Some((id, y));
                assert(lines[j + 1] == rest[j]);
            } else if from > id || acc.len() >= limit {
            } else if to != id && to == y {
                assert(line_edge(lines[0]) == Some((id, y)));
            } else {
                let next = if to != id { acc.push(to) } else { acc };
                assert(!next.contains(y)) by {
                    if next.contains(y) {
                        let k = choose|k: int| 0 <= k < next.len() && next[k] == y;
                        if k < acc.len() {
                            assert(acc[k] == y);
                        }
                    }
                }
                lemma_scan_sound(rest, id, limit, next, y);
                let j = choose|j: int| 0 <= j < rest.len() && line_edge(#[trigger] rest[j]) == Some((id, y));
                assert(lines[j + 1] == rest[j]);
            }
        },
    }
}

/// The lines from a line start on are the tail of the file's lines; when the
/// first of them is an edge from below `id`, every line before is too.
#[verifier::spinoff_prover]
#[verifier::rlimit(40)]
proof fn lemma_tail_from(source: Seq<u8>, at: int, id: u32) -> (pre: nat)
    requires
        edges_sorted(split_lines(source)),
        0 < at < source.len(),
        source[at - 1] == 10,
        line_edge(split_lines(source.subrange(at, source.len() as int))[0])->Some_0.0 < id,
    ensures
        split_lines(source) == split_lines(source).subrange(0, pre as int) + split_lines(source.subrange(at, source.len() as int)),
        pre <= split_lines(source).len(),
        forall|j: int| 0 <= j < pre ==> line_edge(#[trigger] split_lines(source)[j])->Some_0.0 < id,
{
    let n = source.len() as int;
    let all = split_lines(source);
    let tail = source.subrange(at, n);
    let ts = split_lines(tail);
    let head = source.subrange(0, at);
    assert(head.last() == 10);
    assert(head + tail =~= source);
    crate::lines::lemma_split_lines_concat(head, tail);
    let hs = split_lines(head);
    assert(all == hs + ts);
    assert(all.subrange(0, hs.len() as int) =~= hs);
    assert(ts.len() > 0) by {
        reveal(split_lines);
    }
    assert(all[hs.len() as int] == ts[0]);
    assert forall|j: int| 0 <= j < hs.len() implies line_edge(#[trigger] all[j])->Some_0.0 < id by {
        assert(line_edge(all[j])->Some_0.0 <= line_edge(all[hs.len() as int])->Some_0.0);
    }
    hs.len()
}

/// What a lookup walks is the tail of the file's lines, and no line before
/// it is an edge of `id`.
#[verifier::spinoff_prover]
#[verifier::rlimit(40)]
proof fn lemma_walk_tail(ix: &EdgeIndex, source: Seq<u8>, id: u32) -> (pre: nat)
    requires
        edges_sorted(split_lines(source)),
        blocks_faithful(ix.blocks@, source),
        ix.blocks@.len() > 0,
    ensures
        ix.walk_lines(source, id) is Some,
        split_lines(source) == split_lines(source).subrange(0, pre as int) + ix.walk_lines(source, id)->Some_0,
        pre <= split_lines(source).len(),
        forall|j: int| 0 <= j < pre ==> line_edge(#[trigger] split_lines(source)[j])->Some_0.0 < id,
{
    let bs = ix.blocks@;
    let pred = |i: int| bs[i].first_from < id;
    assert(prefix_pred(pred, 0, bs.len() as int)) by {
        assert forall|i: int, j: int| 0 <= i < j < bs.len() && #[trigger] pred(j) implies #[trigger] pred(i) by {
            assert(bs[i].first_from <= bs[j].first_from);
        }
    }
    lemma_bsearch_partition(pred, 0, bs.len() as int);
    let p = ix.start_of(id);
    let n = source.len() as int;
    let all = split_lines(source);
    if p == 0 {
        assert(source.subrange(0, n) =~= source);
        assert(all.subrange(0, 0) + all =~= all);
        0
    } else {
        assert(pred(p - 1));
        let b = bs[p - 1];
        let at = b.offset as int;
        assert(at_line_of(source, at, b.first_from));
        assert(at < n && (at == 0 || source[at - 1] == 10));
        if at == 0 {
            assert(source.subrange(at, n) =~= source);
            assert(all.subrange(0, 0) + all =~= all);
            0
        } else {
            assert(line_edge(split_lines(source.subrange(at, n))[0])->Some_0.0 == b.first_from);
            lemma_tail_from(source, at, id)
        }
    }
}

/// On the tail of sorted lines whose head holds no edge of `id`: what an
/// untruncated walk gathers is exactly the destinations of `id`.
#[verifier::spinoff_prover]
#[verifier::rlimit(40)]
proof fn lemma_tail_walk(all: Seq<Seq<u8>>, pre: nat, ts: Seq<Seq<u8>>, id: u32, limit: int, x: u32)
    requires
        edges_sorted(all),
        all == all.subrange(0, pre as int) + ts,
        pre <= all.len(),
        forall|j: int| 0 <= j < pre ==> line_edge(#[trigger] all[j])->Some_0.0 < id,
    ensures
        scan_outbound(ts, id, limit, Seq::empty()).0.contains(x) ==> x != id
            && exists|j: int| 0 <= j < all.len() && line_edge(#[trigger] all[j]) == Some((id, x)),
        (!scan_outbound(ts, id, limit, Seq::empty()).1 && x != id
            && exists|j: int| 0 <= j < all.len() && line_edge(#[trigger] all[j]) == Some((id, x)))
            ==> scan_outbound(ts, id, limit, Seq::empty()).0.contains(x),
{
    let walked = scan_outbound(ts, id, limit, Seq::empty());
    assert(ts.len() == all.len() - pre);
    assert forall|k: int| 0 <= k < ts.len() implies #[trigger] ts[k] == all[pre + k] by {
        assert(all[pre + k] == (all.subrange(0, pre as int) + ts)[pre + k]);
    }
    if walked.0.contains(x) {
        assert(!Seq::<u32>::empty().contains(x));
        lemma_scan_sound(ts, id, limit, Seq::empty(), x);
        let j = choose|j: int| 0 <= j < ts.len() && line_edge(#[trigger] ts[j]) == Some((id, x));
        assert(all[pre + j] == ts[j]);
    }
    if !walked.1 && x != id && exists|j: int| 0 <= j < all.len() && line_edge(#[trigger] all[j]) == Some((id, x)) {
        let j = choose|j: int| 0 <= j < all.len() && line_edge(#[trigger] all[j]) == Some((id, x));
        assert(j >= pre) by {
            if j < pre {
                assert(line_edge(all[j])->Some_0.0 < id);
            }
        }
        assert(edges_sorted(ts)) by {
            assert forall|i: int| 0 <= i < ts.len() implies line_edge(#[trigger] ts[i]) is Some by {
                assert(ts[i] == all[pre + i]);
            }
            assert forall|a: int, b: int| 0 <= a < b < ts.len() implies
                line_edge(#[trigger] ts[a])->Some_0.0 <= line_edge(#[trigger] ts[b])->Some_0.0 by {
                assert(ts[a] == all[pre + a]);
                assert(ts[b] == all[pre + b]);
            }
        }
        assert(ts[j - pre] == all[j]);
        lemma_scan_finds(ts, id, limit, Seq::empty(), j - pre, x);
    }
}

/// How many lines are edges from `id`.
pub open spec fn count_from(lines: Seq<Seq<u8>>, id: u32) -> nat
    decreases lines.len(),
{
    if lines.len() == 0 {
        0
    } else {
        (if line_edge(lines[0]) is Some && line_edge(lines[0])->Some_0.0 == id { 1nat } else { 0nat })
            + count_from(lines.drop_first(), id)
    }
}

/// The walk is cut only when more lines of `id` remain than the cap leaves
/// room for.
proof fn lemma_scan_cut(lines: Seq<Seq<u8>>, id: u32, limit: int, acc: Seq<u32>)
    ensures
        scan_outbound(lines, id, limit, acc).1 ==> count_from(lines, id) + acc.len() > limit,
    decreases lines.len(),
{
    if lines.len() > 0 {
        let rest = lines.drop_first();
        match spec_parse_edge_line(spec_trim_eol(lines[0])) {
            None => lemma_scan_cut(rest, id, limit, acc),
            Some((from, to)) => {
                if from < id {
                    lemma_scan_cut(rest, id, limit, acc);
                } else if from == id && acc.len() < limit {
                    lemma_scan_cut(rest, id, limit, if to != id { acc.push(to) } else { acc });
                }
            },
        }
    }
}

/// Lines before the run of `id` add nothing to its count.
proof fn lemma_count_after_prefix(a: Seq<Seq<u8>>, b: Seq<Seq<u8>>, id: u32)
    requires
        forall|j: int| 0 <= j < a.len() ==> line_edge(#[trigger] a[j])->Some_0.0 < id,
    ensures
        count_from(a + b, id) == count_from(b, id),
    decreases a.len(),
{
    if a.len() > 0 {
        assert((a + b).drop_first() =~= a.drop_first() + b);
        assert((a + b)[0] == a[0]);
        assert forall|j: int| 0 <= j < a.drop_first().len() implies line_edge(#[trigger] a.drop_first()[j])->Some_0.0 < id by {
            assert(a.drop_first()[j] == a[j + 1]);
        }
        lemma_count_after_prefix(a.drop_first(), b, id);
    } else {
        assert(a + b =~= b);
    }
}

/// Outbound finds every link: on a file whose lines are edges sorted by
/// `from_id`, indexed by faithful samples, a lookup the cap did not cut
/// gives every `x` that some line `(id, x)` names, `x != id`; whatever it
/// gives is named by such a line; and it is cut only when the file holds
/// more lines from `id` than the cap.
pub proof fn lemma_outbound_complete(ix: &EdgeIndex, source: Seq<u8>, id: u32, limit: int, x: u32)
    requires
        edges_sorted(split_lines(source)),
        blocks_faithful(ix.blocks@, source),
        ix.blocks@.len() > 0,
        ix.sorted_by_from,
    ensures
        ix.spec_outbound(source, id, limit) is Ok,
        ({
            let (v, cut) = ix.spec_outbound(source, id, limit)->Ok_0;
            &&& v.contains(x) ==> x != id && exists|j: int| 0 <= j < split_lines(source).len()
                && line_edge(#[trigger] split_lines(source)[j]) == Some((id, x))
            &&& (!cut && x != id && exists|j: int| 0 <= j < split_lines(source).len()
                && line_edge(#[trigger] split_lines(source)[j]) == Some((id, x))) ==> v.contains(x)
            &&& cut ==> count_from(split_lines(source), id) > limit
        }),
{
    let pre = lemma_walk_tail(ix, source, id);
    let ts = ix.walk_lines(source, id)->Some_0;
    let walked = scan_outbound(ts, id, limit, Seq::empty());
    crate::order::lemma_dedup_u32_contains(walked.0, x);
    lemma_tail_walk(split_lines(source), pre, ts, id, limit, x);
    lemma_scan_cut(ts, id, limit, Seq::empty());
    let all = split_lines(source);
    assert forall|j: int| 0 <= j < all.subrange(0, pre as int).len() implies
        line_edge(#[trigger] all.subrange(0, pre as int)[j])->Some_0.0 < id by {
        assert(all.subrange(0, pre as int)[j] == all[j]);
    }
    lemma_count_after_prefix(all.subrange(0, pre as int), ts, id);
}


/// Every line is an edge, and the edges come by ascending `(from_id, to_id)`.
pub open spec fn edges_pair_sorted(lines: Seq<Seq<u8>>) -> bool {
    &&& edges_sorted(lines)
    &&& forall|i: int, j: int| 0 <= i < j < lines.len()
        && line_edge(#[trigger] lines[i])->Some_0.0 == line_edge(#[trigger] lines[j])->Some_0.0
        ==> line_edge(lines[i])->Some_0.1 <= line_edge(lines[j])->Some_0.1
}

/// A tail of lines sorted by pair is sorted by pair.
proof fn lemma_pair_sorted_tail(lines: Seq<Seq<u8>>, pre: int)
    requires
        edges_pair_sorted(lines),
        0 <= pre <= lines.len(),
    ensures
        edges_pair_sorted(lines.subrange(pre, lines.len() as int)),
{
    let ts = lines.subrange(pre, lines.len() as int);
    assert forall|i: int| 0 <= i < ts.len() implies line_edge(#[trigger] ts[i]) is Some by {
        assert(ts[i] == lines[pre + i]);
    }
    assert forall|a: int, b: int| 0 <= a < b < ts.len() implies
        line_edge(#[trigger] ts[a])->Some_0.0 <= line_edge(#[trigger] ts[b])->Some_0.0 by {
        assert(ts[a] == lines[pre + a]);
        assert(ts[b] == lines[pre + b]);
    }
    assert forall|a: int, b: int| 0 <= a < b < ts.len()
        && line_edge(#[trigger] ts[a])->Some_0.0 == line_edge(#[trigger] ts[b])->Some_0.0 implies
        line_edge(ts[a])->Some_0.1 <= line_edge(ts[b])->Some_0.1 by {
        assert(ts[a] == lines[pre + a]);
        assert(ts[b] == lines[pre + b]);
    }
}

/// The walk never gathers more than the cap.
proof fn lemma_scan_within_cap(lines: Seq<Seq<u8>>, id: u32, limit: int, acc: Seq<u32>)
    requires
        acc.len() <= limit,
    ensures
        scan_outbound(lines, id, limit, acc).0.len() <= limit,
    decreases lines.len(),
{
    if lines.len() > 0 {
        let rest = lines.drop_first();
        match spec_parse_edge_line(spec_trim_eol(lines[0])) {
            None => lemma_scan_within_cap(rest, id, limit, acc),
            Some((from, to)) => {
                if from < id {
                    lemma_scan_within_cap(rest, id, limit, acc);
                } else if from == id && acc.len() < limit {
                    lemma_scan_within_cap(rest, id, limit, if to != id { acc.push(to) } else { acc });
                }
            },
        }
    }
}

/// Over lines sorted by pair, the walk gathers the destinations of `id` in
/// ascending order.
proof fn lemma_scan_ascending(lines: Seq<Seq<u8>>, id: u32, limit: int, acc: Seq<u32>)
    requires
        edges_pair_sorted(lines),
        sorted_u32(acc),
        forall|k: int| 0 <= k < lines.len() && acc.len() > 0
            && line_edge(#[trigger] lines[k])->Some_0.0 == id ==> acc.last() <= line_edge(lines[k])->Some_0.1,
    ensures
        sorted_u32(scan_outbound(lines, id, limit, acc).0),
    decreases lines.len(),
{
    if lines.len() > 0 {
        let rest = lines.drop_first();
        assert(line_edge(lines[0]) is Some);
        let (from, to) = line_edge(lines[0])->Some_0;
        assert(rest =~= lines.subrange(1, lines.len() as int));
        lemma_pair_sorted_tail(lines, 1);
        if from < id {
            assert forall|k: int| 0 <= k < rest.len() && acc.len() > 0
                && line_edge(#[trigger] rest[k])->Some_0.0 == id implies acc.last() <= line_edge(rest[k])->Some_0.1 by {
                assert(rest[k] == lines[k + 1]);
            }
            lemma_scan_ascending(rest, id, limit, acc);
        } else if from == id && acc.len() < limit {
            let next = if to != id { acc.push(to) } else { acc };
            assert(sorted_u32(next)) by {
                if to != id {
                    assert forall|i: int, j: int| 0 <= i <= j < next.len() implies next[i] <= next[j] by {
                        if j == acc.len() {
                            if i < j {
                                assert(acc[i] <= acc.last());
                            }
                        } else {
                            assert(next[i] == acc[i] && next[j] == acc[j]);
                        }
                    }
                }
            }
            assert forall|k: int| 0 <= k < rest.len() && next.len() > 0
                && line_edge(#[trigger] rest[k])->Some_0.0 == id implies next.last() <= line_edge(rest[k])->Some_0.1 by {
                assert(rest[k] == lines[k + 1]);
                assert(line_edge(lines[0])->Some_0.0 == line_edge(lines[k + 1])->Some_0.0);
            }
            lemma_scan_ascending(rest, id, limit, next);
        }
    }
}

/// Outbound gives an ascending list within the cap: on a file whose lines
/// are edges sorted by `(from_id, to_id)`, indexed by faithful samples, the
/// ids a lookup gives are strictly ascending and at most `limit` of them.
pub proof fn lemma_outbound_ascending(ix: &EdgeIndex, source: Seq<u8>, id: u32, limit: int)
    requires
        edges_pair_sorted(split_lines(source)),
        blocks_faithful(ix.blocks@, source),
        ix.blocks@.len() > 0,
        ix.sorted_by_from,
        limit >= 0,
    ensures
        ix.spec_outbound(source, id, limit) is Ok,
        increasing_u32(ix.spec_outbound(source, id, limit)->Ok_0.0),
        ix.spec_outbound(source, id, limit)->Ok_0.0.len() <= limit,
{
    let all = split_lines(source);
    let pre = lemma_walk_tail(ix, source, id);
    let ts = ix.walk_lines(source, id)->Some_0;
    assert(ts =~= all.subrange(pre as int, all.len() as int)) by {
        assert forall|k: int| 0 <= k < ts.len() implies ts[k] == all.subrange(pre as int, all.len() as int)[k] by {
            assert(all[pre + k] == (all.subrange(0, pre as int) + ts)[pre + k]);
        }
    }
    lemma_pair_sorted_tail(all, pre as int);
    let walked = scan_outbound(ts, id, limit, Seq::empty());
    lemma_scan_ascending(ts, id, limit, Seq::empty());
    lemma_scan_within_cap(ts, id, limit, Seq::empty());
    crate::order::lemma_dedup_u32_sorted(walked.0);
    crate::order::lemma_dedup_u32_len_le(walked.0);
}


// ---------------------------------------------------------------------------
// Sampling gives faithful blocks
// ---------------------------------------------------------------------------

/// Trimming a line ending only drops bytes at the end.
proof fn lemma_trim_is_prefix(x: Seq<u8>)
    ensures
        spec_trim_eol(x).len() <= x.len(),
        spec_trim_eol(x) == x.subrange(0, spec_trim_eol(x).len() as int),
{
    let a = if x.len() > 0 && x.last() == 10 { x.drop_last() } else { x };
    assert(a == x.subrange(0, a.len() as int));
    let t = if a.len() > 0 && a.last() == 13 { a.drop_last() } else { a };
    assert(t == x.subrange(0, t.len() as int));
}

/// An edge line cut short, when it still parses, has the `from_id` of the
/// whole line.
proof fn lemma_parse_prefix(t: Seq<u8>, full: Seq<u8>)
    requires
        t.len() <= full.len(),
        full.subrange(0, t.len() as int) == t,
        spec_parse_edge_line(t) is Some,
        spec_parse_edge_line(full) is Some,
    ensures
        spec_parse_edge_line(t)->Some_0.0 == spec_parse_edge_line(full)->Some_0.0,
{
    reveal(spec_parse_edge_line);
    lemma_first_index_some(t, 9);
    let i = first_index_of(t, 9)->Some_0;
    assert(is_first_index(full, 9, i)) by {
        assert(full[i] == t[i]);
        assert forall|j: int| 0 <= j < i implies full[j] != 9 by {
            assert(full[j] == t[j]);
        }
    }
    lemma_first_index_unique(full, 9, i);
    assert(full.subrange(0, i) =~= t.subrange(0, i));
}

/// The first line of `r`.
proof fn lemma_first_line(r: Seq<u8>)
    requires
        r.len() > 0,
    ensures
        split_lines(r).len() > 0,
        first_index_of(r, 10) is Some ==> split_lines(r)[0] == r.subrange(0, first_index_of(r, 10)->Some_0 + 1),
        first_index_of(r, 10) is None ==> split_lines(r)[0] == r,
{
    if first_index_of(r, 10) is Some {
        lemma_first_index_some(r, 10);
        crate::lines::lemma_split_lines_cut(r, first_index_of(r, 10)->Some_0);
    } else {
        assert forall|j: int| 0 <= j < r.len() implies r[j] != 10 by {
            if r[j] == 10 {
                assert(exists|k: int| 0 <= k < r.len() && r[k] == 10);
            }
        }
        crate::lines::lemma_split_lines_whole(r);
    }
}

/// The line that starts at byte `o` of the file is one of its lines.
proof fn lemma_line_at(src: Seq<u8>, o: int)
    requires
        0 <= o < src.len(),
        o == 0 || src[o - 1] == 10,
    ensures
        split_lines(src.subrange(o, src.len() as int)).len() > 0,
        exists|k: int| 0 <= k < split_lines(src).len()
            && #[trigger] split_lines(src)[k] == split_lines(src.subrange(o, src.len() as int))[0],
{
    let n = src.len() as int;
    let r = src.subrange(o, n);
    lemma_first_line(r);
    if o == 0 {
        assert(r =~= src);
        assert(split_lines(src)[0] == split_lines(r)[0]);
    } else {
        let head = src.subrange(0, o);
        assert(head.last() == 10);
        assert(head + r =~= src);
        crate::lines::lemma_split_lines_concat(head, r);
        let k = split_lines(head).len() as int;
        assert(split_lines(src)[k] == split_lines(r)[0]);
    }
}

/// The head of a line, cut at its first newline or at the end of what was
/// read, parses to the `from_id` of the whole line when both parse.
#[verifier::spinoff_prover]
#[verifier::rlimit(60)]
proof fn lemma_cut_line_from(r: Seq<u8>, rest: Seq<u8>)
    requires
        0 < rest.len() <= r.len(),
        rest == r.subrange(0, rest.len() as int),
        spec_parse_edge_line(spec_trim_eol(rest.subrange(0, match first_index_of(rest, 10) {
            Some(e) => e,
            None => rest.len() as int,
        }))) is Some,
        spec_parse_edge_line(spec_trim_eol(split_lines(r)[0])) is Some,
    ensures
        spec_parse_edge_line(spec_trim_eol(rest.subrange(0, match first_index_of(rest, 10) {
            Some(e) => e,
            None => rest.len() as int,
        })))->Some_0.0 == spec_parse_edge_line(spec_trim_eol(split_lines(r)[0]))->Some_0.0,
{
    let le = match first_index_of(rest, 10) {
        Some(e) => e,
        None => rest.len() as int,
    };
    let t = spec_trim_eol(rest.subrange(0, le));
    lemma_first_line(r);
    let l = split_lines(r)[0];
    let full = spec_trim_eol(l);
    lemma_trim_is_prefix(rest.subrange(0, le));
    lemma_trim_is_prefix(l);
    if first_index_of(rest, 10) is Some {
        lemma_first_index_some(rest, 10);
        let e = le;
        assert(is_first_index(r, 10, e)) by {
            assert(r[e] == rest[e]);
            assert forall|j: int| 0 <= j < e implies r[j] != 10 by {
                assert(r[j] == rest[j]);
            }
        }
        lemma_first_index_unique(r, 10, e);
        assert(l == r.subrange(0, e + 1));
        assert(l.drop_last() =~= rest.subrange(0, e));
        assert(t =~= full);
    } else {
        assert forall|j: int| 0 <= j < rest.len() implies rest[j] != 10 by {
            if rest[j] == 10 {
                assert(exists|k: int| 0 <= k < rest.len() && rest[k] == 10);
            }
        }
        assert(rest.subrange(0, le) =~= rest);
        if first_index_of(r, 10) is Some {
            lemma_first_index_some(r, 10);
            let e = first_index_of(r, 10)->Some_0;
            assert(e >= rest.len()) by {
                if e < rest.len() {
                    assert(rest[e] == r[e]);
                }
            }
            assert(l == r.subrange(0, e + 1));
            if e == rest.len() {
                assert(r[e - 1] == rest[rest.len() - 1]);
            }
        } else {
            assert(l == r);
            if rest.len() == r.len() {
                assert(rest =~= r);
            } else {
                assert(r[r.len() - 1] != 10);
            }
        }
        assert(t.len() <= full.len());
    }
    assert(t == r.subrange(0, t.len() as int));
    assert(full == r.subrange(0, full.len() as int));
    assert(full.subrange(0, t.len() as int) =~= t);
    lemma_parse_prefix(t, full);
}

/// A probe that finds a line stands at a line start inside the file and,
/// when the whole line there is an edge, records its `from_id`.
#[verifier::spinoff_prover]
#[verifier::rlimit(60)]
proof fn lemma_probe_faithful(src: Seq<u8>, p: int)
    requires
        0 <= p < src.len(),
        probe_at(src, p) is Some,
    ensures
        ({
            let x = probe_at(src, p)->Some_0;
            &&& 0 <= x.0 < src.len()
            &&& (x.0 == 0 || src[x.0 - 1] == 10)
            &&& (line_edge(split_lines(src.subrange(x.0, src.len() as int))[0]) is Some ==> at_line_of(src, x.0, x.1))
        }),
{
    let n = src.len() as int;
    let q = if p + 4096 < n { p + 4096 } else { n };
    let w = src.subrange(p, q);
    let s: int = if p == 0 { 0 } else { first_index_of(w, 10)->Some_0 + 1 };
    if p != 0 {
        lemma_first_index_some(w, 10);
        assert(src[p + s - 1] == w[s - 1]);
    }
    let o = p + s;
    let rest = w.subrange(s, w.len() as int);
    let le = match first_index_of(rest, 10) {
        Some(e) => e,
        None => rest.len() as int,
    };
    let t = spec_trim_eol(rest.subrange(0, le));
    assert(probe_at(src, p)->Some_0 == (o, spec_parse_edge_line(t)->Some_0.0, le + 1));
    assert(rest.len() > 0) by {
        if rest.len() == 0 {
            reveal(spec_parse_edge_line);
            assert(rest.subrange(0, le) =~= Seq::<u8>::empty());
            assert(t =~= Seq::<u8>::empty());
        }
    }
    let r = src.subrange(o, n);
    assert(rest == r.subrange(0, rest.len() as int));
    if line_edge(split_lines(r)[0]) is Some {
        lemma_cut_line_from(r, rest);
    }
}

/// The line a probe stands at is one of the file's lines, so on a file of
/// edge lines the probe records its `from_id`.
proof fn lemma_probe_on_edges(src: Seq<u8>, p: int)
    requires
        0 <= p < src.len(),
        probe_at(src, p) is Some,
        edges_sorted(split_lines(src)),
    ensures
        at_line_of(src, probe_at(src, p)->Some_0.0, probe_at(src, p)->Some_0.1),
{
    lemma_probe_faithful(src, p);
    let x = probe_at(src, p)->Some_0;
    lemma_line_at(src, x.0);
    let l = split_lines(src.subrange(x.0, src.len() as int))[0];
    let k = choose|k: int| 0 <= k < split_lines(src).len() && #[trigger] split_lines(src)[k] == l;
    assert(line_edge(split_lines(src)[k]) is Some);
}

/// Every sample taken at the first `m` positions is faithful.
proof fn lemma_samples_faithful(src: Seq<u8>, step: int, m: nat)
    requires
        step > 0,
        m == 0 || (m - 1) * step < src.len(),
        edges_sorted(split_lines(src)),
    ensures
        forall|k: int| 0 <= k < samples(src, step, m).len() ==>
            at_line_of(src, (#[trigger] samples(src, step, m)[k]).0, samples(src, step, m)[k].1),
    decreases m,
{
    if m > 0 {
        let m1 = (m - 1) as nat;
        assert(m1 == 0 || (m1 - 1) * step < src.len()) by (nonlinear_arith)
            requires m1 == m - 1, step > 0, (m - 1) * step < src.len();
        assert((m - 1) * step >= 0) by (nonlinear_arith)
            requires m >= 1, step > 0;
        lemma_samples_faithful(src, step, m1);
        let before = samples(src, step, m1);
        let p = (m - 1) * step;
        if probe_at(src, p) is Some {
            lemma_probe_on_edges(src, p);
            let after = before.push(probe_at(src, p)->Some_0);
            assert(samples(src, step, m) == after);
            assert forall|k: int| 0 <= k < after.len() implies at_line_of(src, (#[trigger] after[k]).0, after[k].1) by {
                if k < before.len() {
                    assert(after[k] == before[k]);
                }
            }
        }
    }
}

/// Sorted neighbours make a sorted whole.
proof fn lemma_samples_sorted_pairs(s: Seq<(int, u32, int)>, i: int, j: int)
    requires
        samples_sorted(s),
        0 <= i <= j < s.len(),
    ensures
        s[i].1 <= s[j].1,
    decreases j - i,
{
    if i < j {
        lemma_samples_sorted_pairs(s, i, j - 1);
        assert(s[j].1 >= s[j - 1].1);
    }
}

/// The blocks that sampling a file of sorted edge lines gives are faithful:
/// each at a line start, recording that line's `from_id`, in ascending order.
#[verifier::spinoff_prover]
#[verifier::rlimit(60)]
pub proof fn lemma_sampled_blocks_faithful(source: Seq<u8>, step: int)
    requires
        step > 0,
        source.len() <= u64::MAX,
        edges_sorted(split_lines(source)),
        spec_sample_edges(source, step) is Ok,
        spec_sample_edges(source, step)->Ok_0.1.sorted_by_from,
    ensures
        blocks_faithful(spec_sample_edges(source, step)->Ok_0.0, source),
        spec_sample_edges(source, step)->Ok_0.0.len() > 0,
{
    let n = source.len() as int;
    let m = probe_count(n, step);
    assert(m == 0 || (m - 1) * step < n) by (nonlinear_arith)
        requires m == (n + step - 1) / step, step > 0, n >= 0;
    lemma_samples_faithful(source, step, m);
    let s = samples(source, step, m);
    let bs = sample_blocks(s);
    assert forall|k: int| 0 <= k < bs.len() implies at_line_of(source, (#[trigger] bs[k]).offset as int, bs[k].first_from) by {
        assert(at_line_of(source, s[k].0, s[k].1));
        assert(bs[k].offset as int == s[k].0);
    }
    assert forall|i: int, j: int| 0 <= i <= j < bs.len() implies (#[trigger] bs[i]).first_from <= (#[trigger] bs[j]).first_from by {
        lemma_samples_sorted_pairs(s, i, j);
    }
}

/// Outbound finds every link of an index built by sampling: on a file whose
/// lines are edges sorted by `from_id`, the index that sampling every `step`
/// bytes gives answers, when the cap does not cut the run, exactly the `x`
/// that some line `(id, x)` names, `x != id`; and the cap cuts the run only
/// when the file holds more lines from `id` than the cap.
pub proof fn lemma_sampled_outbound_complete(ix: &EdgeIndex, source: Seq<u8>, step: int, id: u32, limit: int, x: u32)
    requires
        step > 0,
        source.len() <= u64::MAX,
        edges_sorted(split_lines(source)),
        spec_sample_edges(source, step) is Ok,
        ix.blocks@ == spec_sample_edges(source, step)->Ok_0.0,
        ix.sorted_by_from,
        spec_sample_edges(source, step)->Ok_0.1.sorted_by_from,
    ensures
        ix.spec_outbound(source, id, limit) is Ok,
        ({
            let (v, cut) = ix.spec_outbound(source, id, limit)->Ok_0;
            &&& v.contains(x) ==> x != id && exists|j: int| 0 <= j < split_lines(source).len()
                && line_edge(#[trigger] split_lines(source)[j]) == Some((id, x))
            &&& (!cut && x != id && exists|j: int| 0 <= j < split_lines(source).len()
                && line_edge(#[trigger] split_lines(source)[j]) == Some((id, x))) ==> v.contains(x)
            &&& cut ==> count_from(split_lines(source), id) > limit
        }),
{
    lemma_sampled_blocks_faithful(source, step);
    lemma_outbound_complete(ix, source, id, limit, x);
}

} // verus!
