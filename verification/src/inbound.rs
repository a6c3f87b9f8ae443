//! Transposed edge index: "who links to this domain?" in one read.
//!
//! The edges file is sorted by the source domain, so backlinks are scattered
//! over all of it. The build reads it once and writes the transpose as CSR:
//! `inbound.off` holds `node_count + 1` offsets (`u64`) after a 64-byte
//! header, `inbound.src` every source id grouped by destination (`u32`).
//! Pass one splits edges into id-range buckets of packed `to << 32 | from`
//! records, pass two sorts and dedups each bucket and appends it to the CSR.

use vstd::prelude::*;
use crate::binary::{le32, le64, read32, read64, put32, put64, get32, get64, lemma_le_round_trips};
use crate::lines::{split_lines, next_line_end, trim_eol, spec_trim_eol, parse_edge_line, spec_parse_edge_line};
use crate::order::{sorted_u64, dedup_u64, par_sort_u64, dedup_vec_u64};
use crate::vertices::IndexFileError;
use rayon::iter::{IntoParallelRefIterator, ParallelIterator};

verus! {

/// Records held in memory per bucket while sorting: 16M × 8 B = 128 MB.
pub const TARGET_BUCKET_RECORDS: u64 = 16777216;
pub const MAX_BUCKETS: u64 = 1024;
pub const MIN_BUCKETS: u64 = 4;

/// How many buckets the build splits `estimated_edges` edges into.
pub open spec fn spec_bucket_count(estimated_edges: int) -> int {
    let wanted = (estimated_edges + TARGET_BUCKET_RECORDS - 1) / (TARGET_BUCKET_RECORDS as int);
    let at_least_one = if wanted > 1 { wanted } else { 1 };
    if at_least_one < MIN_BUCKETS { MIN_BUCKETS as int } else if at_least_one > MAX_BUCKETS { MAX_BUCKETS as int } else { at_least_one }
}

/// Bucket count for an edge estimate: enough buckets of 16M records,
/// between 4 and 1024.
pub fn pick_bucket_count(estimated_edges: u64) -> (r: u64)
    ensures
        r == spec_bucket_count(estimated_edges as int),
        MIN_BUCKETS <= r <= MAX_BUCKETS,
{
    let q = estimated_edges / TARGET_BUCKET_RECORDS;
    let wanted = if estimated_edges % TARGET_BUCKET_RECORDS == 0 { q } else { q + 1 };
    proof {
        let e = estimated_edges as int;
        let t = TARGET_BUCKET_RECORDS as int;
        assert(wanted == (e + t - 1) / t) by (nonlinear_arith)
            requires
                t == 16777216,
                q == e / t,
                wanted == (if e % t == 0 { q as int } else { q + 1 }),
                e >= 0;
    }
    let at_least_one = if wanted > 1 { wanted } else { 1 };
    if at_least_one < MIN_BUCKETS { MIN_BUCKETS } else if at_least_one > MAX_BUCKETS { MAX_BUCKETS } else { at_least_one }
}

/// Ids per bucket: the node ids split evenly, at least one.
pub fn bucket_span(node_capacity: u64, bucket_count: u64) -> (r: u64)
    requires
        bucket_count > 0,
    ensures
        r == if (node_capacity as int + bucket_count - 1) / (bucket_count as int) > 1 {
            (node_capacity as int + bucket_count - 1) / (bucket_count as int)
        } else {
            1
        },
{
    let q = node_capacity / bucket_count;
    proof {
        if node_capacity % bucket_count != 0 {
            assert(bucket_count >= 2);
            assert(q <= node_capacity / 2) by (nonlinear_arith)
                requires q == node_capacity / bucket_count, bucket_count >= 2;
        }
    }
    let c = if node_capacity % bucket_count == 0 { q } else { q + 1 };
    proof {
        let n = node_capacity as int;
        let b = bucket_count as int;
        assert(c == (n + b - 1) / b) by (nonlinear_arith)
            requires
                b > 0,
                q == n / b,
                c == (if n % b == 0 { q as int } else { q + 1 }),
                n >= 0;
    }
    if c > 1 { c } else { 1 }
}

/// The edges of a run of edges lines, in file order: blank lines, `#`
/// comments and lines that do not parse are skipped.
pub open spec fn edge_pairs(lines: Seq<Seq<u8>>) -> Seq<(u32, u32)>
    decreases lines.len(),
{
    if lines.len() == 0 {
        Seq::empty()
    } else {
        let t = spec_trim_eol(lines.last());
        let before = edge_pairs(lines.drop_last());
        if t.len() == 0 || t[0] == 35 {
            before
        } else {
            match spec_parse_edge_line(t) {
                Some(e) => before.push(e),
                None => before,
            }
        }
    }
}

/// `to << 32 | from`: sorting these sorts by destination, then source.
pub open spec fn pack(to: u32, from: u32) -> u64 {
    (to as int * 0x1_0000_0000 + from as int) as u64
}

pub open spec fn key_of(r: u64) -> int {
    r as int / 0x1_0000_0000
}

pub open spec fn low_of(r: u64) -> u32 {
    (r as int % 0x1_0000_0000) as u32
}

/// The bucketed records of `es`: every edge but a self link whose bucket
/// `to / span` exists, as `(bucket, to << 32 | from)`.
pub open spec fn bucketed(es: Seq<(u32, u32)>, bucket_count: int, span: int) -> Seq<(u64, u64)>
    decreases es.len(),
{
    if es.len() == 0 {
        Seq::empty()
    } else {
        let before = bucketed(es.drop_last(), bucket_count, span);
        let (from, to) = es.last();
        let b = to as int / span;
        if from != to && b < bucket_count { before.push((b as u64, pack(to, from))) } else { before }
    }
}

proof fn lemma_pack(to: u32, from: u32)
    ensures
        ((to as u64) << 32u64) | (from as u64) == pack(to, from),
{
    let t = to as u64;
    let f = from as u64;
    assert((t << 32u64) | f == t * 0x1_0000_0000 + f) by (bit_vector)
        requires t < 0x1_0000_0000, f < 0x1_0000_0000;
}

proof fn lemma_unpack(r: u64)
    ensures
        r >> 32u64 == key_of(r),
        (r & 0xFFFF_FFFFu64) as u32 == low_of(r),
{
    assert(r >> 32u64 == r / 0x1_0000_0000) by (bit_vector);
    assert(r & 0xFFFF_FFFFu64 == r % 0x1_0000_0000) by (bit_vector);
}

/// `a << 32 | b`.
pub fn pack_pair(a: u32, b: u32) -> (r: u64)
    ensures
        r == pack(a, b),
{
    proof {
        lemma_pack(a, b);
    }
    (a as u64) << 32u64 | (b as u64)
}

/// The high half of a packed pair.
pub fn key_of_exec(r: u64) -> (k: u32)
    ensures
        k == key_of(r),
{
    proof {
        lemma_unpack(r);
        assert(r >> 32u64 <= 0xFFFF_FFFFu64) by (bit_vector);
    }
    (r >> 32u64) as u32
}

/// The low half of a packed pair.
pub fn low_of_exec(r: u64) -> (k: u32)
    ensures
        k == low_of(r),
{
    proof {
        lemma_unpack(r);
    }
    (r & 0xFFFF_FFFFu64) as u32
}

/// A packed pair is its halves packed again.
pub proof fn lemma_unpack_pack(r: u64)
    ensures
        0 <= key_of(r) < 0x1_0000_0000,
        r == pack(key_of(r) as u32, low_of(r)),
{
    assert(0 <= r as int / 0x1_0000_0000 < 0x1_0000_0000);
}

pub proof fn lemma_key_of_pack(a: u32, b: u32)
    ensures
        key_of(pack(a, b)) == a,
        low_of(pack(a, b)) == b,
{
    assert((a as int * 0x1_0000_0000 + b as int) / 0x1_0000_0000 == a) by (nonlinear_arith)
        requires 0 <= b < 0x1_0000_0000, a >= 0;
    assert((a as int * 0x1_0000_0000 + b as int) % 0x1_0000_0000 == b) by (nonlinear_arith)
        requires 0 <= b < 0x1_0000_0000, a >= 0;
}

/// Different pairs pack differently.
pub proof fn lemma_pack_injective(a: u32, b: u32, c: u32, d: u32)
    ensures
        pack(a, b) == pack(c, d) <==> (a == c && b == d),
{
    lemma_key_of_pack(a, b);
    lemma_key_of_pack(c, d);
}

/// Split the edges of one run of whole lines into buckets by destination,
/// leaving self links out: each record as `(bucket, to << 32 | from)`.
#[verifier::rlimit(40)]
pub fn partition_edges(bytes: &[u8], bucket_count: u64, span: u64) -> (out: Vec<(u64, u64)>)
    requires
        span > 0,
    ensures
        out@ == bucketed(edge_pairs(split_lines(bytes@)), bucket_count as int, span as int),
{
    let n = bytes.len();
    let mut cursor: usize = 0;
    let mut out: Vec<(u64, u64)> = Vec::new();
    let ghost done: Seq<Seq<u8>> = Seq::empty();
    assert(bytes@.subrange(0, n as int) =~= bytes@);
    assert(split_lines(bytes@) == done + split_lines(bytes@.subrange(0, n as int)));
    while cursor < n
        invariant
            n == bytes@.len(),
            cursor <= n,
            span > 0,
            split_lines(bytes@) == done + split_lines(bytes@.subrange(cursor as int, n as int)),
            out@ == bucketed(edge_pairs(done), bucket_count as int, span as int),
        decreases n - cursor,
    {
        let end = next_line_end(bytes, cursor);
        let ghost ls = split_lines(bytes@.subrange(cursor as int, n as int));
        let raw_line = &bytes[cursor..end];
        let ghost nd = done.push(raw_line@);
        proof {
            assert(ls.drop_first() =~= split_lines(bytes@.subrange(end as int, n as int)));
            assert(nd.drop_last() =~= done);
            assert(split_lines(bytes@) == nd + split_lines(bytes@.subrange(end as int, n as int))) by {
                assert(done + ls =~= nd + ls.drop_first());
            }
        }
        let line = trim_eol(raw_line);
        if line.len() > 0 && line[0] != 35u8 {
            match parse_edge_line(line) {
                Some((from, to)) => {
                    let ghost es = edge_pairs(nd);
                    proof {
                        assert(es.drop_last() =~= edge_pairs(done));
                    }
                    if from != to {
                        let b = to as u64 / span;
                        if b < bucket_count {
                            proof {
                                lemma_pack(to, from);
                            }
                            out.push((b, (to as u64) << 32u64 | (from as u64)));
                        }
                    }
                },
                None => {},
            }
        }
        proof {
            done = nd;
        }
        cursor = end;
    }
    proof {
        assert(bytes@.subrange(n as int, n as int) =~= Seq::<u8>::empty());
        crate::lines::lemma_split_lines_empty();
        assert(done + Seq::<Seq<u8>>::empty() =~= done);
    }
    out
}

/// The `u64` records of a bucket file: little-endian, a trailing partial
/// record ignored.
pub fn records_from_bytes(bytes: &[u8]) -> (r: Vec<u64>)
    ensures
        r@.len() == bytes@.len() / 8,
        forall|i: int| 0 <= i < r@.len() ==> #[trigger] r@[i] == read64(bytes@, 8 * i),
{
    let total = bytes.len();
    let count = total / 8;
    let mut r: Vec<u64> = Vec::new();
    let mut i: usize = 0;
    while i < count
        invariant
            i <= count == bytes@.len() / 8,
            total == bytes@.len(),
            r@.len() == i,
            forall|j: int| 0 <= j < i ==> #[trigger] r@[j] == read64(bytes@, 8 * j),
        decreases count - i,
    {
        assert(8 * i + 8 <= total) by (nonlinear_arith)
            requires i < count, count == total / 8;
        r.push(get64(bytes, 8 * i));
        i = i + 1;
    }
    r
}

/// How far the run of records keyed `id` starting at `c` reaches.
pub open spec fn run_end(rs: Seq<u64>, c: int, id: int) -> int
    decreases rs.len() - c,
{
    if c < 0 || c >= rs.len() || key_of(rs[c]) != id { c } else { run_end(rs, c + 1, id) }
}

/// The cursor after the ids `from .. from + k` have taken their runs.
pub open spec fn csr_cursor(rs: Seq<u64>, from: int, k: nat) -> int
    decreases k,
{
    if k == 0 { 0 } else { run_end(rs, csr_cursor(rs, from, (k - 1) as nat), from + k - 1) }
}

proof fn lemma_key_monotone(a: u64, b: u64)
    requires
        a <= b,
    ensures
        key_of(a) <= key_of(b),
{
    vstd::arithmetic::div_mod::lemma_div_is_ordered(a as int, b as int, 0x1_0000_0000);
}

proof fn lemma_run_end_stops(rs: Seq<u64>, c: int, id: int)
    requires
        0 <= c <= rs.len(),
    ensures
        c <= run_end(rs, c, id) <= rs.len(),
        forall|j: int| c <= j < run_end(rs, c, id) ==> key_of(#[trigger] rs[j]) == id,
        run_end(rs, c, id) < rs.len() ==> key_of(rs[run_end(rs, c, id)]) != id,
    decreases rs.len() - c,
{
    if c < rs.len() && key_of(rs[c]) == id {
        lemma_run_end_stops(rs, c + 1, id);
    }
}

/// After `k` ids, the cursor stands at the first record keyed `from + k` or
/// later: every record before it has a smaller key.
proof fn lemma_cursor_splits(rs: Seq<u64>, from: int, k: nat)
    requires
        crate::order::increasing_u64(rs),
        forall|j: int| 0 <= j < rs.len() ==> from <= #[trigger] key_of(rs[j]),
    ensures
        0 <= csr_cursor(rs, from, k) <= rs.len(),
        forall|j: int| 0 <= j < rs.len() ==> (j < csr_cursor(rs, from, k) <==> #[trigger] key_of(rs[j]) < from + k),
    decreases k,
{
    if k > 0 {
        let k1 = (k - 1) as nat;
        lemma_cursor_splits(rs, from, k1);
        let c = csr_cursor(rs, from, k1);
        let id = from + k1;
        lemma_run_end_stops(rs, c, id);
        let e = run_end(rs, c, id);
        assert(csr_cursor(rs, from, k) == e);
        assert forall|j: int| 0 <= j < rs.len() implies (j < e <==> #[trigger] key_of(rs[j]) < from + k) by {
            if j >= e {
                assert(key_of(rs[e]) >= id) by {
                    if key_of(rs[e]) < id {
                        assert(e < c);
                    }
                }
                if j > e {
                    lemma_key_monotone(rs[e], rs[j]);
                }
            }
        }
    }
}

/// The CSR of a bucket is its transpose: for each id of the bucket, the
/// records between its offset and the next one are exactly the records
/// keyed by that id (its backlinks), and the last offset is the end of the
/// records.
pub proof fn lemma_csr_slices(rs: Seq<u64>, from: int, to: int)
    requires
        crate::order::increasing_u64(rs),
        from <= to,
        forall|j: int| 0 <= j < rs.len() ==> from <= #[trigger] key_of(rs[j]) < to,
    ensures
        forall|k: nat, j: int| #![trigger csr_cursor(rs, from, k), key_of(rs[j])] k < to - from && 0 <= j < rs.len() ==>
            ((csr_cursor(rs, from, k) <= j < csr_cursor(rs, from, k + 1)) <==> key_of(rs[j]) == from + k),
        csr_cursor(rs, from, (to - from) as nat) == rs.len(),
{
    assert forall|k: nat, j: int| #![trigger csr_cursor(rs, from, k), key_of(rs[j])] k < to - from && 0 <= j < rs.len() implies
        ((csr_cursor(rs, from, k) <= j < csr_cursor(rs, from, k + 1)) <==> key_of(rs[j]) == from + k) by {
        lemma_cursor_splits(rs, from, k);
        lemma_cursor_splits(rs, from, k + 1);
    }
    lemma_cursor_splits(rs, from, (to - from) as nat);
    let c = csr_cursor(rs, from, (to - from) as nat);
    if c < rs.len() {
        assert(key_of(rs[c]) < to);
    }
}

/// The CSR slice of one bucket: an offset per id in `[from, to)`, and the
/// sources the cursor passed over.
pub open spec fn spec_csr_offsets(rs: Seq<u64>, from: int, to: int, written: int) -> Seq<u64> {
    Seq::new((to - from) as nat, |k: int| (written + csr_cursor(rs, from, k as nat)) as u64)
}

pub open spec fn spec_csr_sources(rs: Seq<u64>, from: int, to: int) -> Seq<u32> {
    rs.subrange(0, csr_cursor(rs, from, (to - from) as nat)).map_values(|r: u64| low_of(r))
}

proof fn lemma_run_end_range(rs: Seq<u64>, c: int, id: int)
    requires
        0 <= c <= rs.len(),
    ensures
        c <= run_end(rs, c, id) <= rs.len(),
    decreases rs.len() - c,
{
    if c < rs.len() && key_of(rs[c]) == id {
        lemma_run_end_range(rs, c + 1, id);
    }
}

proof fn lemma_csr_cursor_range(rs: Seq<u64>, from: int, k: nat)
    ensures
        0 <= csr_cursor(rs, from, k) <= rs.len(),
    decreases k,
{
    if k > 0 {
        lemma_csr_cursor_range(rs, from, (k - 1) as nat);
        lemma_run_end_range(rs, csr_cursor(rs, from, (k - 1) as nat), from + k - 1);
    }
}

/// One bucket of the CSR: the bucket's records sorted and deduplicated,
/// then for each id in `[from_id, to_id)` its offset (`written` plus the
/// sources before it) and its sources. Returns the sorted records too.
#[verifier::rlimit(60)]
pub fn csr_bucket(records: Vec<u64>, from_id: u64, to_id: u64, written: u64) -> (r: (Vec<u64>, Vec<u64>, Vec<u32>))
    requires
        from_id <= to_id,
        to_id < 0x1_0000_0000,
        written as int + records@.len() <= u64::MAX,
    ensures
        crate::order::increasing_u64(r.0@),
        forall|x: u64| r.0@.contains(x) <==> records@.contains(x),
        r.0@.len() <= records@.len(),
        r.1@ == spec_csr_offsets(r.0@, from_id as int, to_id as int, written as int),
        r.2@ == spec_csr_sources(r.0@, from_id as int, to_id as int),
{
    let mut records = records;
    let ghost unsorted = records@;
    par_sort_u64(&mut records);
    let sorted = dedup_vec_u64(&records);
    proof {
        crate::order::lemma_dedup_u64_sorted(records@);
        crate::order::lemma_same_values(records@, unsorted);
    }
    let mut offsets: Vec<u64> = Vec::new();
    let mut sources: Vec<u32> = Vec::new();
    let mut cursor: usize = 0;
    let mut id: u64 = from_id;
    let ghost rs = sorted@;
    proof {
        lemma_csr_cursor_range(rs, from_id as int, 0);
    }
    while id < to_id
        invariant
            rs == sorted@,
            from_id <= id <= to_id < 0x1_0000_0000,
            written as int + rs.len() <= u64::MAX,
            cursor == csr_cursor(rs, from_id as int, (id - from_id) as nat),
            cursor <= rs.len(),
            offsets@ == spec_csr_offsets(rs, from_id as int, id as int, written as int),
            sources@ == rs.subrange(0, cursor as int).map_values(|r: u64| low_of(r)),
        decreases to_id - id,
    {
        offsets.push(written + cursor as u64);
        proof {
            assert(offsets@ =~= spec_csr_offsets(rs, from_id as int, id + 1, written as int));
        }
        let ghost c0 = cursor as int;
        while cursor < sorted.len() && sorted[cursor] >> 32u64 == id
            invariant
                rs == sorted@,
                c0 <= cursor <= rs.len(),
                run_end(rs, c0, id as int) == run_end(rs, cursor as int, id as int),
                sources@ == rs.subrange(0, cursor as int).map_values(|r: u64| low_of(r)),
            decreases rs.len() - cursor,
        {
            proof {
                lemma_unpack(sorted@[cursor as int]);
            }
            sources.push((sorted[cursor] & 0xFFFF_FFFFu64) as u32);
            proof {
                assert(sources@ =~= rs.subrange(0, cursor + 1).map_values(|r: u64| low_of(r)));
            }
            cursor = cursor + 1;
        }
        proof {
            if cursor < rs.len() {
                lemma_unpack(sorted@[cursor as int]);
            }
            assert(csr_cursor(rs, from_id as int, (id + 1 - from_id) as nat) == run_end(rs, c0, id as int));
        }
        id = id + 1;
    }
    (sorted, offsets, sources)
}

pub open spec fn inbound_magic() -> Seq<u8> {
    seq![87u8, 82u8, 73u8, 79u8]
}

/// The 64-byte header of `inbound.off`.
pub open spec fn spec_inbound_header(node_capacity: u64, edge_count: u64) -> Seq<u8> {
    inbound_magic() + le32(1) + le64(node_capacity) + le64(edge_count) + Seq::new(40, |i: int| 0u8)
}

/// The header of `inbound.off` for `node_capacity` domains and `edge_count`
/// stored backlinks.
pub fn inbound_header(node_capacity: u64, edge_count: u64) -> (h: Vec<u8>)
    ensures
        h@ == spec_inbound_header(node_capacity, edge_count),
        h@.len() == 64,
{
    let mut h: Vec<u8> = Vec::new();
    h.push(87u8);
    h.push(82u8);
    h.push(73u8);
    h.push(79u8);
    put32(&mut h, 1);
    put64(&mut h, node_capacity);
    put64(&mut h, edge_count);
    proof {
        lemma_le_round_trips();
    }
    let ghost head = h@;
    let mut z: usize = 0;
    while z < 40
        invariant
            z <= 40,
            h@ == head + Seq::new(z as nat, |i: int| 0u8),
        decreases 40 - z,
    {
        h.push(0u8);
        assert(h@ =~= head + Seq::new((z + 1) as nat, |i: int| 0u8));
        z = z + 1;
    }
    assert(h@ =~= spec_inbound_header(node_capacity, edge_count));
    h
}

/// The little-endian bytes of offsets, as appended to `inbound.off`.
pub open spec fn offsets_bytes(v: Seq<u64>) -> Seq<u8>
    decreases v.len(),
{
    if v.len() == 0 { Seq::empty() } else { offsets_bytes(v.drop_last()) + le64(v.last()) }
}

/// The little-endian bytes of source ids, as appended to `inbound.src`.
pub open spec fn sources_bytes(v: Seq<u32>) -> Seq<u8>
    decreases v.len(),
{
    if v.len() == 0 { Seq::empty() } else { sources_bytes(v.drop_last()) + le32(v.last()) }
}

pub fn encode_offsets(v: &Vec<u64>) -> (b: Vec<u8>)
    ensures
        b@ == offsets_bytes(v@),
{
    let mut b: Vec<u8> = Vec::new();
    let mut i: usize = 0;
    while i < v.len()
        invariant
            i <= v@.len(),
            b@ == offsets_bytes(v@.subrange(0, i as int)),
        decreases v.len() - i,
    {
        put64(&mut b, v[i]);
        assert(v@.subrange(0, i + 1).drop_last() =~= v@.subrange(0, i as int));
        i = i + 1;
    }
    assert(v@.subrange(0, i as int) =~= v@);
    b
}

pub fn encode_sources(v: &Vec<u32>) -> (b: Vec<u8>)
    ensures
        b@ == sources_bytes(v@),
{
    let mut b: Vec<u8> = Vec::new();
    let mut i: usize = 0;
    while i < v.len()
        invariant
            i <= v@.len(),
            b@ == sources_bytes(v@.subrange(0, i as int)),
        decreases v.len() - i,
    {
        put32(&mut b, v[i]);
        assert(v@.subrange(0, i + 1).drop_last() =~= v@.subrange(0, i as int));
        i = i + 1;
    }
    assert(v@.subrange(0, i as int) =~= v@);
    b
}

/// The memory-mapped CSR, by its header: the byte slices themselves are
/// handed to each lookup.
#[derive(Clone, Copy, PartialEq, Eq, Structural)]
pub struct InboundIndex {
    pub node_capacity: u64,
    pub edge_count: u64,
}

/// Why the inbound index could not be opened.
#[derive(Debug, Clone, Copy, PartialEq, Eq, Structural)]
pub enum InboundOpenError {
    NotAnIndex,
    Version(u32),
    /// `inbound.off` is shorter than its header says.
    Truncated,
    /// `inbound.src` holds `actual` bytes where `expected` are needed.
    SourcesTruncated { actual: u64, expected: u128 },
}

impl InboundIndex {
    /// The offsets and sources fit this header.
    pub open spec fn fits(&self, offsets: Seq<u8>, sources: Seq<u8>) -> bool {
        &&& offsets.len() >= 64 + (self.node_capacity + 1) * 8
        &&& sources.len() >= self.edge_count * 4
    }

    pub open spec fn offset_at(offsets: Seq<u8>, id: int) -> u64 {
        read64(offsets, 64 + 8 * id)
    }

    /// What opening `inbound.off` (and an `inbound.src` of `sources_len`
    /// bytes) gives.
    pub open spec fn spec_open(offsets: Seq<u8>, sources_len: int) -> Result<InboundIndex, InboundOpenError> {
        let cap = read64(offsets, 8);
        let edges = read64(offsets, 16);
        if offsets.len() < 64 || offsets.subrange(0, 4) != inbound_magic() {
            Err(InboundOpenError::NotAnIndex)
        } else if read32(offsets, 4) != 1 {
            Err(InboundOpenError::Version(read32(offsets, 4)))
        } else if offsets.len() < 64 + (cap + 1) * 8 {
            Err(InboundOpenError::Truncated)
        } else if sources_len < edges * 4 {
            Err(InboundOpenError::SourcesTruncated { actual: sources_len as u64, expected: (edges * 4) as u128 })
        } else {
            Ok(InboundIndex { node_capacity: cap, edge_count: edges })
        }
    }

    /// Check the header of `inbound.off` and the size of `inbound.src`.
    pub fn open(offsets: &[u8], sources_len: u64) -> (r: Result<InboundIndex, InboundOpenError>)
        ensures
            r == Self::spec_open(offsets@, sources_len as int),
            r matches Ok(ix) ==> ix.fits(offsets@, Seq::new(sources_len as nat, |i: int| 0u8)),
    {
        let n = offsets.len();
        if n < 64 || !(offsets[0] == 87u8 && offsets[1] == 82u8 && offsets[2] == 73u8 && offsets[3] == 79u8) {
            proof {
                if n >= 64 && offsets@.subrange(0, 4) == inbound_magic() {
                    assert(offsets@.subrange(0, 4)[0] == offsets@[0]);
                    assert(offsets@.subrange(0, 4)[1] == offsets@[1]);
                    assert(offsets@.subrange(0, 4)[2] == offsets@[2]);
                    assert(offsets@.subrange(0, 4)[3] == offsets@[3]);
                }
            }
            return Err(InboundOpenError::NotAnIndex);
        }
        assert(offsets@.subrange(0, 4) =~= inbound_magic());
        let format = get32(offsets, 4);
        if format != 1 {
            return Err(InboundOpenError::Version(format));
        }
        let cap = get64(offsets, 8);
        let edges = get64(offsets, 16);
        if (n as u128) < 64 + (cap as u128 + 1) * 8 {
            return Err(InboundOpenError::Truncated);
        }
        if (sources_len as u128) < edges as u128 * 4 {
            return Err(InboundOpenError::SourcesTruncated { actual: sources_len, expected: edges as u128 * 4 });
        }
        Ok(InboundIndex { node_capacity: cap, edge_count: edges })
    }

    fn offset(&self, offsets: &[u8], id: u64) -> (o: u64)
        requires
            offsets@.len() >= 64 + (self.node_capacity + 1) * 8,
            id <= self.node_capacity,
        ensures
            o == Self::offset_at(offsets@, id as int),
    {
        let n = offsets.len();
        assert(64 + 8 * id + 8 <= n) by (nonlinear_arith)
            requires n >= 64 + (self.node_capacity + 1) * 8, id <= self.node_capacity;
        let at = 64 + 8 * (id as usize);
        get64(offsets, at)
    }

    pub open spec fn spec_in_degree(&self, offsets: Seq<u8>, id: u32) -> u64 {
        if id >= self.node_capacity {
            0
        } else {
            let a = Self::offset_at(offsets, id as int);
            let b = Self::offset_at(offsets, id + 1);
            if b > a { (b - a) as u64 } else { 0 }
        }
    }

    /// Number of domains linking to `id`.
    pub fn in_degree(&self, offsets: &[u8], id: u32) -> (d: u64)
        requires
            offsets@.len() >= 64 + (self.node_capacity + 1) * 8,
        ensures
            d == self.spec_in_degree(offsets@, id),
    {
        if id as u64 >= self.node_capacity {
            return 0;
        }
        let a = self.offset(offsets, id as u64);
        let b = self.offset(offsets, id as u64 + 1);
        if b > a { b - a } else { 0 }
    }

    /// What `sources_of` answers: the first `min(total, limit)` sources of
    /// `id` and the true total, or nothing if the list lies past the end
    /// of `inbound.src`.
    pub open spec fn spec_sources_of(&self, offsets: Seq<u8>, sources: Seq<u8>, id: u32, limit: int) -> (Seq<u32>, u64) {
        let total = self.spec_in_degree(offsets, id);
        let start = Self::offset_at(offsets, id as int) as int;
        let take = if total < limit { total as int } else { limit };
        if id >= self.node_capacity {
            (Seq::empty(), 0)
        } else if start * 4 + take * 4 > sources.len() {
            (Seq::empty(), total)
        } else {
            (Seq::new(take as nat, |k: int| read32(sources, 4 * (start + k))), total)
        }
    }

    /// Every domain id linking to `id` in stored (ascending) order, capped at
    /// `limit`, with the real in-degree.
    pub fn sources_of(&self, offsets: &[u8], sources: &[u8], id: u32, limit: usize) -> (r: (Vec<u32>, u64))
        requires
            offsets@.len() >= 64 + (self.node_capacity + 1) * 8,
        ensures
            (r.0@, r.1) == self.spec_sources_of(offsets@, sources@, id, limit as int),
    {
        let total = self.in_degree(offsets, id);
        if id as u64 >= self.node_capacity {
            return (Vec::new(), 0);
        }
        let start = self.offset(offsets, id as u64);
        let take: u64 = if total < limit as u64 { total } else { limit as u64 };
        let n = sources.len();
        if (start as u128) * 4 + (take as u128) * 4 > n as u128 {
            return (Vec::new(), total);
        }
        let mut list: Vec<u32> = Vec::new();
        let mut k: u64 = 0;
        while k < take
            invariant
                k <= take,
                start as int * 4 + take as int * 4 <= n == sources@.len(),
                list@ =~= Seq::new(k as nat, |j: int| read32(sources@, 4 * (start + j))),
            decreases take - k,
        {
            list.push(get32(sources, (4 * (start + k)) as usize));
            k = k + 1;
        }
        (list, total)
    }
}

/// Pieces that end on line boundaries have, together, the lines of the
/// text they make up.
pub proof fn lemma_pieces_lines(pieces: Seq<Seq<u8>>)
    requires
        forall|k: int| 0 <= k < pieces.len() - 1 ==> (#[trigger] pieces[k]).len() > 0 && pieces[k].last() == 10,
    ensures
        split_lines(pieces.flatten()) == pieces.map_values(|p: Seq<u8>| split_lines(p)).flatten(),
    decreases pieces.len(),
{
    let f = |p: Seq<u8>| split_lines(p);
    if pieces.len() == 0 {
        crate::lines::lemma_split_lines_empty();
        assert(pieces.map_values(f) =~= Seq::<Seq<Seq<u8>>>::empty());
    } else if pieces.len() == 1 {
        pieces.lemma_flatten_one_element();
        pieces.map_values(f).lemma_flatten_one_element();
    } else {
        let rest = pieces.drop_first();
        assert forall|k: int| 0 <= k < rest.len() - 1 implies (#[trigger] rest[k]).len() > 0 && rest[k].last() == 10 by {
            assert(rest[k] == pieces[k + 1]);
        }
        lemma_pieces_lines(rest);
        crate::lines::lemma_split_lines_concat(pieces[0], rest.flatten());
        assert(pieces.map_values(f).drop_first() =~= rest.map_values(f));
    }
}

pub proof fn lemma_edge_pairs_add(x: Seq<Seq<u8>>, y: Seq<Seq<u8>>)
    ensures
        edge_pairs(x + y) == edge_pairs(x) + edge_pairs(y),
    decreases y.len(),
{
    if y.len() == 0 {
        assert(x + y =~= x);
        assert(edge_pairs(x) + Seq::<(u32, u32)>::empty() =~= edge_pairs(x));
    } else {
        lemma_edge_pairs_add(x, y.drop_last());
        assert((x + y).drop_last() =~= x + y.drop_last());
        assert((x + y).last() == y.last());
        let t = spec_trim_eol(y.last());
        if !(t.len() == 0 || t[0] == 35) {
            match spec_parse_edge_line(t) {
                Some(e) => {
                    assert((edge_pairs(x) + edge_pairs(y.drop_last())).push(e) =~= edge_pairs(x) + edge_pairs(y.drop_last()).push(e));
                },
                None => {},
            }
        }
    }
}

proof fn lemma_bucketed_add(x: Seq<(u32, u32)>, y: Seq<(u32, u32)>, bucket_count: int, span: int)
    ensures
        bucketed(x + y, bucket_count, span) == bucketed(x, bucket_count, span) + bucketed(y, bucket_count, span),
    decreases y.len(),
{
    if y.len() == 0 {
        assert(x + y =~= x);
        assert(bucketed(x, bucket_count, span) + Seq::<(u64, u64)>::empty() =~= bucketed(x, bucket_count, span));
    } else {
        lemma_bucketed_add(x, y.drop_last(), bucket_count, span);
        assert((x + y).drop_last() =~= x + y.drop_last());
        assert((x + y).last() == y.last());
        let bx = bucketed(x, bucket_count, span);
        let by = bucketed(y.drop_last(), bucket_count, span);
        let (from, to) = y.last();
        let b = to as int / span;
        if from != to && b < bucket_count {
            assert((bx + by).push((b as u64, pack(to, from))) =~= bx + by.push((b as u64, pack(to, from))));
        }
    }
}

proof fn lemma_chunk_step(ps: Seq<Seq<u8>>, i: int, bucket_count: int, span: int)
    requires
        0 <= i < ps.len(),
    ensures
        bucketed(edge_pairs(ps.subrange(0, i + 1).map_values(|p: Seq<u8>| split_lines(p)).flatten()), bucket_count, span)
            == bucketed(edge_pairs(ps.subrange(0, i).map_values(|p: Seq<u8>| split_lines(p)).flatten()), bucket_count, span)
                + bucketed(edge_pairs(split_lines(ps[i])), bucket_count, span),
{
    let f = |p: Seq<u8>| split_lines(p);
    let m0 = ps.subrange(0, i).map_values(f);
    let m1 = ps.subrange(0, i + 1).map_values(f);
    assert(m1 =~= m0.push(split_lines(ps[i])));
    m0.lemma_flatten_push(split_lines(ps[i]));
    lemma_edge_pairs_add(m0.flatten(), split_lines(ps[i]));
    lemma_bucketed_add(edge_pairs(m0.flatten()), edge_pairs(split_lines(ps[i])), bucket_count, span);
}

/// rayon's `par_iter().map(..).collect()`: `partition_edges` applied to
/// every piece, the results in the pieces' order.
#[verifier::external_body]
fn partition_pieces(pieces: &Vec<&[u8]>, bucket_count: u64, span: u64) -> (r: Vec<Vec<(u64, u64)>>)
    requires
        span > 0,
    ensures
        r@.len() == pieces@.len(),
        forall|i: int| 0 <= i < r@.len() ==> (#[trigger] r@[i])@
            == bucketed(edge_pairs(split_lines(pieces@[i]@)), bucket_count as int, span as int),
{
    pieces.par_iter().map(|p| partition_edges(p, bucket_count, span)).collect()
}

/// Split one chunk of whole lines into buckets, `threads` pieces in
/// parallel: the same records, in the same order, as one pass over it.
#[verifier::spinoff_prover]
#[verifier::rlimit(100)]
pub fn partition_chunk(chunk: &[u8], threads: usize, bucket_count: u64, span: u64) -> (out: Vec<(u64, u64)>)
    requires
        span > 0,
    ensures
        out@ == bucketed(edge_pairs(split_lines(chunk@)), bucket_count as int, span as int),
{
    let pieces = crate::lines::split_on_lines(chunk, threads);
    let ghost ps = pieces@.map_values(|p: &[u8]| p@);
    let ghost f = |p: Seq<u8>| split_lines(p);
    proof {
        if chunk@.len() > 0 {
            lemma_pieces_lines(ps);
        } else {
            assert(ps =~= seq![chunk@]);
            ps.lemma_flatten_one_element();
            ps.map_values(f).lemma_flatten_one_element();
        }
        assert(ps.flatten() == chunk@);
    }
    let mut per = partition_pieces(&pieces, bucket_count, span);
    let ghost all = per@;
    let mut out: Vec<(u64, u64)> = Vec::new();
    let mut i: usize = 0;
    proof {
        assert(ps.subrange(0, 0).map_values(f) =~= Seq::<Seq<Seq<u8>>>::empty());
        assert(edge_pairs(Seq::<Seq<u8>>::empty()) =~= Seq::<(u32, u32)>::empty());
    }
    while i < pieces.len()
        invariant
            i <= all.len() == pieces@.len() == ps.len(),
            per@ == all.subrange(i as int, all.len() as int),
            ps == pieces@.map_values(|p: &[u8]| p@),
            f == (|p: Seq<u8>| split_lines(p)),
            span > 0,
            forall|k: int| 0 <= k < all.len() ==> (#[trigger] all[k])@
                == bucketed(edge_pairs(split_lines(pieces@[k]@)), bucket_count as int, span as int),
            out@ == bucketed(edge_pairs(ps.subrange(0, i as int).map_values(f).flatten()), bucket_count as int, span as int),
        decreases pieces.len() - i,
    {
        let mut part = per.remove(0);
        proof {
            assert(per@ =~= all.subrange(i + 1, all.len() as int));
        }
        let ghost before = out@;
        let ghost pv = part@;
        out.append(&mut part);
        proof {
            assert(ps[i as int] == pieces@[i as int]@);
            lemma_chunk_step(ps, i as int, bucket_count as int, span as int);
        }
        i = i + 1;
    }
    proof {
        assert(ps.subrange(0, i as int) =~= ps);
    }
    out
}

/// The offsets after the last bucket: one per remaining id, all equal to
/// `written`, then the sentinel.
pub fn tail_offsets(next_id: u64, node_capacity: u64, written: u64) -> (v: Vec<u64>)
    requires
        node_capacity < 0x1_0000_0000,
    ensures
        v@ == Seq::new((if next_id < node_capacity { node_capacity - next_id + 1 } else { 1 }) as nat, |k: int| written),
{
    let mut v: Vec<u64> = Vec::new();
    let mut id = next_id;
    while id < node_capacity
        invariant
            id >= next_id,
            next_id < node_capacity ==> id <= node_capacity,
            next_id >= node_capacity ==> id == next_id,
            v@ == Seq::new((id - next_id) as nat, |k: int| written),
            node_capacity < 0x1_0000_0000,
        decreases node_capacity - id,
    {
        v.push(written);
        assert(v@ =~= Seq::new((id + 1 - next_id) as nat, |k: int| written));
        id = id + 1;
    }
    v.push(written);
    proof {
        if next_id < node_capacity {
            assert(v@ =~= Seq::new((node_capacity - next_id + 1) as nat, |k: int| written));
        } else {
            assert(v@ =~= Seq::new(1, |k: int| written));
        }
    }
    v
}


// ---------------------------------------------------------------------------
// Assembling the CSR bucket by bucket, and what a lookup reads back
// ---------------------------------------------------------------------------

/// The records, ascending and without repeats.
pub open spec fn sorted_distinct(records: Seq<u64>) -> Seq<u64> {
    choose|rs: Seq<u64>| crate::order::increasing_u64(rs) && forall|x: u64| rs.contains(x) <==> records.contains(x)
}

/// Two ascending sequences without repeats that hold the same values are equal.
proof fn lemma_increasing_same(a: Seq<u64>, b: Seq<u64>)
    requires
        crate::order::increasing_u64(a),
        crate::order::increasing_u64(b),
        forall|x: u64| a.contains(x) <==> b.contains(x),
    ensures
        a == b,
    decreases a.len(),
{
    if a.len() == 0 {
        if b.len() > 0 {
            assert(b.contains(b[0]));
        }
        assert(a =~= b);
    } else if b.len() == 0 {
        assert(a.contains(a[0]));
    } else {
        assert(a.contains(a[0]));
        assert(b.contains(b[0]));
        let j = choose|j: int| 0 <= j < b.len() && b[j] == a[0];
        let i = choose|i: int| 0 <= i < a.len() && a[i] == b[0];
        assert(a[0] <= a[i]);
        assert(b[0] <= b[j]);
        assert(a[0] == b[0]);
        let a1 = a.drop_first();
        let b1 = b.drop_first();
        assert forall|x: u64| a1.contains(x) <==> b1.contains(x) by {
            if a1.contains(x) {
                let k = choose|k: int| 0 <= k < a1.len() && a1[k] == x;
                assert(a[k + 1] == x);
                assert(a.contains(x));
                let m = choose|m: int| 0 <= m < b.len() && b[m] == x;
                assert(m != 0);
                assert(b1[m - 1] == x);
            }
            if b1.contains(x) {
                let k = choose|k: int| 0 <= k < b1.len() && b1[k] == x;
                assert(b[k + 1] == x);
                assert(b.contains(x));
                let m = choose|m: int| 0 <= m < a.len() && a[m] == x;
                assert(m != 0);
                assert(a1[m - 1] == x);
            }
        }
        lemma_increasing_same(a1, b1);
        assert forall|k: int| 0 <= k < a.len() implies a[k] == b[k] by {
            if k > 0 {
                assert(a[k] == a1[k - 1]);
                assert(b[k] == b1[k - 1]);
            }
        }
        assert(a =~= b);
    }
}

proof fn lemma_sorted_distinct(records: Seq<u64>, rs: Seq<u64>)
    requires
        crate::order::increasing_u64(rs),
        forall|x: u64| rs.contains(x) <==> records.contains(x),
    ensures
        sorted_distinct(records) == rs,
{
    let sd = sorted_distinct(records);
    lemma_increasing_same(sd, rs);
}

/// One step of writing `inbound.off` and `inbound.src`: bucket `bucket`,
/// whose ids are `bucket * span` up to the next bucket or `node_capacity`,
/// holding `records`, after `written` sources and the ids below `next_id`.
/// Past the last id it stops and changes nothing (`true`); otherwise it gives
/// the next id, the sources written with this bucket, and the bucket's
/// offsets and sources.
pub fn csr_step(next_id: u64, written: u64, bucket: u64, span: u64, node_capacity: u64, records: Vec<u64>)
    -> (r: (u64, u64, Vec<u64>, Vec<u32>, bool))
    requires
        node_capacity < 0x1_0000_0000,
        bucket < u64::MAX,
        (bucket + 1) * span <= u64::MAX,
        written + records@.len() <= u64::MAX,
    ensures
        r.4 == (bucket * span >= node_capacity),
        r.4 ==> r.0 == next_id && r.1 == written && r.2@.len() == 0 && r.3@.len() == 0,
        !r.4 ==> ({
            let from = bucket * span;
            let to = if (bucket + 1) * span < node_capacity { (bucket + 1) * span } else { node_capacity as int };
            let rs = sorted_distinct(records@);
            &&& r.0 == to
            &&& r.2@ == spec_csr_offsets(rs, from, to, written as int)
            &&& r.3@ == spec_csr_sources(rs, from, to)
            &&& r.1 == written + r.3@.len()
        }),
{
    assert(bucket * span <= (bucket + 1) * span) by (nonlinear_arith);
    let from_id = bucket * span;
    if from_id >= node_capacity {
        return (next_id, written, Vec::new(), Vec::new(), true);
    }
    let end = (bucket + 1) * span;
    let to_id = if end < node_capacity { end } else { node_capacity };
    let (sorted, offsets, sources) = csr_bucket(records, from_id, to_id, written);
    proof {
        lemma_sorted_distinct(records@, sorted@);
        lemma_csr_cursor_range(sorted@, from_id as int, (to_id - from_id) as nat);
    }
    let count = sources.len() as u64;
    (to_id, written + count, offsets, sources, false)
}

/// `s` is the backlinks of `id` among the packed records `edges`: ascending,
/// without repeats, and holding exactly the sources of the records keyed `id`.
pub open spec fn backlinks_of(edges: Set<u64>, id: int, s: Seq<u32>) -> bool {
    &&& forall|i: int, j: int| 0 <= i < j < s.len() ==> s[i] < s[j]
    &&& forall|x: u32| s.contains(x) <==> edges.contains(pack(id as u32, x))
}

/// Where the sources of `id` end: at the next id's offset, or at `written`.
pub open spec fn slice_end(offs: Seq<u64>, written: int, id: int) -> int {
    if id + 1 < offs.len() { offs[id + 1] as int } else { written }
}

/// The offsets and sources written so far describe every id below
/// `offs.len()`: each id's slice lies in order inside the sources and holds
/// its backlinks.
pub open spec fn csr_covers(edges: Set<u64>, offs: Seq<u64>, srcs: Seq<u32>) -> bool {
    forall|id: int| 0 <= id < offs.len() ==> {
        let e = #[trigger] slice_end(offs, srcs.len() as int, id);
        &&& offs[id] <= e <= srcs.len()
        &&& backlinks_of(edges, id, srcs.subrange(offs[id] as int, e))
    }
}

proof fn lemma_bucket_keys(rs: Seq<u64>, edges: Set<u64>, from: int, to: int)
    requires
        forall|r: u64| rs.contains(r) <==> (edges.contains(r) && from <= key_of(r) < to),
    ensures
        forall|j: int| 0 <= j < rs.len() ==> from <= #[trigger] key_of(rs[j]) < to,
{
    assert forall|j: int| 0 <= j < rs.len() implies from <= #[trigger] key_of(rs[j]) < to by {
        assert(rs.contains(rs[j]));
    }
}

/// Records of one key are ordered by their low halves.
proof fn lemma_same_key_lows(rs: Seq<u64>, a: int, b: int, id: int)
    requires
        crate::order::increasing_u64(rs),
        0 <= a <= b <= rs.len(),
        forall|j: int| a <= j < b ==> key_of(#[trigger] rs[j]) == id,
    ensures
        forall|i: int, j: int| a <= i < j < b ==> low_of(#[trigger] rs[i]) < low_of(#[trigger] rs[j]),
{
    assert forall|i: int, j: int| a <= i < j < b implies low_of(#[trigger] rs[i]) < low_of(#[trigger] rs[j]) by {
        lemma_unpack_pack(rs[i]);
        lemma_unpack_pack(rs[j]);
    }
}

/// The slice a bucket gives its `k`-th id is that id's backlinks.
#[verifier::spinoff_prover]
#[verifier::rlimit(60)]
proof fn lemma_bucket_slice(edges: Set<u64>, rs: Seq<u64>, from: int, to: int, k: nat)
    requires
        crate::order::increasing_u64(rs),
        0 <= from <= to <= 0x1_0000_0000,
        k < to - from,
        forall|r: u64| rs.contains(r) <==> (edges.contains(r) && from <= key_of(r) < to),
    ensures
        0 <= csr_cursor(rs, from, k) <= csr_cursor(rs, from, k + 1) <= rs.len(),
        backlinks_of(edges, from + k,
            rs.map_values(|r: u64| low_of(r)).subrange(csr_cursor(rs, from, k), csr_cursor(rs, from, k + 1))),
{
    lemma_bucket_keys(rs, edges, from, to);
    lemma_csr_slices(rs, from, to);
    lemma_csr_cursor_range(rs, from, k);
    lemma_run_end_range(rs, csr_cursor(rs, from, k), from + k);
    let a = csr_cursor(rs, from, k);
    let b = csr_cursor(rs, from, k + 1);
    let lows = rs.map_values(|r: u64| low_of(r));
    let s = lows.subrange(a, b);
    let id = from + k;
    assert forall|j: int| a <= j < b implies key_of(#[trigger] rs[j]) == id by {
        assert(0 <= j < rs.len());
    }
    lemma_same_key_lows(rs, a, b, id);
    assert forall|i: int, j: int| 0 <= i < j < s.len() implies s[i] < s[j] by {
        assert(s[i] == low_of(rs[a + i]));
        assert(s[j] == low_of(rs[a + j]));
    }
    assert forall|x: u32| s.contains(x) implies edges.contains(pack(id as u32, x)) by {
        let i = choose|i: int| 0 <= i < s.len() && s[i] == x;
        assert(key_of(rs[a + i]) == id);
        lemma_unpack_pack(rs[a + i]);
        assert(rs.contains(rs[a + i]));
    }
    assert forall|x: u32| edges.contains(pack(id as u32, x)) implies s.contains(x) by {
        lemma_key_of_pack(id as u32, x);
        assert(rs.contains(pack(id as u32, x)));
        let j = choose|j: int| 0 <= j < rs.len() && rs[j] == pack(id as u32, x);
        assert(key_of(rs[j]) == id);
        assert(a <= j < b);
        assert(s[j - a] == x);
    }
}

/// An id below the bucket keeps its slice when the bucket is appended.
#[verifier::spinoff_prover]
proof fn lemma_csr_old_slice(edges: Set<u64>, offs: Seq<u64>, srcs: Seq<u32>, rs: Seq<u64>, to: int, id: int)
    requires
        csr_covers(edges, offs, srcs),
        offs.len() <= to,
        0 <= id < offs.len(),
        srcs.len() + rs.len() <= u64::MAX,
        forall|j: int| 0 <= j < rs.len() ==> offs.len() <= #[trigger] key_of(rs[j]) < to,
        csr_cursor(rs, offs.len() as int, (to - offs.len()) as nat) == rs.len(),
    ensures
        ({
            let no = offs + spec_csr_offsets(rs, offs.len() as int, to, srcs.len() as int);
            let ns = srcs + spec_csr_sources(rs, offs.len() as int, to);
            let e = slice_end(no, ns.len() as int, id);
            &&& no[id] <= e <= ns.len()
            &&& backlinks_of(edges, id, ns.subrange(no[id] as int, e))
        }),
{
    let from = offs.len() as int;
    let w = srcs.len() as int;
    let no = offs + spec_csr_offsets(rs, from, to, w);
    let ns = srcs + spec_csr_sources(rs, from, to);
    assert(rs.subrange(0, rs.len() as int) =~= rs);
    assert(ns.len() == w + rs.len());
    let e0 = slice_end(offs, w, id);
    assert(offs[id] <= e0 <= w);
    assert(no[id] == offs[id]);
    if id + 1 < from {
        assert(no[id + 1] == offs[id + 1]);
    } else if to > from {
        assert(csr_cursor(rs, from, 0) == 0);
        assert(no[id + 1] == w);
    } else {
        if rs.len() > 0 {
            assert(from <= key_of(rs[0]) < to);
        }
    }
    assert(slice_end(no, ns.len() as int, id) == e0);
    assert(ns.subrange(no[id] as int, e0) =~= srcs.subrange(offs[id] as int, e0));
}

/// An id of the bucket gets its backlinks as its slice.
#[verifier::spinoff_prover]
proof fn lemma_csr_new_slice(edges: Set<u64>, offs: Seq<u64>, srcs: Seq<u32>, rs: Seq<u64>, to: int, id: int)
    requires
        offs.len() <= id < to <= 0x1_0000_0000,
        crate::order::increasing_u64(rs),
        forall|r: u64| rs.contains(r) <==> (edges.contains(r) && offs.len() <= key_of(r) < to),
        csr_cursor(rs, offs.len() as int, (to - offs.len()) as nat) == rs.len(),
        srcs.len() + rs.len() <= u64::MAX,
    ensures
        ({
            let no = offs + spec_csr_offsets(rs, offs.len() as int, to, srcs.len() as int);
            let ns = srcs + spec_csr_sources(rs, offs.len() as int, to);
            let e = slice_end(no, ns.len() as int, id);
            &&& no[id] <= e <= ns.len()
            &&& backlinks_of(edges, id, ns.subrange(no[id] as int, e))
        }),
{
    let from = offs.len() as int;
    let w = srcs.len() as int;
    let no = offs + spec_csr_offsets(rs, from, to, w);
    let ns = srcs + spec_csr_sources(rs, from, to);
    let lows = rs.map_values(|r: u64| low_of(r));
    assert(rs.subrange(0, rs.len() as int) =~= rs);
    assert(spec_csr_sources(rs, from, to) =~= lows);
    let k = (id - from) as nat;
    lemma_bucket_slice(edges, rs, from, to, k);
    let a = csr_cursor(rs, from, k);
    let b = csr_cursor(rs, from, k + 1);
    assert(a <= b <= rs.len());
    assert(w + b <= u64::MAX);
    assert(ns.len() == w + rs.len());
    let xo = spec_csr_offsets(rs, from, to, w);
    let xs = spec_csr_sources(rs, from, to);
    assert(xo[k as int] == (w + a) as u64);
    assert(no[id] == xo[id - from]);
    assert(no[id] == w + a);
    if id + 1 < no.len() {
        assert(xo[k + 1int] == (w + b) as u64);
        assert(no[id + 1] == xo[id + 1 - from]);
        assert(no[id + 1] == w + b);
    } else {
        assert(k + 1 == (to - from) as nat);
        assert(b == rs.len());
    }
    assert(slice_end(no, ns.len() as int, id) == w + b);
    assert(lows.len() == rs.len());
    assert(xs == lows);
    assert forall|i: int| 0 <= i < b - a implies ns.subrange(w + a, w + b)[i] == lows.subrange(a, b)[i] by {
        assert(ns[w + a + i] == xs[a + i]);
    }
    assert(ns.subrange(w + a, w + b) =~= lows.subrange(a, b));
}

/// Appending a bucket keeps the CSR describing every id: when the bucket
/// holds exactly the records keyed from the next id up to `to`, the ids up to
/// `to` are described afterwards, each by its backlinks.
pub proof fn lemma_csr_step(edges: Set<u64>, offs: Seq<u64>, srcs: Seq<u32>, rs: Seq<u64>, to: int)
    requires
        csr_covers(edges, offs, srcs),
        offs.len() <= to <= 0x1_0000_0000,
        srcs.len() + rs.len() <= u64::MAX,
        crate::order::increasing_u64(rs),
        forall|r: u64| rs.contains(r) <==> (edges.contains(r) && offs.len() <= key_of(r) < to),
    ensures
        csr_covers(edges, offs + spec_csr_offsets(rs, offs.len() as int, to, srcs.len() as int),
            srcs + spec_csr_sources(rs, offs.len() as int, to)),
{
    let from = offs.len() as int;
    let w = srcs.len() as int;
    let no = offs + spec_csr_offsets(rs, from, to, w);
    let ns = srcs + spec_csr_sources(rs, from, to);
    lemma_bucket_keys(rs, edges, from, to);
    lemma_csr_slices(rs, from, to);
    assert forall|id: int| 0 <= id < no.len() implies {
        let e = #[trigger] slice_end(no, ns.len() as int, id);
        &&& no[id] <= e <= ns.len()
        &&& backlinks_of(edges, id, ns.subrange(no[id] as int, e))
    } by {
        if id < from {
            lemma_csr_old_slice(edges, offs, srcs, rs, to, id);
        } else {
            lemma_csr_new_slice(edges, offs, srcs, rs, to, id);
        }
    }
}

/// The little-endian offsets have eight bytes each.
proof fn lemma_offsets_bytes_at(v: Seq<u64>, k: int)
    requires
        0 <= k < v.len(),
    ensures
        offsets_bytes(v).len() == 8 * v.len(),
        offsets_bytes(v).subrange(8 * k, 8 * k + 8) == le64(v[k]),
    decreases v.len(),
{
    lemma_le_round_trips();
    let d = v.drop_last();
    if k < v.len() - 1 {
        lemma_offsets_bytes_at(d, k);
        assert(offsets_bytes(v).subrange(8 * k, 8 * k + 8) =~= offsets_bytes(d).subrange(8 * k, 8 * k + 8));
    } else {
        if d.len() > 0 {
            lemma_offsets_bytes_at(d, 0);
        }
        assert(offsets_bytes(d).len() == 8 * d.len());
        assert(offsets_bytes(v).subrange(8 * k, 8 * k + 8) =~= le64(v.last()));
    }
}

/// The little-endian source ids have four bytes each.
proof fn lemma_sources_bytes_at(v: Seq<u32>, k: int)
    requires
        0 <= k < v.len(),
    ensures
        sources_bytes(v).len() == 4 * v.len(),
        sources_bytes(v).subrange(4 * k, 4 * k + 4) == le32(v[k]),
    decreases v.len(),
{
    lemma_le_round_trips();
    let d = v.drop_last();
    if k < v.len() - 1 {
        lemma_sources_bytes_at(d, k);
        assert(sources_bytes(v).subrange(4 * k, 4 * k + 4) =~= sources_bytes(d).subrange(4 * k, 4 * k + 4));
    } else {
        if d.len() > 0 {
            lemma_sources_bytes_at(d, 0);
        }
        assert(sources_bytes(d).len() == 4 * d.len());
        assert(sources_bytes(v).subrange(4 * k, 4 * k + 4) =~= le32(v.last()));
    }
}

/// What a lookup reads back of the CSR files: when the offsets and sources
/// describe every id below the capacity, `inbound.off` (the header, each
/// offset, then the end of the sources) and `inbound.src` open as an index of
/// that capacity, and `sources_of(id)` gives the first `limit` backlinks of
/// `id`, ascending and without repeats, with their real number.
#[verifier::rlimit(60)]
pub proof fn lemma_csr_file(edges: Set<u64>, offs: Seq<u64>, srcs: Seq<u32>, id: u32, limit: int)
    requires
        csr_covers(edges, offs, srcs),
        offs.len() < 0x1_0000_0000,
        srcs.len() <= u64::MAX,
        id < offs.len(),
        limit >= 0,
    ensures
        ({
            let cap = offs.len() as u64;
            let written = srcs.len() as u64;
            let file_off = spec_inbound_header(cap, written) + offsets_bytes(offs.push(written));
            let file_src = sources_bytes(srcs);
            let s = srcs.subrange(offs[id as int] as int, slice_end(offs, srcs.len() as int, id as int));
            &&& InboundIndex::spec_open(file_off, file_src.len() as int)
                == Ok::<InboundIndex, InboundOpenError>(InboundIndex { node_capacity: cap, edge_count: written })
            &&& (InboundIndex { node_capacity: cap, edge_count: written }).spec_sources_of(file_off, file_src, id, limit)
                == (s.subrange(0, if s.len() < limit { s.len() as int } else { limit }), s.len() as u64)
            &&& backlinks_of(edges, id as int, s)
        }),
{
    lemma_le_round_trips();
    let cap = offs.len() as u64;
    let written = srcs.len() as u64;
    let o = offs.push(written);
    let head = spec_inbound_header(cap, written);
    let file_off = head + offsets_bytes(o);
    let file_src = sources_bytes(srcs);
    let ix = InboundIndex { node_capacity: cap, edge_count: written };
    let e = slice_end(offs, srcs.len() as int, id as int);
    let s = srcs.subrange(offs[id as int] as int, e);
    assert(head.len() == 64);
    lemma_offsets_bytes_at(o, 0);
    assert(file_off.len() == 64 + 8 * (cap + 1));
    if srcs.len() > 0 {
        lemma_sources_bytes_at(srcs, 0);
    } else {
        assert(file_src.len() == 0);
    }
    assert(file_src.len() == 4 * written);
    assert(file_off.subrange(0, 4) =~= inbound_magic());
    assert(file_off.subrange(4, 8) =~= le32(1));
    assert(file_off.subrange(8, 16) =~= le64(cap));
    assert(file_off.subrange(16, 24) =~= le64(written));
    assert(InboundIndex::spec_open(file_off, file_src.len() as int) == Ok::<InboundIndex, InboundOpenError>(ix));
    assert forall|m: int| 0 <= m <= cap implies #[trigger] InboundIndex::offset_at(file_off, m) == o[m] by {
        lemma_offsets_bytes_at(o, m);
        assert(file_off.subrange(64 + 8 * m, 64 + 8 * m + 8) =~= offsets_bytes(o).subrange(8 * m, 8 * m + 8));
    }
    let a = InboundIndex::offset_at(file_off, id as int);
    let b = InboundIndex::offset_at(file_off, id + 1);
    assert(a == offs[id as int]);
    assert(b == o[id + 1]);
    assert(b == e);
    assert(offs[id as int] <= e <= srcs.len());
    let total = ix.spec_in_degree(file_off, id);
    assert(total == e - offs[id as int]);
    let take = if total < limit { total as int } else { limit };
    assert(a * 4 + take * 4 <= file_src.len());
    let got = Seq::new(take as nat, |k: int| read32(file_src, 4 * (a + k)));
    assert forall|k: int| 0 <= k < take implies got[k] == s[k] by {
        lemma_sources_bytes_at(srcs, a + k);
    }
    assert(got =~= s.subrange(0, take));
}

} // verus!
