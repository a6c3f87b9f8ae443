//! Rank lookup by node id: `*-domain-ranks.txt` joined onto the vertex
//! index and stored as `node_count × 16` bytes (PageRank, harmonic
//! centrality, and both positions), so a rank lookup is one indexed read.
//!
//! Rank values are 32-bit floats; the library carries them as their bit
//! patterns and never computes with them.

use vstd::prelude::*;
use crate::binary::{le32, le64, read32, read64, put32, put64, get32, get64, lemma_le_round_trips};
use crate::lines::{tab_positions, tab_fields, parse_u32, spec_parse_u32};
use crate::text::{chars_of, trim_chars, lower_chars, same_chars, trim, lower};
use crate::config::RankMetric;
use crate::vertices::VertexIndex;
use crate::seen::{name_map_get, name_map_contents};
use ahash::{AHashMap, RandomState};

verus! {

/// Rows of the ranks index: PageRank and harmonic value (as `f32` bits) and
/// both positions (1 = highest in the graph, 0 = unknown).
#[derive(Debug, Clone, Copy, PartialEq, Eq, Structural)]
pub struct RankRow {
    pub pagerank_bits: u32,
    pub harmonic_bits: u32,
    pub pagerank_position: u32,
    pub harmonic_position: u32,
}

pub open spec fn spec_position(row: RankRow, metric: RankMetric) -> Option<u32> {
    let p = match metric {
        RankMetric::Pagerank => row.pagerank_position,
        RankMetric::Harmonic => row.harmonic_position,
    };
    if p > 0 { Some(p) } else { None }
}

/// A row's position under a metric is that metric's stored position, and
/// none where it is 0: the PageRank position for PageRank, the harmonic one
/// for harmonic centrality, whatever the other position holds.
pub proof fn lemma_position_of_metric(row: RankRow, other: u32)
    ensures
        spec_position(row, RankMetric::Pagerank) == (if row.pagerank_position > 0 { Some(row.pagerank_position) } else { None::<u32> }),
        spec_position(row, RankMetric::Harmonic) == (if row.harmonic_position > 0 { Some(row.harmonic_position) } else { None::<u32> }),
        spec_position((RankRow { harmonic_position: other, ..row }), RankMetric::Pagerank) == spec_position(row, RankMetric::Pagerank),
        spec_position((RankRow { pagerank_position: other, ..row }), RankMetric::Harmonic) == spec_position(row, RankMetric::Harmonic),
        spec_position(row, RankMetric::Pagerank) is Some ==> spec_position(row, RankMetric::Pagerank)->Some_0 == row.pagerank_position,
        spec_position(row, RankMetric::Harmonic) is Some ==> spec_position(row, RankMetric::Harmonic)->Some_0 == row.harmonic_position,
{
}

pub open spec fn row_bytes(row: RankRow) -> Seq<u8> {
    le32(row.pagerank_bits) + le32(row.harmonic_bits) + le32(row.pagerank_position) + le32(row.harmonic_position)
}

impl RankRow {
    /// Position of the domain under `metric`, if known.
    pub fn position(&self, metric: RankMetric) -> (p: Option<u32>)
        ensures
            p == spec_position(*self, metric),
    {
        let p = match metric {
            RankMetric::Pagerank => self.pagerank_position,
            RankMetric::Harmonic => self.harmonic_position,
        };
        if p > 0 { Some(p) } else { None }
    }

    /// Value bits of the domain under `metric`.
    pub fn value_bits(&self, metric: RankMetric) -> (b: u32)
        ensures
            b == match metric {
                RankMetric::Pagerank => self.pagerank_bits,
                RankMetric::Harmonic => self.harmonic_bits,
            },
    {
        match metric {
            RankMetric::Pagerank => self.pagerank_bits,
            RankMetric::Harmonic => self.harmonic_bits,
        }
    }

    /// The 16 stored bytes of the row.
    pub fn write_to(&self, out: &mut Vec<u8>)
        ensures
            final(out)@ == old(out)@ + row_bytes(*self),
    {
        put32(out, self.pagerank_bits);
        put32(out, self.harmonic_bits);
        put32(out, self.pagerank_position);
        put32(out, self.harmonic_position);
        assert(final(out)@ =~= old(out)@ + row_bytes(*self));
    }
}

/// Column layout of the ranks file, detected from its `#`-header.
#[derive(Debug, Clone, Copy, PartialEq, Eq, Structural)]
pub struct Columns {
    pub harmonic_position: usize,
    pub harmonic_value: usize,
    pub pagerank_position: usize,
    pub pagerank_value: usize,
    pub host_rev: usize,
}

/// Common Crawl's `join_ranks` output order.
pub open spec fn default_columns() -> Columns {
    Columns { harmonic_position: 0, harmonic_value: 1, pagerank_position: 2, pagerank_value: 3, host_rev: 4 }
}

impl Default for Columns {
    fn default() -> (c: Columns)
        ensures
            c == default_columns(),
    {
        Columns { harmonic_position: 0, harmonic_value: 1, pagerank_position: 2, pagerank_value: 3, host_rev: 4 }
    }
}

/// `s` with its leading `#` characters removed.
pub open spec fn strip_hashes(s: Seq<char>) -> Seq<char>
    decreases s.len(),
{
    if s.len() > 0 && s[0] == '#' { strip_hashes(s.drop_first()) } else { s }
}

/// `str::split('\t')`: the pieces between tabs (one more than there are tabs).
pub open spec fn split_tab_chars(s: Seq<char>) -> Seq<Seq<char>>
    decreases s.len(),
{
    if s.len() == 0 {
        seq![Seq::empty()]
    } else {
        let t = split_tab_chars(s.drop_last());
        if s.last() == '\t' {
            t.push(Seq::empty())
        } else {
            t.update(t.len() - 1, t.last().push(s.last()))
        }
    }
}

proof fn lemma_split_tab_len(s: Seq<char>)
    ensures
        split_tab_chars(s).len() >= 1,
    decreases s.len(),
{
    if s.len() > 0 {
        lemma_split_tab_len(s.drop_last());
    }
}

/// The column names of a header: split on tabs after its leading `#`s, each
/// trimmed, stripped of its own `#`s and lowered.
pub open spec fn header_names(header: Seq<char>) -> Seq<Seq<char>> {
    split_tab_chars(strip_hashes(header)).map_values(|c: Seq<char>| lower(strip_hashes(trim(c))))
}

/// The layout after column `i`, named `name`, is taken into account.
pub open spec fn apply_column(c: Columns, i: usize, name: Seq<char>) -> Columns {
    if name == "harmonicc_pos"@ || name == "harmonic_pos"@ {
        Columns { harmonic_position: i, ..c }
    } else if name == "harmonicc_val"@ || name == "harmonic_val"@ || name == "harmonic"@ {
        Columns { harmonic_value: i, ..c }
    } else if name == "pr_pos"@ || name == "pagerank_pos"@ {
        Columns { pagerank_position: i, ..c }
    } else if name == "pr_val"@ || name == "pagerank"@ || name == "pr"@ {
        Columns { pagerank_value: i, ..c }
    } else if name == "host_rev"@ || name == "domain_rev"@ || name == "rev_host"@ || name == "rev_domain"@ {
        Columns { host_rev: i, ..c }
    } else {
        c
    }
}

/// The layout `names` describe, later columns winning.
pub open spec fn columns_of(names: Seq<Seq<char>>) -> Columns
    decreases names.len(),
{
    if names.len() == 0 {
        default_columns()
    } else {
        apply_column(columns_of(names.drop_last()), (names.len() - 1) as usize, names.last())
    }
}

fn strip_hash_chars(v: &Vec<char>) -> (r: Vec<char>)
    ensures
        r@ == strip_hashes(v@),
{
    let mut i: usize = 0;
    assert(v@.subrange(0, v@.len() as int) =~= v@);
    while i < v.len() && v[i] == '#'
        invariant
            i <= v@.len(),
            strip_hashes(v@) == strip_hashes(v@.subrange(i as int, v@.len() as int)),
        decreases v.len() - i,
    {
        assert(v@.subrange(i as int, v@.len() as int).drop_first() =~= v@.subrange(i + 1, v@.len() as int));
        i = i + 1;
    }
    crate::text::slice_chars(v, i, v.len())
}

/// The normalised column names of a header line.
pub fn column_names(header: &str) -> (r: Vec<Vec<char>>)
    ensures
        r@.len() == header_names(header@).len(),
        forall|k: int| 0 <= k < r@.len() ==> (#[trigger] r@[k])@ == header_names(header@)[k],
{
    let s = strip_hash_chars(&chars_of(header));
    let ghost pieces_spec = split_tab_chars(s@);
    let mut pieces: Vec<Vec<char>> = Vec::new();
    pieces.push(Vec::new());
    let mut i: usize = 0;
    proof {
        assert(s@.subrange(0, 0) =~= Seq::<char>::empty());
    }
    while i < s.len()
        invariant
            i <= s@.len(),
            pieces@.len() == split_tab_chars(s@.subrange(0, i as int)).len(),
            pieces@.len() >= 1,
            forall|k: int| 0 <= k < pieces@.len() ==> (#[trigger] pieces@[k])@ == split_tab_chars(s@.subrange(0, i as int))[k],
        decreases s.len() - i,
    {
        let ghost pre = s@.subrange(0, i as int);
        let ghost nxt = s@.subrange(0, i + 1);
        assert(nxt.drop_last() =~= pre);
        assert(nxt.last() == s@[i as int]);
        let ghost before = pieces@;
        let ghost t = split_tab_chars(pre);
        if s[i] == '\t' {
            pieces.push(Vec::new());
            proof {
                assert(split_tab_chars(nxt) == t.push(Seq::<char>::empty()));
                assert forall|k: int| 0 <= k < pieces@.len() implies (#[trigger] pieces@[k])@ == split_tab_chars(nxt)[k] by {
                    if k < before.len() {
                        assert(pieces@[k] == before[k]);
                    }
                }
            }
        } else {
            let last = pieces.len() - 1;
            let mut piece = pieces.remove(last);
            piece.push(s[i]);
            pieces.push(piece);
            proof {
                lemma_split_tab_len(pre);
                assert(split_tab_chars(nxt) == t.update(t.len() - 1, t.last().push(s@[i as int])));
                assert forall|k: int| 0 <= k < pieces@.len() implies (#[trigger] pieces@[k])@ == split_tab_chars(nxt)[k] by {
                    if k < before.len() - 1 {
                        assert(pieces@[k] == before[k]);
                    }
                }
            }
        }
        i = i + 1;
    }
    assert(s@.subrange(0, i as int) =~= s@);
    let mut out: Vec<Vec<char>> = Vec::new();
    let mut k: usize = 0;
    while k < pieces.len()
        invariant
            k <= pieces@.len(),
            pieces@.len() == split_tab_chars(s@).len(),
            forall|j: int| 0 <= j < pieces@.len() ==> (#[trigger] pieces@[j])@ == split_tab_chars(s@)[j],
            s@ == strip_hashes(header@),
            out@.len() == k,
            forall|j: int| 0 <= j < k ==> (#[trigger] out@[j])@ == header_names(header@)[j],
        decreases pieces.len() - k,
    {
        let name = lower_chars(&strip_hash_chars(&trim_chars(&pieces[k])));
        out.push(name);
        k = k + 1;
    }
    out
}

fn name_is(name: &Vec<char>, literal: &str) -> (r: bool)
    ensures
        r == (name@ == literal@),
{
    same_chars(name, &chars_of(literal))
}

impl Columns {
    /// The layout a `#`-header line describes; unknown columns are ignored
    /// and columns it does not name keep their default place.
    pub fn from_header(header: &str) -> (c: Columns)
        ensures
            c == columns_of(header_names(header@)),
    {
        let names = column_names(header);
        let ghost hn = header_names(header@);
        let mut c = Columns::default();
        let mut i: usize = 0;
        proof {
            assert(hn.subrange(0, 0) =~= Seq::<Seq<char>>::empty());
        }
        while i < names.len()
            invariant
                i <= names@.len() == hn.len(),
                forall|k: int| 0 <= k < names@.len() ==> (#[trigger] names@[k])@ == hn[k],
                c == columns_of(hn.subrange(0, i as int)),
            decreases names.len() - i,
        {
            let name = &names[i];
            proof {
                assert(hn.subrange(0, i + 1).drop_last() =~= hn.subrange(0, i as int));
            }
            if name_is(name, "harmonicc_pos") || name_is(name, "harmonic_pos") {
                c.harmonic_position = i;
            } else if name_is(name, "harmonicc_val") || name_is(name, "harmonic_val") || name_is(name, "harmonic") {
                c.harmonic_value = i;
            } else if name_is(name, "pr_pos") || name_is(name, "pagerank_pos") {
                c.pagerank_position = i;
            } else if name_is(name, "pr_val") || name_is(name, "pagerank") || name_is(name, "pr") {
                c.pagerank_value = i;
            } else if name_is(name, "host_rev") || name_is(name, "domain_rev") || name_is(name, "rev_host")
                || name_is(name, "rev_domain") {
                c.host_rev = i;
            }
            i = i + 1;
        }
        assert(hn.subrange(0, i as int) =~= hn);
        c
    }

    pub open spec fn spec_max(&self) -> usize {
        let a = if self.harmonic_position > self.harmonic_value { self.harmonic_position } else { self.harmonic_value };
        let b = if a > self.pagerank_position { a } else { self.pagerank_position };
        let d = if b > self.pagerank_value { b } else { self.pagerank_value };
        if d > self.host_rev { d } else { self.host_rev }
    }

    /// The highest column index the layout uses.
    pub fn max(&self) -> (m: usize)
        ensures
            m == self.spec_max(),
            m >= self.harmonic_position && m >= self.harmonic_value && m >= self.pagerank_position
                && m >= self.pagerank_value && m >= self.host_rev,
    {
        let a = if self.harmonic_position > self.harmonic_value { self.harmonic_position } else { self.harmonic_value };
        let b = if a > self.pagerank_position { a } else { self.pagerank_position };
        let d = if b > self.pagerank_value { b } else { self.pagerank_value };
        if d > self.host_rev { d } else { self.host_rev }
    }
}

/// The three columns the streaming pass reads, after column `i` named `name`.
pub open spec fn apply_three(c: (usize, usize, usize), i: usize, name: Seq<char>) -> (usize, usize, usize) {
    if name == "harmonicc_val"@ || name == "harmonic_val"@ || name == "harmonic"@ {
        (i, c.1, c.2)
    } else if name == "pr_val"@ || name == "pagerank"@ || name == "pr"@ {
        (c.0, i, c.2)
    } else if name == "host_rev"@ || name == "domain_rev"@ || name == "rev_host"@ || name == "rev_domain"@ {
        (c.0, c.1, i)
    } else {
        c
    }
}

pub open spec fn three_of(names: Seq<Seq<char>>, start: (usize, usize, usize)) -> (usize, usize, usize)
    decreases names.len(),
{
    if names.len() == 0 {
        start
    } else {
        apply_three(three_of(names.drop_last(), start), (names.len() - 1) as usize, names.last())
    }
}

/// Harmonic value, PageRank value and host columns named by a `#`-header;
/// columns it does not name keep what they held.
pub fn parse_ranks_header(header: &str, harmonic_col: &mut usize, pagerank_col: &mut usize, host_col: &mut usize)
    ensures
        (*final(harmonic_col), *final(pagerank_col), *final(host_col))
            == three_of(header_names(header@), (*old(harmonic_col), *old(pagerank_col), *old(host_col))),
{
    let names = column_names(header);
    let ghost hn = header_names(header@);
    let ghost start = (*harmonic_col, *pagerank_col, *host_col);
    let mut i: usize = 0;
    proof {
        assert(hn.subrange(0, 0) =~= Seq::<Seq<char>>::empty());
    }
    while i < names.len()
        invariant
            i <= names@.len() == hn.len(),
            forall|k: int| 0 <= k < names@.len() ==> (#[trigger] names@[k])@ == hn[k],
            (*harmonic_col, *pagerank_col, *host_col) == three_of(hn.subrange(0, i as int), start),
        decreases names.len() - i,
    {
        let name = &names[i];
        proof {
            assert(hn.subrange(0, i + 1).drop_last() =~= hn.subrange(0, i as int));
        }
        if name_is(name, "harmonicc_val") || name_is(name, "harmonic_val") || name_is(name, "harmonic") {
            *harmonic_col = i;
        } else if name_is(name, "pr_val") || name_is(name, "pagerank") || name_is(name, "pr") {
            *pagerank_col = i;
        } else if name_is(name, "host_rev") || name_is(name, "domain_rev") || name_is(name, "rev_host")
            || name_is(name, "rev_domain") {
            *host_col = i;
        }
        i = i + 1;
    }
    assert(hn.subrange(0, i as int) =~= hn);
}

/// Field `i` of a line whose tabs sit at `ends`: from after tab `i - 1` to
/// tab `i` (or the end of the line).
pub open spec fn field_range(line_len: int, ends: Seq<usize>, i: int) -> (int, int) {
    let start = if i == 0 { 0 } else { ends[i - 1] + 1 };
    let stop = if i < ends.len() { ends[i] as int } else { line_len };
    (start, stop)
}

pub open spec fn field_of(line: Seq<u8>, ends: Seq<usize>, i: int) -> Seq<u8> {
    let (a, b) = field_range(line.len() as int, ends, i);
    line.subrange(a, b)
}

pub fn field_bytes<'a>(line: &'a [u8], ends: &Vec<usize>, i: usize) -> (r: &'a [u8])
    requires
        tab_positions(line@, ends@),
        i <= ends@.len(),
    ensures
        r@ == field_of(line@, ends@, i as int),
{
    let n = line.len();
    proof {
        if i > 0 {
            assert(ends@[i - 1] < n);
        }
    }
    let start: usize = if i == 0 { 0 } else { ends[i - 1] + 1 };
    let stop: usize = if i < ends.len() { ends[i] } else { n };
    proof {
        if i > 0 && i < ends@.len() {
            assert(ends@[i - 1] < ends@[i as int]);
        }
    }
    &line[start..stop]
}

/// The fields of a tab-separated line, zero-copy: as many as there are tabs
/// plus one.
pub fn split_tabs<'a>(line: &'a [u8]) -> (r: Vec<&'a [u8]>)
    ensures
        exists|ends: Seq<usize>| tab_positions(line@, ends) && r@.len() == ends.len() + 1
            && forall|k: int| 0 <= k < r@.len() ==> (#[trigger] r@[k])@ == field_of(line@, ends, k),
{
    let mut ends: Vec<usize> = Vec::new();
    tab_fields(line, &mut ends);
    let mut r: Vec<&'a [u8]> = Vec::new();
    let mut k: usize = 0;
    while k < ends.len()
        invariant
            k <= ends@.len(),
            r@.len() == k,
            tab_positions(line@, ends@),
            forall|q: int| 0 <= q < k ==> (#[trigger] r@[q])@ == field_of(line@, ends@, q),
        decreases ends.len() - k,
    {
        r.push(field_bytes(line, &ends, k));
        k = k + 1;
    }
    r.push(field_bytes(line, &ends, k));
    assert(tab_positions(line@, ends@) && r@.len() == ends@.len() + 1
        && forall|q: int| 0 <= q < r@.len() ==> (#[trigger] r@[q])@ == field_of(line@, ends@, q));
    r
}

/// The parts of one ranks row the join needs: the domain, both value
/// fields as text, and both positions (0 where they do not parse).
pub struct RankFields<'a> {
    pub name: &'a [u8],
    pub pagerank_text: &'a [u8],
    pub harmonic_text: &'a [u8],
    pub pagerank_position: u32,
    pub harmonic_position: u32,
}

/// A data line of the ranks file, read with the layout `c`.
pub open spec fn spec_rank_fields(line: Seq<u8>, c: Columns, ends: Seq<usize>) -> Option<(Seq<u8>, Seq<u8>, Seq<u8>, u32, u32)> {
    let name = field_of(line, ends, c.host_rev as int);
    if ends.len() < c.spec_max() || name.len() == 0 {
        None
    } else {
        Some((name, field_of(line, ends, c.pagerank_value as int), field_of(line, ends, c.harmonic_value as int),
            match spec_parse_u32(field_of(line, ends, c.pagerank_position as int)) { Some(v) => v, None => 0 },
            match spec_parse_u32(field_of(line, ends, c.harmonic_position as int)) { Some(v) => v, None => 0 }))
    }
}

/// Reads the ranks file line by line: the first `#` line is its header.
pub struct RankReader {
    pub columns: Columns,
    pub header_seen: bool,
}

impl RankReader {
    pub fn new() -> (r: RankReader)
        ensures
            r.columns == default_columns(),
            !r.header_seen,
    {
        RankReader { columns: Columns::default(), header_seen: false }
    }

    /// One line, already stripped of its line ending: a header (taken when
    /// it is the first `#` line and valid UTF-8), a blank or short line
    /// (nothing), or a row.
    pub fn read_line<'a>(&mut self, line: &'a [u8]) -> (r: Option<RankFields<'a>>)
        ensures
            line@.len() > 0 && line@[0] == 35 ==> r is None && final(self).header_seen
                && final(self).columns == (if !old(self).header_seen {
                    match crate::text::spec_utf8(line@) {
                        Some(text) => columns_of(header_names(text)),
                        None => old(self).columns,
                    }
                } else {
                    old(self).columns
                }),
            line@.len() == 0 ==> r is None && *final(self) == *old(self),
            line@.len() > 0 && line@[0] != 35 ==> *final(self) == *old(self) && (exists|ends: Seq<usize>| tab_positions(line@, ends)
                && match r {
                    Some(f) => spec_rank_fields(line@, old(self).columns, ends)
                        == Some((f.name@, f.pagerank_text@, f.harmonic_text@, f.pagerank_position, f.harmonic_position)),
                    None => spec_rank_fields(line@, old(self).columns, ends) is None,
                }),
    {
        if line.len() == 0 {
            return None;
        }
        if line[0] == 35u8 {
            if !self.header_seen {
                self.header_seen = true;
                match crate::text::utf8_text(line) {
                    Some(text) => {
                        self.columns = Columns::from_header(text);
                    },
                    None => {},
                }
            }
            return None;
        }
        let mut ends: Vec<usize> = Vec::new();
        tab_fields(line, &mut ends);
        let c = self.columns;
        let highest = c.max();
        if ends.len() < highest {
            return None;
        }
        let name = field_bytes(line, &ends, c.host_rev);
        if name.len() == 0 {
            return None;
        }
        let pagerank_position = match parse_u32(field_bytes(line, &ends, c.pagerank_position)) {
            Some(v) => v,
            None => 0,
        };
        let harmonic_position = match parse_u32(field_bytes(line, &ends, c.harmonic_position)) {
            Some(v) => v,
            None => 0,
        };
        Some(RankFields {
            name,
            pagerank_text: field_bytes(line, &ends, c.pagerank_value),
            harmonic_text: field_bytes(line, &ends, c.harmonic_value),
            pagerank_position,
            harmonic_position,
        })
    }
}

/// How many id-range partitions the join uses: 256 keeps each side's
/// working set around a hundred megabytes for the full graph.
pub const PARTITIONS: usize = 256;

/// How the join splits the vertex blocks into partitions.
#[derive(Clone, Copy, PartialEq, Eq, Structural)]
pub struct JoinPlan {
    pub blocks_per_partition: usize,
    pub partition_count: usize,
}

pub open spec fn div_ceil(a: int, b: int) -> int {
    (a + b - 1) / b
}

/// The partition plan for `block_count` vertex blocks.
pub fn plan_join(block_count: usize) -> (p: JoinPlan)
    ensures
        p.blocks_per_partition == (if div_ceil(block_count as int, 256) > 1 { div_ceil(block_count as int, 256) } else { 1 }),
        p.partition_count == div_ceil(block_count as int, p.blocks_per_partition as int),
        p.blocks_per_partition >= 1,
        block_count > 0 ==> p.partition_count > 0,
        p.partition_count as int * p.blocks_per_partition as int >= block_count,
{
    let q = block_count / 256;
    let c = if block_count % 256 == 0 { q } else { q + 1 };
    let bpp = if c > 1 { c } else { 1 };
    let q2 = block_count / bpp;
    proof {
        if block_count % bpp != 0 {
            assert(bpp >= 2);
            assert(q2 <= block_count / 2) by (nonlinear_arith)
                requires q2 == block_count / bpp, bpp >= 2;
        }
        if block_count > 0 {
            assert(q2 >= 1 || block_count % bpp != 0) by (nonlinear_arith)
                requires q2 == block_count / bpp, bpp >= 1, block_count > 0;
        }
    }
    let pc = if block_count % bpp == 0 { q2 } else { q2 + 1 };
    proof {
        let n = block_count as int;
        assert(c == div_ceil(n, 256)) by (nonlinear_arith)
            requires q == n / 256, c == (if n % 256 == 0 { q as int } else { q + 1 }), n >= 0;
        let b = bpp as int;
        assert(pc == div_ceil(n, b)) by (nonlinear_arith)
            requires b >= 1, q2 == n / b, pc == (if n % b == 0 { q2 as int } else { q2 + 1 }), n >= 0;
        assert(pc * b >= n) by (nonlinear_arith)
            requires b >= 1, q2 == n / b, pc == (if n % b == 0 { q2 as int } else { q2 + 1 }), n >= 0;
    }
    JoinPlan { blocks_per_partition: bpp, partition_count: pc }
}

/// The partition a row whose domain sits in `block` goes to.
pub fn partition_of(plan: JoinPlan, block: usize) -> (p: usize)
    requires
        plan.blocks_per_partition > 0,
        plan.partition_count > 0,
    ensures
        p == (if block as int / plan.blocks_per_partition as int > plan.partition_count - 1 {
            plan.partition_count - 1
        } else {
            block as int / plan.blocks_per_partition as int
        }),
        p < plan.partition_count,
{
    let q = block / plan.blocks_per_partition;
    if q > plan.partition_count - 1 { plan.partition_count - 1 } else { q }
}

/// Blocks `[first, last)` of partition `p` and the ids `[from_id, to_id)`
/// its slab covers.
pub fn partition_bounds(plan: JoinPlan, vertices: &VertexIndex, p: usize, node_capacity: u64) -> (r: (usize, usize, u64, u64))
    requires
        p < plan.partition_count,
        plan.blocks_per_partition >= 1,
        plan.partition_count * plan.blocks_per_partition <= usize::MAX,
        p * plan.blocks_per_partition < vertices.blocks@.len(),
    ensures
        r.0 == p * plan.blocks_per_partition,
        r.1 == (if (p + 1) * plan.blocks_per_partition < vertices.blocks@.len() {
            (p + 1) * plan.blocks_per_partition
        } else {
            vertices.blocks@.len() as int
        }),
        r.2 == vertices.blocks@[r.0 as int].first_id,
        r.3 == (if r.1 >= vertices.blocks@.len() { node_capacity } else { vertices.blocks@[r.1 as int].first_id as u64 }),
{
    assert((p + 1) * plan.blocks_per_partition <= plan.partition_count * plan.blocks_per_partition) by (nonlinear_arith)
        requires p < plan.partition_count, plan.blocks_per_partition >= 1;
    assert(p * plan.blocks_per_partition <= (p + 1) * plan.blocks_per_partition) by (nonlinear_arith)
        requires plan.blocks_per_partition >= 1;
    let first = p * plan.blocks_per_partition;
    let next = (p + 1) * plan.blocks_per_partition;
    let n = vertices.block_count();
    let last = if next < n { next } else { n };
    let from_id = vertices.block_first_id(first) as u64;
    let to_id = if last >= n { node_capacity } else { vertices.block_first_id(last) as u64 };
    (first, last, from_id, to_id)
}

/// `rows` empty rows of the ranks index.
pub fn zero_rows(rows: u64) -> (z: Vec<u8>)
    requires
        16 * rows <= usize::MAX,
    ensures
        z@ == Seq::new((16 * rows) as nat, |i: int| 0u8),
{
    let n = (16 * rows) as usize;
    let mut z: Vec<u8> = Vec::new();
    let mut i: usize = 0;
    while i < n
        invariant
            i <= n,
            z@ == Seq::new(i as nat, |k: int| 0u8),
        decreases n - i,
    {
        z.push(0u8);
        assert(z@ =~= Seq::new((i + 1) as nat, |k: int| 0u8));
        i = i + 1;
    }
    z
}

/// Why the ranks join failed.
#[derive(Debug, Clone, Copy, PartialEq, Eq, Structural)]
pub enum RankJoinError {
    /// Names cannot be placed in blocks of an unsorted vertices file.
    NotSortedByName,
    /// The ranks file holds no row with a domain.
    NoRows,
    /// No domain of the ranks file is in the vertices file.
    NoMatches,
}

/// The join may start only on a vertices file sorted by name.
pub fn check_join_input(vertices: &VertexIndex) -> (r: Result<(), RankJoinError>)
    ensures
        r is Ok <==> vertices.sorted_by_name,
        r matches Err(e) ==> e == RankJoinError::NotSortedByName,
{
    if !vertices.sorted_by_name { Err(RankJoinError::NotSortedByName) } else { Ok(()) }
}

/// The outcome of a join that read `rows` rows and placed `matched`.
pub fn join_outcome(rows: u64, matched: u64) -> (r: Result<u64, RankJoinError>)
    ensures
        rows == 0 ==> r == Err::<u64, RankJoinError>(RankJoinError::NoRows),
        rows > 0 && matched == 0 ==> r == Err::<u64, RankJoinError>(RankJoinError::NoMatches),
        rows > 0 && matched > 0 ==> r == Ok::<u64, RankJoinError>(matched),
{
    if rows == 0 {
        Err(RankJoinError::NoRows)
    } else if matched == 0 {
        Err(RankJoinError::NoMatches)
    } else {
        Ok(matched)
    }
}

/// One partition record: name length (at most 255), the name cut to it,
/// then the 16 bytes of the row.
pub open spec fn spec_rank_record(name: Seq<u8>, row: RankRow) -> Seq<u8> {
    let n = if name.len() < 255 { name.len() as int } else { 255 };
    seq![n as u8] + name.subrange(0, n) + row_bytes(row)
}

pub fn rank_record(name: &[u8], row: &RankRow) -> (r: Vec<u8>)
    ensures
        r@ == spec_rank_record(name@, *row),
{
    let n: usize = if name.len() < 255 { name.len() } else { 255 };
    let mut r: Vec<u8> = Vec::new();
    r.push(n as u8);
    crate::binary::put_bytes(&mut r, &name[0..n]);
    row.write_to(&mut r);
    assert(r@ =~= spec_rank_record(name@, *row));
    r
}

/// The records of a partition file read from byte `at` on; a record cut
/// short ends the list.
pub open spec fn partition_entries(b: Seq<u8>, at: int) -> Seq<(Seq<u8>, Seq<u8>)>
    decreases b.len() - at,
{
    if at < 0 || at >= b.len() {
        Seq::empty()
    } else {
        let name_start = at + 1;
        let value_start = name_start + b[at] as int;
        if value_start + 16 > b.len() {
            Seq::empty()
        } else {
            seq![(b.subrange(name_start, value_start), b.subrange(value_start, value_start + 16))]
                + partition_entries(b, value_start + 16)
        }
    }
}

/// The id a partition record's name resolves to through `names`.
pub open spec fn resolve_name(names: Map<Seq<char>, u32>, name: Seq<u8>) -> Option<u32> {
    match crate::text::spec_utf8(name) {
        Some(text) => if names.dom().contains(text) { Some(names[text]) } else { None },
        None => None,
    }
}

/// `slab` with the 16 bytes at row `slot` replaced by `value`.
pub open spec fn put_row(slab: Seq<u8>, slot: int, value: Seq<u8>) -> Seq<u8> {
    slab.subrange(0, 16 * slot) + value + slab.subrange(16 * slot + 16, slab.len() as int)
}

/// The rows of ids `[from_id, from_id + span)` after the records `es` are
/// placed, and how many were placed.
pub open spec fn fill_rows(es: Seq<(Seq<u8>, Seq<u8>)>, names: Map<Seq<char>, u32>, from_id: int, span: int) -> (Seq<u8>, int)
    decreases es.len(),
{
    if es.len() == 0 {
        (Seq::new((16 * span) as nat, |i: int| 0u8), 0)
    } else {
        let (slab, matched) = fill_rows(es.drop_last(), names, from_id, span);
        let (name, value) = es.last();
        match resolve_name(names, name) {
            Some(id) => {
                let slot = if id >= from_id { id - from_id } else { 0 };
                if slot < span { (put_row(slab, slot, value), matched + 1) } else { (slab, matched) }
            },
            None => (slab, matched),
        }
    }
}

/// Place the rows of one partition file into the rank slab of ids
/// `[from_id, from_id + span)`, each row at its domain's id.
#[verifier::rlimit(60)]
pub fn fill_slab(bucket: &[u8], names: &AHashMap<String, u32, RandomState>, from_id: u64, span: usize) -> (r: (Vec<u8>, u64))
    requires
        16 * span <= usize::MAX,
    ensures
        (r.0@, r.1 as int) == fill_rows(partition_entries(bucket@, 0), name_map_contents(*names), from_id as int, span as int),
{
    let mut slab: Vec<u8> = Vec::new();
    let mut z: usize = 0;
    while z < 16 * span
        invariant
            z <= 16 * span <= usize::MAX,
            slab@ == Seq::new(z as nat, |i: int| 0u8),
        decreases 16 * span - z,
    {
        slab.push(0u8);
        assert(slab@ =~= Seq::new((z + 1) as nat, |i: int| 0u8));
        z = z + 1;
    }
    let n = bucket.len();
    let mut matched: u64 = 0;
    let mut at: usize = 0;
    let mut stop = false;
    let ghost m = name_map_contents(*names);
    let ghost done: Seq<(Seq<u8>, Seq<u8>)> = Seq::empty();
    proof {
        assert(partition_entries(bucket@, 0) =~= done + partition_entries(bucket@, 0));
    }
    while at < n && !stop
        invariant
            at <= n == bucket@.len(),
            m == name_map_contents(*names),
            partition_entries(bucket@, 0) == done + partition_entries(bucket@, at as int),
            stop ==> partition_entries(bucket@, at as int) == Seq::<(Seq<u8>, Seq<u8>)>::empty(),
            (slab@, matched as int) == fill_rows(done, m, from_id as int, span as int),
            slab@.len() == 16 * span,
            16 * span <= usize::MAX,
            matched <= done.len(),
            done.len() <= at,
        decreases n - at, if stop { 0int } else { 1int },
    {
        let len = bucket[at] as usize;
        let name_start = at + 1;
        if len + 16 > n - name_start {
            stop = true;
            continue;
        }
        let value_start = name_start + len;
        let name = &bucket[name_start..value_start];
        let ghost entry = (bucket@.subrange(name_start as int, value_start as int), bucket@.subrange(value_start as int, value_start + 16));
        let ghost nd = done.push(entry);
        proof {
            assert(partition_entries(bucket@, at as int) == seq![entry] + partition_entries(bucket@, value_start + 16));
            assert(done + (seq![entry] + partition_entries(bucket@, value_start + 16)) =~= nd + partition_entries(bucket@, value_start + 16));
            assert(nd.drop_last() =~= done);
        }
        let id = match crate::text::utf8_text(name) {
            Some(text) => name_map_get(names, text),
            None => None,
        };
        match id {
            Some(id) => {
                let slot: u64 = if id as u64 >= from_id { id as u64 - from_id } else { 0 };
                if slot < span as u64 {
                    let sl = slot as usize;
                    assert(16 * sl + 16 <= 16 * span) by (nonlinear_arith)
                        requires sl < span;
                    let base = 16 * sl;
                    let ghost before = slab@;
                    let mut k: usize = 0;
                    while k < 16
                        invariant
                            k <= 16,
                            base + 16 <= slab@.len() == before.len(),
                            slab@.len() <= usize::MAX,
                            value_start + 16 <= n == bucket@.len(),
                            slab@ == before.subrange(0, base as int) + bucket@.subrange(value_start as int, value_start + k)
                                + before.subrange(base + k, before.len() as int),
                        decreases 16 - k,
                    {
                        slab.set(base + k, bucket[value_start + k]);
                        assert(slab@ =~= before.subrange(0, base as int) + bucket@.subrange(value_start as int, value_start + k + 1)
                            + before.subrange(base + k + 1, before.len() as int));
                        k = k + 1;
                    }
                    matched = matched + 1;
                }
            },
            None => {},
        }
        proof {
            done = nd;
        }
        at = value_start + 16;
    }
    proof {
        assert(partition_entries(bucket@, at as int) =~= Seq::<(Seq<u8>, Seq<u8>)>::empty());
        assert(done + Seq::<(Seq<u8>, Seq<u8>)>::empty() =~= done);
    }
    (slab, matched)
}

/// The 64-byte header of `ranks.bin` for `node_capacity` rows.
pub open spec fn spec_ranks_header(node_capacity: u64) -> Seq<u8> {
    seq![87u8, 82u8, 82u8, 75u8] + le32(1) + le64(node_capacity) + Seq::new(48, |i: int| 0u8)
}

pub fn ranks_header(node_capacity: u64) -> (h: Vec<u8>)
    ensures
        h@ == spec_ranks_header(node_capacity),
{
    let mut h: Vec<u8> = Vec::new();
    h.push(87u8);
    h.push(82u8);
    h.push(82u8);
    h.push(75u8);
    put32(&mut h, 1);
    put64(&mut h, node_capacity);
    let ghost head = h@;
    let mut z: usize = 0;
    while z < 48
        invariant
            z <= 48,
            h@ == head + Seq::new(z as nat, |i: int| 0u8),
        decreases 48 - z,
    {
        h.push(0u8);
        assert(h@ =~= head + Seq::new((z + 1) as nat, |i: int| 0u8));
        z = z + 1;
    }
    h
}

/// Why `ranks.bin` could not be opened.
#[derive(Debug, Clone, Copy, PartialEq, Eq, Structural)]
pub enum RanksOpenError {
    NotAnIndex,
    Version(u32),
    /// Holds `actual` bytes where the header promises `expected`.
    Truncated { actual: u64, expected: u128 },
}

/// The memory-mapped `ranks.bin`, by its header.
#[derive(Clone, Copy, PartialEq, Eq, Structural)]
pub struct RankIndex {
    pub node_capacity: u64,
}

impl RankIndex {
    pub open spec fn spec_open(raw: Seq<u8>) -> Result<RankIndex, RanksOpenError> {
        let cap = read64(raw, 8);
        if raw.len() < 64 || raw.subrange(0, 4) != seq![87u8, 82u8, 82u8, 75u8] {
            Err(RanksOpenError::NotAnIndex)
        } else if read32(raw, 4) != 1 {
            Err(RanksOpenError::Version(read32(raw, 4)))
        } else if raw.len() < 64 + cap * 16 {
            Err(RanksOpenError::Truncated { actual: raw.len() as u64, expected: (64 + cap * 16) as u128 })
        } else {
            Ok(RankIndex { node_capacity: cap })
        }
    }

    /// Check the header of `ranks.bin` against its length.
    pub fn open(raw: &[u8]) -> (r: Result<RankIndex, RanksOpenError>)
        ensures
            r == Self::spec_open(raw@),
    {
        let n = raw.len();
        if n < 64 || !(raw[0] == 87u8 && raw[1] == 82u8 && raw[2] == 82u8 && raw[3] == 75u8) {
            proof {
                if n >= 64 && raw@.subrange(0, 4) == seq![87u8, 82u8, 82u8, 75u8] {
                    assert(raw@.subrange(0, 4)[0] == raw@[0]);
                    assert(raw@.subrange(0, 4)[1] == raw@[1]);
                    assert(raw@.subrange(0, 4)[2] == raw@[2]);
                    assert(raw@.subrange(0, 4)[3] == raw@[3]);
                }
            }
            return Err(RanksOpenError::NotAnIndex);
        }
        assert(raw@.subrange(0, 4) =~= seq![87u8, 82u8, 82u8, 75u8]);
        let format = get32(raw, 4);
        if format != 1 {
            return Err(RanksOpenError::Version(format));
        }
        let cap = get64(raw, 8);
        if (n as u128) < 64 + cap as u128 * 16 {
            return Err(RanksOpenError::Truncated { actual: n as u64, expected: 64 + cap as u128 * 16 });
        }
        Ok(RankIndex { node_capacity: cap })
    }

    pub open spec fn spec_get(&self, raw: Seq<u8>, id: u32) -> Option<RankRow> {
        let at = 64 + 16 * id;
        if id >= self.node_capacity {
            None
        } else {
            Some(RankRow {
                pagerank_bits: read32(raw, at),
                harmonic_bits: read32(raw, at + 4),
                pagerank_position: read32(raw, at + 8),
                harmonic_position: read32(raw, at + 12),
            })
        }
    }

    /// The row of node `id`, if the index covers it.
    pub fn get(&self, raw: &[u8], id: u32) -> (r: Option<RankRow>)
        requires
            raw@.len() >= 64 + 16 * self.node_capacity,
        ensures
            r == self.spec_get(raw@, id),
    {
        if id as u64 >= self.node_capacity {
            return None;
        }
        let n = raw.len();
        assert(64 + 16 * id + 16 <= n) by (nonlinear_arith)
            requires n >= 64 + 16 * self.node_capacity, id < self.node_capacity;
        let at = 64 + 16 * (id as usize);
        Some(RankRow {
            pagerank_bits: get32(raw, at),
            harmonic_bits: get32(raw, at + 4),
            pagerank_position: get32(raw, at + 8),
            harmonic_position: get32(raw, at + 12),
        })
    }
}


// ---------------------------------------------------------------------------
// Assembling `ranks.bin` slab by slab, and what a lookup reads back
// ---------------------------------------------------------------------------

/// The 16 row bytes of id `id` in the rows that follow the header.
pub open spec fn row_at(rows: Seq<u8>, id: int) -> Seq<u8> {
    rows.subrange(16 * id, 16 * id + 16)
}

/// The row that 16 stored bytes hold.
pub open spec fn row_of_bytes(b: Seq<u8>) -> RankRow {
    RankRow { pagerank_bits: read32(b, 0), harmonic_bits: read32(b, 4), pagerank_position: read32(b, 8),
        harmonic_position: read32(b, 12) }
}

/// The rows appended for one partition after the rows of the ids below
/// `next_id`: empty rows up to the partition's first id, then its slab.
pub open spec fn spec_slab_bytes(next_id: u64, from_id: u64, slab: Seq<u8>) -> Seq<u8> {
    (if from_id > next_id { Seq::new((16 * (from_id - next_id)) as nat, |i: int| 0u8) } else { Seq::empty() }) + slab
}

/// One step of writing `ranks.bin`: the bytes to append for the partition
/// whose ids run from `from_id` to `to_id` and whose rows are `slab`, after
/// the ids below `next_id`, and the next id.
pub fn slab_step(next_id: u64, from_id: u64, to_id: u64, slab: Vec<u8>) -> (r: (Vec<u8>, u64))
    requires
        from_id > next_id ==> 16 * (from_id - next_id) + slab@.len() <= usize::MAX,
    ensures
        r.0@ == spec_slab_bytes(next_id, from_id, slab@),
        r.1 == to_id,
{
    let mut out: Vec<u8> = if from_id > next_id { zero_rows(from_id - next_id) } else { Vec::new() };
    let ghost pad = out@;
    let mut i: usize = 0;
    while i < slab.len()
        invariant
            i <= slab@.len(),
            out@ == pad + slab@.subrange(0, i as int),
        decreases slab.len() - i,
    {
        out.push(slab[i]);
        assert(out@ =~= pad + slab@.subrange(0, i + 1));
        i = i + 1;
    }
    assert(slab@.subrange(0, i as int) =~= slab@);
    assert(out@ =~= spec_slab_bytes(next_id, from_id, slab@));
    (out, to_id)
}

/// Appending a partition's padding and slab keeps every earlier row, gives
/// the ids before the partition empty rows and the partition's ids the rows
/// of its slab.
pub proof fn lemma_slab_step(rows: Seq<u8>, next_id: u64, from_id: u64, to_id: u64, slab: Seq<u8>, id: int)
    requires
        rows.len() == 16 * next_id,
        next_id <= from_id <= to_id,
        slab.len() == 16 * (to_id - from_id),
        0 <= id < to_id,
    ensures
        (rows + spec_slab_bytes(next_id, from_id, slab)).len() == 16 * to_id,
        row_at(rows + spec_slab_bytes(next_id, from_id, slab), id) == (if id < next_id {
            row_at(rows, id)
        } else if id < from_id {
            Seq::new(16, |i: int| 0u8)
        } else {
            row_at(slab, id - from_id)
        }),
{
    let pad: Seq<u8> = if from_id > next_id { Seq::new((16 * (from_id - next_id)) as nat, |i: int| 0u8) } else { Seq::empty() };
    let all = rows + spec_slab_bytes(next_id, from_id, slab);
    assert(pad.len() == 16 * (from_id - next_id));
    assert(all =~= rows + pad + slab);
    assert(16 * id + 16 <= 16 * to_id);
    if id < next_id {
        assert(row_at(all, id) =~= row_at(rows, id));
    } else if id < from_id {
        assert(row_at(all, id) =~= Seq::new(16, |i: int| 0u8));
    } else {
        assert(row_at(all, id) =~= row_at(slab, id - from_id));
    }
}

/// The value a slab holds at `slot`: that of the last record whose name
/// resolves there, or an empty row.
pub open spec fn slot_value(es: Seq<(Seq<u8>, Seq<u8>)>, names: Map<Seq<char>, u32>, from_id: int, span: int, slot: int) -> Seq<u8>
    decreases es.len(),
{
    if es.len() == 0 {
        Seq::new(16, |i: int| 0u8)
    } else {
        let (name, value) = es.last();
        match resolve_name(names, name) {
            Some(id) => {
                let s = if id >= from_id { id - from_id } else { 0 };
                if s == slot && s < span { value } else { slot_value(es.drop_last(), names, from_id, span, slot) }
            },
            None => slot_value(es.drop_last(), names, from_id, span, slot),
        }
    }
}

/// Each slot of a filled slab holds the value of the last record whose
/// name resolves to it, or an empty row.
pub proof fn lemma_fill_rows_at(es: Seq<(Seq<u8>, Seq<u8>)>, names: Map<Seq<char>, u32>, from_id: int, span: int, slot: int)
    requires
        0 <= slot < span,
        forall|k: int| 0 <= k < es.len() ==> (#[trigger] es[k]).1.len() == 16,
    ensures
        fill_rows(es, names, from_id, span).0.len() == 16 * span,
        row_at(fill_rows(es, names, from_id, span).0, slot) == slot_value(es, names, from_id, span, slot),
    decreases es.len(),
{
    if es.len() == 0 {
        assert(row_at(Seq::new((16 * span) as nat, |i: int| 0u8), slot) =~= Seq::new(16, |i: int| 0u8));
    } else {
        let d = es.drop_last();
        assert forall|k: int| 0 <= k < d.len() implies (#[trigger] d[k]).1.len() == 16 by {
            assert(d[k] == es[k]);
        }
        lemma_fill_rows_at(d, names, from_id, span, slot);
        let slab = fill_rows(d, names, from_id, span).0;
        let (name, value) = es.last();
        assert(value.len() == 16);
        match resolve_name(names, name) {
            Some(id) => {
                let s = if id >= from_id { id - from_id } else { 0 };
                if s < span {
                    let put = put_row(slab, s, value);
                    assert(put.len() == 16 * span);
                    if s == slot {
                        assert(row_at(put, slot) =~= value);
                    } else {
                        assert(row_at(put, slot) =~= row_at(slab, slot)) by {
                            if s < slot {
                                assert(16 * s + 16 <= 16 * slot);
                            } else {
                                assert(16 * slot + 16 <= 16 * s);
                            }
                        }
                    }
                }
            },
            None => {},
        }
    }
}

/// Every record read from a partition file carries a whole 16-byte row.
pub proof fn lemma_partition_values(b: Seq<u8>, at: int)
    ensures
        forall|k: int| 0 <= k < partition_entries(b, at).len() ==> (#[trigger] partition_entries(b, at)[k]).1.len() == 16,
    decreases b.len() - at,
{
    if 0 <= at < b.len() {
        let value_start = at + 1 + b[at] as int;
        if value_start + 16 <= b.len() {
            lemma_partition_values(b, value_start + 16);
            let rest = partition_entries(b, value_start + 16);
            let head = (b.subrange(at + 1, value_start), b.subrange(value_start, value_start + 16));
            assert(partition_entries(b, at) == seq![head] + rest);
            assert forall|k: int| 0 <= k < partition_entries(b, at).len() implies
                (#[trigger] partition_entries(b, at)[k]).1.len() == 16 by {
                if k > 0 {
                    assert(partition_entries(b, at)[k] == rest[k - 1]);
                }
            }
        }
    }
}

/// What a lookup reads back of `ranks.bin`: the header and rows for
/// `node_capacity` ids open as an index of that capacity, and `get(id)`
/// gives the row stored for `id`.
pub proof fn lemma_rank_file(rows: Seq<u8>, node_capacity: u64, id: u32)
    requires
        rows.len() == 16 * node_capacity,
    ensures
        RankIndex::spec_open(spec_ranks_header(node_capacity) + rows)
            == Ok::<RankIndex, RanksOpenError>(RankIndex { node_capacity }),
        (RankIndex { node_capacity }).spec_get(spec_ranks_header(node_capacity) + rows, id)
            == (if id < node_capacity { Some(row_of_bytes(row_at(rows, id as int))) } else { None }),
{
    lemma_le_round_trips();
    let head = spec_ranks_header(node_capacity);
    let file = head + rows;
    assert(head.len() == 64);
    assert(file.subrange(0, 4) =~= seq![87u8, 82u8, 82u8, 75u8]);
    assert(file.subrange(4, 8) =~= le32(1));
    assert(file.subrange(8, 16) =~= le64(node_capacity));
    if id < node_capacity {
        let r = row_at(rows, id as int);
        let at = 64 + 16 * id;
        assert(file.subrange(at, at + 4) =~= r.subrange(0, 4));
        assert(file.subrange(at + 4, at + 8) =~= r.subrange(4, 8));
        assert(file.subrange(at + 8, at + 12) =~= r.subrange(8, 12));
        assert(file.subrange(at + 12, at + 16) =~= r.subrange(12, 16));
    }
}

/// A stored row reads back as the row written.
pub proof fn lemma_row_round_trip(row: RankRow)
    ensures
        row_of_bytes(row_bytes(row)) == row,
{
    lemma_le_round_trips();
    let b = row_bytes(row);
    assert(b.subrange(0, 4) =~= le32(row.pagerank_bits));
    assert(b.subrange(4, 8) =~= le32(row.harmonic_bits));
    assert(b.subrange(8, 12) =~= le32(row.pagerank_position));
    assert(b.subrange(12, 16) =~= le32(row.harmonic_position));
}

} // verus!
