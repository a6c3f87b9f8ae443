//! Sparse block index over `*-domain-vertices.txt`.
//!
//! The file is `id \t reverse_domain \t n_hosts`, sorted by `reverse_domain`,
//! with `id` equal to the line number. The index keeps one entry per
//! [`BLOCK_LINES`] lines (offset, id and name of the block's first line), so
//! a lookup is one binary search in memory plus one short read of the file.
//! The build verifies both orderings instead of assuming them.

use vstd::prelude::*;
use crate::binary::{le16, le32, le64, read16, read32, read64, put16, put32, put64, put_bytes, get16, get32, get64, lemma_le_round_trips};
use crate::text::{chars_of, string_of};
use crate::seen::{id_set_new, id_set_insert, id_set_contains, id_set_contents, name_map_new, name_map_insert, name_map_contents};
use ahash::AHashMap;
use ahash::{AHashSet, RandomState};
use crate::number::{append_str, append_chars, decimal_chars, decimal};
use crate::lines::{
    split_lines, next_line_end, trim_eol, spec_trim_eol, parse_vertex_line, spec_parse_vertex_line,
};

verus! {

/// Lines per block: 256 keeps a block at ~7 KB.
pub const BLOCK_LINES: u64 = 256;

/// A vertices line that holds a record: not blank, not a `#` comment, and
/// parsing as `id \t name`.
pub open spec fn line_record(line: Seq<u8>) -> Option<(u32, Seq<u8>)> {
    let t = spec_trim_eol(line);
    if t.len() == 0 || t[0] == 35 { None } else { spec_parse_vertex_line(t) }
}

/// Every record of `lines`, with the file offset its line starts at; the
/// first line starts at `off`.
#[verifier::opaque]
pub open spec fn vertex_records(lines: Seq<Seq<u8>>, off: int) -> Seq<(int, u32, Seq<u8>)>
    decreases lines.len(),
{
    if lines.len() == 0 {
        Seq::empty()
    } else {
        let rest = vertex_records(lines.drop_first(), off + lines[0].len());
        match line_record(lines[0]) {
            Some((id, name)) => seq![(off, id, name)] + rest,
            None => rest,
        }
    }
}

/// Byte-wise lexicographic `a <= b`, as slices compare.
pub open spec fn lex_le(a: Seq<u8>, b: Seq<u8>) -> bool
    decreases a.len(),
{
    if a.len() == 0 {
        true
    } else if b.len() == 0 {
        false
    } else if a[0] < b[0] {
        true
    } else if a[0] > b[0] {
        false
    } else {
        lex_le(a.drop_first(), b.drop_first())
    }
}

pub fn lex_le_exec(a: &[u8], b: &[u8]) -> (r: bool)
    ensures
        r == lex_le(a@, b@),
{
    let mut i: usize = 0;
    proof {
        lemma_lex_le_init(a@, b@);
    }
    while i < a.len() && i < b.len() && a[i] == b[i]
        invariant
            i <= a@.len(),
            i <= b@.len(),
            lex_le(a@, b@) == lex_le(a@.subrange(i as int, a@.len() as int), b@.subrange(i as int, b@.len() as int)),
        decreases a.len() - i,
    {
        proof {
            let x = a@.subrange(i as int, a@.len() as int);
            let y = b@.subrange(i as int, b@.len() as int);
            assert(x.drop_first() =~= a@.subrange(i + 1, a@.len() as int));
            assert(y.drop_first() =~= b@.subrange(i + 1, b@.len() as int));
        }
        i = i + 1;
    }
    proof {
        let x = a@.subrange(i as int, a@.len() as int);
        let y = b@.subrange(i as int, b@.len() as int);
        if i < a.len() && i < b.len() {
            assert(x[0] == a@[i as int] && y[0] == b@[i as int]);
        }
    }
    if i == a.len() {
        true
    } else if i == b.len() {
        false
    } else {
        a[i] < b[i]
    }
}

proof fn lemma_lex_le_init(a: Seq<u8>, b: Seq<u8>)
    ensures
        lex_le(a, b) == lex_le(a.subrange(0, a.len() as int), b.subrange(0, b.len() as int)),
{
    assert(a.subrange(0, a.len() as int) =~= a);
    assert(b.subrange(0, b.len() as int) =~= b);
}

/// One entry of the block index.
#[derive(Clone, Copy, PartialEq, Eq, Structural)]
pub struct BlockEntry {
    /// File offset of the block's first line.
    pub offset: u64,
    /// Id on the block's first line.
    pub first_id: u32,
    /// Where the block's first name starts in the name pool.
    pub name_start: u32,
    /// Length of that name (names longer than 65 535 bytes are cut).
    pub name_len: u16,
}

pub open spec fn cut_len(n: int) -> int {
    if n < 65535 { n } else { 65535 }
}

/// The name pool: the (cut) first name of every block, back to back.
pub open spec fn block_names(rs: Seq<(int, u32, Seq<u8>)>) -> Seq<u8>
    decreases rs.len(),
{
    if rs.len() == 0 {
        Seq::empty()
    } else if (rs.len() - 1) % 256 == 0 {
        block_names(rs.drop_last()) + rs.last().2.subrange(0, cut_len(rs.last().2.len() as int))
    } else {
        block_names(rs.drop_last())
    }
}

/// One entry for every 256th record, starting with the first.
pub open spec fn block_entries(rs: Seq<(int, u32, Seq<u8>)>) -> Seq<BlockEntry>
    decreases rs.len(),
{
    if rs.len() == 0 {
        Seq::empty()
    } else if (rs.len() - 1) % 256 == 0 {
        block_entries(rs.drop_last()).push(BlockEntry {
            offset: rs.last().0 as u64,
            first_id: rs.last().1,
            name_start: (block_names(rs.drop_last()).len() % 0x1_0000_0000) as u32,
            name_len: cut_len(rs.last().2.len() as int) as u16,
        })
    } else {
        block_entries(rs.drop_last())
    }
}

pub open spec fn max_id(rs: Seq<(int, u32, Seq<u8>)>) -> u32
    decreases rs.len(),
{
    if rs.len() == 0 {
        0
    } else {
        let m = max_id(rs.drop_last());
        if rs.last().1 > m { rs.last().1 } else { m }
    }
}

/// Every name is strictly greater than the one before it.
pub open spec fn names_increasing(rs: Seq<(int, u32, Seq<u8>)>) -> bool {
    forall|k: int| 0 < k < rs.len() ==> !lex_le(#[trigger] rs[k].2, rs[k - 1].2)
}

/// Every id is strictly greater than the one before it.
pub open spec fn ids_increasing(rs: Seq<(int, u32, Seq<u8>)>) -> bool {
    forall|k: int| 0 < k < rs.len() ==> #[trigger] rs[k].1 > rs[k - 1].1
}

proof fn lemma_names_push(rs: Seq<(int, u32, Seq<u8>)>, off: int, id: u32, name: Seq<u8>)
    ensures
        names_increasing(rs.push((off, id, name))) == (names_increasing(rs) && (rs.len() > 0 ==> !lex_le(name, rs.last().2))),
{
    let nrs = rs.push((off, id, name));
    if names_increasing(nrs) {
        assert forall|k: int| 0 < k < rs.len() implies !lex_le(#[trigger] rs[k].2, rs[k - 1].2) by {
            assert(nrs[k] == rs[k] && nrs[k - 1] == rs[k - 1]);
        }
        if rs.len() > 0 {
            assert(nrs[rs.len() as int].2 == name);
            assert(nrs[rs.len() - 1] == rs.last());
        }
    }
    if names_increasing(rs) && (rs.len() > 0 ==> !lex_le(name, rs.last().2)) {
        assert forall|k: int| 0 < k < nrs.len() implies !lex_le(#[trigger] nrs[k].2, nrs[k - 1].2) by {
            if k < rs.len() {
                assert(nrs[k] == rs[k] && nrs[k - 1] == rs[k - 1]);
            } else {
                assert(nrs[k - 1] == rs.last());
            }
        }
    }
}

proof fn lemma_ids_push(rs: Seq<(int, u32, Seq<u8>)>, off: int, id: u32, name: Seq<u8>)
    ensures
        ids_increasing(rs.push((off, id, name))) == (ids_increasing(rs) && (rs.len() > 0 ==> id > rs.last().1)),
        max_id(rs.push((off, id, name))) == (if id > max_id(rs) { id } else { max_id(rs) }),
{
    let nrs = rs.push((off, id, name));
    assert(nrs.drop_last() =~= rs);
    if ids_increasing(nrs) {
        assert forall|k: int| 0 < k < rs.len() implies #[trigger] rs[k].1 > rs[k - 1].1 by {
            assert(nrs[k] == rs[k] && nrs[k - 1] == rs[k - 1]);
        }
        if rs.len() > 0 {
            assert(nrs[rs.len() as int].1 == id);
            assert(nrs[rs.len() - 1] == rs.last());
        }
    }
    if ids_increasing(rs) && (rs.len() > 0 ==> id > rs.last().1) {
        assert forall|k: int| 0 < k < nrs.len() implies #[trigger] nrs[k].1 > nrs[k - 1].1 by {
            if k < rs.len() {
                assert(nrs[k] == rs[k] && nrs[k - 1] == rs[k - 1]);
            } else {
                assert(nrs[k - 1] == rs.last());
            }
        }
    }
}

proof fn lemma_records_step(lines: Seq<Seq<u8>>, off: int)
    requires
        lines.len() > 0,
    ensures
        vertex_records(lines, off) == (match line_record(lines[0]) {
            Some((id, name)) => seq![(off, id, name)],
            None => Seq::empty(),
        }) + vertex_records(lines.drop_first(), off + lines[0].len()),
{
    reveal(vertex_records);
    let rest = vertex_records(lines.drop_first(), off + lines[0].len());
    match line_record(lines[0]) {
        Some((id, name)) => {},
        None => {
            assert(Seq::<(int, u32, Seq<u8>)>::empty() + rest =~= rest);
        },
    }
}

/// What the single vertices pass learned about the file.
#[derive(Clone, Copy)]
pub struct VerticesSummary {
    pub node_count: u64,
    pub sorted_by_name: bool,
    pub sorted_by_id: bool,
    pub max_id: u32,
}

/// The vertices pass in progress: feed it the file chunk by chunk.
pub struct VertexIndexBuilder {
    pub blocks: Vec<BlockEntry>,
    pub names: Vec<u8>,
    pub node_count: u64,
    pub max_id: u32,
    pub sorted_by_name: bool,
    pub sorted_by_id: bool,
    pub previous_name: Vec<u8>,
    pub previous_id: Option<u32>,
    /// The records met so far.
    pub records: Ghost<Seq<(int, u32, Seq<u8>)>>,
    /// Bytes fed so far.
    pub fed: u64,
}

impl VertexIndexBuilder {
    /// The state is what the records met so far determine.
    #[verifier::opaque]
    pub open spec fn wf(&self) -> bool {
        let rs = self.records@;
        &&& self.node_count == rs.len()
        &&& self.max_id == max_id(rs)
        &&& self.sorted_by_name == names_increasing(rs)
        &&& self.sorted_by_id == ids_increasing(rs)
        &&& self.blocks@ == block_entries(rs)
        &&& self.names@ == block_names(rs)
        &&& (rs.len() > 0 ==> self.previous_name@ == rs.last().2 && self.previous_id == Some(rs.last().1))
        &&& (rs.len() == 0 ==> self.previous_name@.len() == 0 && self.previous_id is None)
        &&& forall|k: int| 0 <= k < rs.len() ==> 0 <= (#[trigger] rs[k]).0 < self.fed && rs[k].2.len() > 0
        &&& rs.len() <= self.fed
    }

    pub fn new() -> (b: VertexIndexBuilder)
        ensures
            b.wf(),
            b.records@ == Seq::<(int, u32, Seq<u8>)>::empty(),
            b.fed == 0,
    {
        reveal(VertexIndexBuilder::wf);
        let b = VertexIndexBuilder {
            blocks: Vec::new(),
            names: Vec::new(),
            node_count: 0,
            max_id: 0,
            sorted_by_name: true,
            sorted_by_id: true,
            previous_name: Vec::new(),
            previous_id: None,
            records: Ghost(Seq::empty()),
            fed: 0,
        };
        assert(b.blocks@ =~= block_entries(Seq::empty()));
        assert(b.names@ =~= block_names(Seq::empty()));
        b
    }

    #[verifier::rlimit(40)]
    fn accept(&mut self, offset: u64, id: u32, name: &[u8])
        requires
            old(self).wf(),
            name@.len() > 0,
            offset < old(self).fed,
            old(self).records@.len() < old(self).fed,
        ensures
            final(self).wf(),
            final(self).records@ == old(self).records@.push((offset as int, id, name@)),
            final(self).fed == old(self).fed,
    {
        reveal(VertexIndexBuilder::wf);
        let ghost rs = self.records@;
        let ghost nrs = rs.push((offset as int, id, name@));
        proof {
            assert(nrs.drop_last() =~= rs);
            lemma_names_push(rs, offset as int, id, name@);
            lemma_ids_push(rs, offset as int, id, name@);
        }
        assert(self.node_count < self.fed);
        let sorted_name = self.sorted_by_name && !(self.node_count > 0 && lex_le_exec(name, self.previous_name.as_slice()));
        let sorted_id = self.sorted_by_id && match self.previous_id {
            Some(p) => id > p,
            None => true,
        };
        let new_max = if id > self.max_id { id } else { self.max_id };
        let mut prev: Vec<u8> = Vec::new();
        let mut k: usize = 0;
        while k < name.len()
            invariant
                k <= name@.len(),
                prev@ == name@.subrange(0, k as int),
            decreases name.len() - k,
        {
            prev.push(name[k]);
            assert(prev@ =~= name@.subrange(0, k + 1));
            k = k + 1;
        }
        assert(name@.subrange(0, k as int) =~= name@);
        if self.node_count % 256 == 0 {
            self.push_block(offset, id, name);
        }
        proof {
            assert(block_entries(nrs) == self.blocks@);
            assert(block_names(nrs) == self.names@);
        }
        self.sorted_by_name = sorted_name;
        self.sorted_by_id = sorted_id;
        self.max_id = new_max;
        self.previous_name = prev;
        self.previous_id = Some(id);
        self.node_count = self.node_count + 1;
        self.records = Ghost(nrs);
        proof {
            assert forall|k: int| 0 <= k < nrs.len() implies 0 <= (#[trigger] nrs[k]).0 < self.fed && nrs[k].2.len() > 0 by {
                if k < rs.len() {
                    assert(nrs[k] == rs[k]);
                }
            }
        }
    }

    fn push_block(&mut self, offset: u64, id: u32, name: &[u8])
        requires
            old(self).wf(),
            name@.len() > 0,
            old(self).node_count % 256 == 0,
        ensures
            final(self).blocks@ == block_entries(old(self).records@.push((offset as int, id, name@))),
            final(self).names@ == block_names(old(self).records@.push((offset as int, id, name@))),
            final(self).records == old(self).records,
            final(self).fed == old(self).fed,
            final(self).node_count == old(self).node_count,
            final(self).max_id == old(self).max_id,
            final(self).sorted_by_name == old(self).sorted_by_name,
            final(self).sorted_by_id == old(self).sorted_by_id,
            final(self).previous_name == old(self).previous_name,
            final(self).previous_id == old(self).previous_id,
    {
        reveal(VertexIndexBuilder::wf);
        let ghost rs = self.records@;
        let ghost nrs = rs.push((offset as int, id, name@));
        assert(nrs.drop_last() =~= rs);
        let cut: usize = if name.len() < 65535 { name.len() } else { 65535 };
        let start = self.names.len();
        self.blocks.push(BlockEntry {
            offset,
            first_id: id,
            name_start: (start as u64 % 0x1_0000_0000) as u32,
            name_len: cut as u16,
        });
        let mut k: usize = 0;
        let ghost before = self.names@;
        while k < cut
            invariant
                k <= cut <= name@.len(),
                self.names@ == before + name@.subrange(0, k as int),
                self.blocks@ == old(self).blocks@.push(BlockEntry {
                    offset,
                    first_id: id,
                    name_start: (before.len() % 0x1_0000_0000) as u32,
                    name_len: cut as u16,
                }),
                before == old(self).names@,
                self.records == old(self).records,
                self.fed == old(self).fed,
                self.node_count == old(self).node_count,
                self.max_id == old(self).max_id,
                self.sorted_by_name == old(self).sorted_by_name,
                self.sorted_by_id == old(self).sorted_by_id,
                self.previous_name == old(self).previous_name,
                self.previous_id == old(self).previous_id,
            decreases cut - k,
        {
            self.names.push(name[k]);
            assert(self.names@ =~= before + name@.subrange(0, k + 1));
            k = k + 1;
        }
    }

    #[verifier::spinoff_prover]
    #[verifier::rlimit(40)]
    fn feed_line(&mut self, chunk: &[u8], cursor: usize, base: u64) -> (end: usize)
        requires
            old(self).wf(),
            cursor < chunk@.len(),
            old(self).fed == base + chunk@.len(),
            old(self).records@.len() <= base + cursor,
        ensures
            final(self).wf(),
            final(self).fed == old(self).fed,
            cursor < end <= chunk@.len(),
            split_lines(chunk@.subrange(cursor as int, chunk@.len() as int))
                == seq![chunk@.subrange(cursor as int, end as int)] + split_lines(chunk@.subrange(end as int, chunk@.len() as int)),
            final(self).records@ == old(self).records@ + match line_record(chunk@.subrange(cursor as int, end as int)) {
                Some((id, name)) => seq![(base + cursor, id, name)],
                None => Seq::<(int, u32, Seq<u8>)>::empty(),
            },
    {
        proof {
            reveal(VertexIndexBuilder::wf);
        }
        let end = next_line_end(chunk, cursor);
        let line = &chunk[cursor..end];
        assert(line@ == chunk@.subrange(cursor as int, end as int));
        let trimmed = trim_eol(line);
        if trimmed.len() > 0 && trimmed[0] != 35u8 {
            match parse_vertex_line(trimmed) {
                Some((id, name)) => {
                    assert(line_record(line@) == Some((id, name@)));
                    self.accept(base + cursor as u64, id, name);
                    assert(self.records@ =~= old(self).records@ + seq![(base + cursor, id, name@)]);
                },
                None => {
                    assert(old(self).records@ + Seq::<(int, u32, Seq<u8>)>::empty() =~= old(self).records@);
                },
            }
        } else {
            assert(old(self).records@ + Seq::<(int, u32, Seq<u8>)>::empty() =~= old(self).records@);
        }
        end
    }

    fn grow(&mut self, n: u64)
        requires
            old(self).wf(),
            old(self).fed + n <= u64::MAX,
        ensures
            final(self).wf(),
            final(self).records == old(self).records,
            final(self).fed == old(self).fed + n,
            old(self).records@.len() <= old(self).fed,
    {
        reveal(VertexIndexBuilder::wf);
        self.fed = self.fed + n;
    }

    /// Take in one chunk of whole lines that starts at file offset `fed`.
    #[verifier::rlimit(100)]
    pub fn feed(&mut self, chunk: &[u8])
        requires
            old(self).wf(),
            old(self).fed + chunk@.len() <= u64::MAX,
        ensures
            final(self).wf(),
            final(self).fed == old(self).fed + chunk@.len(),
            final(self).records@ == old(self).records@ + vertex_records(split_lines(chunk@), old(self).fed as int),
    {
        let base = self.fed;
        let n = chunk.len();
        let ghost start_records = self.records@;
        let mut cursor: usize = 0;
        self.grow(n as u64);
        assert(chunk@.subrange(0, n as int) =~= chunk@);
        assert(start_records + vertex_records(split_lines(chunk@), base as int)
            == self.records@ + vertex_records(split_lines(chunk@.subrange(0, n as int)), base + 0));
        while cursor < n
            invariant
                self.wf(),
                n == chunk@.len(),
                self.fed == base + n,
                base + n <= u64::MAX,
                cursor <= n,
                self.records@.len() <= base + cursor,
                start_records + vertex_records(split_lines(chunk@), base as int)
                    == self.records@ + vertex_records(split_lines(chunk@.subrange(cursor as int, n as int)), base + cursor),
            decreases n - cursor,
        {
            let ghost r0 = self.records@;
            let end = self.feed_line(chunk, cursor, base);
            proof {
                let ls = split_lines(chunk@.subrange(cursor as int, n as int));
                lemma_records_step(ls, base + cursor);
                let step = match line_record(chunk@.subrange(cursor as int, end as int)) {
                    Some((id, name)) => seq![(base + cursor, id, name)],
                    None => Seq::<(int, u32, Seq<u8>)>::empty(),
                };
                let tail = vertex_records(split_lines(chunk@.subrange(end as int, n as int)), base + end);
                assert(ls.drop_first() =~= split_lines(chunk@.subrange(end as int, n as int)));
                assert(vertex_records(ls, base + cursor) == step + tail);
                assert(r0 + (step + tail) =~= (r0 + step) + tail);
            }
            cursor = end;
        }
        proof {
            assert(chunk@.subrange(n as int, n as int) =~= Seq::<u8>::empty());
            crate::lines::lemma_split_lines_empty();
            reveal(vertex_records);
            assert(vertex_records(Seq::<Seq<u8>>::empty(), base + n) =~= Seq::<(int, u32, Seq<u8>)>::empty());
            assert(self.records@ + Seq::<(int, u32, Seq<u8>)>::empty() =~= self.records@);
        }
    }

    /// What the pass learned.
    pub fn summary(&self) -> (s: VerticesSummary)
        requires
            self.wf(),
        ensures
            s.node_count == self.records@.len(),
            s.sorted_by_name == names_increasing(self.records@),
            s.sorted_by_id == ids_increasing(self.records@),
            s.max_id == max_id(self.records@),
    {
        reveal(VertexIndexBuilder::wf);
        VerticesSummary {
            node_count: self.node_count,
            sorted_by_name: self.sorted_by_name,
            sorted_by_id: self.sorted_by_id,
            max_id: self.max_id,
        }
    }
}

// ---------------------------------------------------------------------------
// The index in memory and on disk
// ---------------------------------------------------------------------------

/// The vertices block index, as written to `vertices.idx`.
pub struct VertexIndex {
    pub blocks: Vec<BlockEntry>,
    /// Name pool the block entries point into.
    pub names: Vec<u8>,
    pub node_count: u64,
    /// Size of the vertices file the index was built from.
    pub file_size: u64,
    pub sorted_by_name: bool,
    pub sorted_by_id: bool,
}

/// Every block's name lies inside the name pool.
pub open spec fn names_in_pool(blocks: Seq<BlockEntry>, pool_len: int) -> bool {
    forall|i: int| 0 <= i < blocks.len() ==> (#[trigger] blocks[i]).name_start + blocks[i].name_len <= pool_len
}

proof fn lemma_pool_push(bs: Seq<BlockEntry>, b: BlockEntry, len: int)
    ensures
        names_in_pool(bs.push(b), len) == (names_in_pool(bs, len) && b.name_start + b.name_len <= len),
{
    let nb = bs.push(b);
    if names_in_pool(nb, len) {
        assert forall|i: int| 0 <= i < bs.len() implies (#[trigger] bs[i]).name_start + bs[i].name_len <= len by {
            assert(nb[i] == bs[i]);
        }
        assert(nb[bs.len() as int] == b);
    }
    if names_in_pool(bs, len) && b.name_start + b.name_len <= len {
        assert forall|i: int| 0 <= i < nb.len() implies (#[trigger] nb[i]).name_start + nb[i].name_len <= len by {
            if i < bs.len() {
                assert(nb[i] == bs[i]);
            }
        }
    }
}

impl VertexIndex {
    pub open spec fn wf(&self) -> bool {
        names_in_pool(self.blocks@, self.names@.len() as int)
    }

    /// Whether every block's name lies inside the name pool.
    pub fn check_wf(&self) -> (r: bool)
        ensures
            r == self.wf(),
    {
        let mut ok = true;
        let mut i: usize = 0;
        let pool = self.names.len() as u64;
        let ghost empty: Seq<BlockEntry> = Seq::empty();
        assert(self.blocks@.subrange(0, 0) =~= empty);
        while i < self.blocks.len()
            invariant
                i <= self.blocks@.len(),
                pool == self.names@.len(),
                ok == names_in_pool(self.blocks@.subrange(0, i as int), pool as int),
            decreases self.blocks.len() - i,
        {
            let b = self.blocks[i];
            proof {
                lemma_pool_push(self.blocks@.subrange(0, i as int), b, pool as int);
                assert(self.blocks@.subrange(0, i as int).push(b) =~= self.blocks@.subrange(0, i + 1));
            }
            if (b.name_start as u64) + (b.name_len as u64) > pool {
                ok = false;
            }
            i = i + 1;
        }
        assert(self.blocks@.subrange(0, i as int) =~= self.blocks@);
        ok
    }
}

impl VertexIndexBuilder {
    /// The finished index for a vertices file of `file_size` bytes.
    pub fn finish(self, file_size: u64) -> (ix: VertexIndex)
        requires
            self.wf(),
        ensures
            ix.blocks@ == block_entries(self.records@),
            ix.names@ == block_names(self.records@),
            ix.node_count == self.records@.len(),
            ix.sorted_by_name == names_increasing(self.records@),
            ix.sorted_by_id == ids_increasing(self.records@),
            ix.file_size == file_size,
    {
        proof {
            reveal(VertexIndexBuilder::wf);
        }
        VertexIndex {
            blocks: self.blocks,
            names: self.names,
            node_count: self.node_count,
            file_size,
            sorted_by_name: self.sorted_by_name,
            sorted_by_id: self.sorted_by_id,
        }
    }
}

pub open spec fn flag(b: bool) -> u8 {
    if b { 1 } else { 0 }
}

pub open spec fn entry_bytes(b: BlockEntry) -> Seq<u8> {
    le64(b.offset) + le32(b.first_id) + le32(b.name_start) + le16(b.name_len) + seq![0u8, 0u8]
}

pub open spec fn entries_bytes(bs: Seq<BlockEntry>) -> Seq<u8>
    decreases bs.len(),
{
    if bs.len() == 0 { Seq::empty() } else { entries_bytes(bs.drop_last()) + entry_bytes(bs.last()) }
}

pub open spec fn vertex_magic() -> Seq<u8> {
    seq![87u8, 82u8, 86u8, 73u8]
}

/// The 48-byte header of `vertices.idx`.
pub open spec fn vertex_header(names_len: int, node_count: u64, file_size: u64, block_count: int,
    by_name: bool, by_id: bool) -> Seq<u8> {
    vertex_magic() + le32(1) + le32(256) + le32((names_len % 0x1_0000_0000) as u32) + le64(node_count)
        + le64(file_size) + le64((block_count % 0x1_0000_0000_0000_0000) as u64)
        + seq![flag(by_name), flag(by_id), 0u8, 0u8, 0u8, 0u8, 0u8, 0u8]
}

/// `vertices.idx`: header, one 20-byte entry per block, then the name pool.
pub open spec fn spec_encode_vertex_index(blocks: Seq<BlockEntry>, names: Seq<u8>, node_count: u64,
    file_size: u64, by_name: bool, by_id: bool) -> Seq<u8> {
    vertex_header(names.len() as int, node_count, file_size, blocks.len() as int, by_name, by_id)
        + entries_bytes(blocks) + names
}

/// Why `vertices.idx` could not be read.
#[derive(Debug, Clone, Copy, PartialEq, Eq, Structural)]
pub enum IndexFileError {
    /// Too short, or the magic bytes are wrong.
    NotAnIndex,
    /// Written by another format version.
    Version(u32),
    /// Shorter than its header says, or inconsistent.
    Truncated,
    /// The source file is not the size the index was built for.
    SourceChanged { actual: u64, expected: u64 },
}

/// The message for an index file `path` of the `what` file that could not be
/// used.
pub open spec fn spec_index_message(e: IndexFileError, what: Seq<char>, path: Seq<char>) -> Seq<char> {
    match e {
        IndexFileError::NotAnIndex => path + " не є індексом "@ + what,
        IndexFileError::Version(v) => "індекс "@ + what + " має несумісну версію "@ + decimal(v as nat)
            + " (потрібна 1) — перебудуйте індекс"@,
        IndexFileError::Truncated => "індекс "@ + what + " обірваний — перебудуйте індекс"@,
        IndexFileError::SourceChanged { actual, expected } => "файл "@ + what
            + " змінився після побудови індексу ("@ + decimal(actual as nat) + " байт замість "@
            + decimal(expected as nat) + ") — перебудуйте індекс"@,
    }
}

impl IndexFileError {
    /// What to tell the user about the index file `path` of the `what` file.
    pub fn message(&self, what: &str, path: &str) -> (s: String)
        ensures
            s@ == spec_index_message(*self, what@, path@),
    {
        let mut v: Vec<char> = Vec::new();
        match *self {
            IndexFileError::NotAnIndex => {
                append_str(&mut v, path);
                append_str(&mut v, " не є індексом ");
                append_str(&mut v, what);
            },
            IndexFileError::Version(ver) => {
                append_str(&mut v, "індекс ");
                append_str(&mut v, what);
                append_str(&mut v, " має несумісну версію ");
                append_chars(&mut v, &decimal_chars(ver as u128));
                append_str(&mut v, " (потрібна 1) — перебудуйте індекс");
            },
            IndexFileError::Truncated => {
                append_str(&mut v, "індекс ");
                append_str(&mut v, what);
                append_str(&mut v, " обірваний — перебудуйте індекс");
            },
            IndexFileError::SourceChanged { actual, expected } => {
                append_str(&mut v, "файл ");
                append_str(&mut v, what);
                append_str(&mut v, " змінився після побудови індексу (");
                append_chars(&mut v, &decimal_chars(actual as u128));
                append_str(&mut v, " байт замість ");
                append_chars(&mut v, &decimal_chars(expected as u128));
                append_str(&mut v, ") — перебудуйте індекс");
            },
        }
        string_of(&v)
    }
}

pub open spec fn entry_at(raw: Seq<u8>, at: int) -> BlockEntry {
    BlockEntry {
        offset: read64(raw, at),
        first_id: read32(raw, at + 8),
        name_start: read32(raw, at + 12),
        name_len: read16(raw, at + 16),
    }
}

/// What reading `raw` as `vertices.idx` gives: the parts, or why not.
pub open spec fn spec_decode_vertex_index(raw: Seq<u8>) -> Result<(Seq<BlockEntry>, Seq<u8>, u64, u64, bool, bool), IndexFileError> {
    if raw.len() < 48 || raw.subrange(0, 4) != vertex_magic() {
        Err(IndexFileError::NotAnIndex)
    } else if read32(raw, 4) != 1 {
        Err(IndexFileError::Version(read32(raw, 4)))
    } else {
        let names_len = read32(raw, 12) as int;
        let block_count = read64(raw, 32) as int;
        let entries_end = 48 + block_count * 20;
        if raw.len() < entries_end + names_len {
            Err(IndexFileError::Truncated)
        } else {
            let blocks = Seq::new(block_count as nat, |i: int| entry_at(raw, 48 + 20 * i));
            if !names_in_pool(blocks, names_len) {
                Err(IndexFileError::Truncated)
            } else {
                Ok((blocks, raw.subrange(entries_end, entries_end + names_len), read64(raw, 16), read64(raw, 24),
                    raw[40] == 1, raw[41] == 1))
            }
        }
    }
}

proof fn lemma_entries_layout(bs: Seq<BlockEntry>)
    ensures
        entries_bytes(bs).len() == 20 * bs.len(),
        forall|i: int| 0 <= i < bs.len() ==> entries_bytes(bs).subrange(20 * i, 20 * i + 20) == entry_bytes(#[trigger] bs[i]),
    decreases bs.len(),
{
    lemma_le_round_trips();
    if bs.len() > 0 {
        let t = bs.drop_last();
        lemma_entries_layout(t);
        let e = entries_bytes(bs);
        assert(entry_bytes(bs.last()).len() == 20);
        assert forall|i: int| 0 <= i < bs.len() implies e.subrange(20 * i, 20 * i + 20) == entry_bytes(#[trigger] bs[i]) by {
            if i < t.len() {
                assert(e.subrange(20 * i, 20 * i + 20) =~= entries_bytes(t).subrange(20 * i, 20 * i + 20));
                assert(t[i] == bs[i]);
            } else {
                assert(e.subrange(20 * i, 20 * i + 20) =~= entry_bytes(bs.last()));
            }
        }
    }
}

proof fn lemma_entry_round_trip(b: BlockEntry, raw: Seq<u8>, at: int)
    requires
        0 <= at,
        at + 20 <= raw.len(),
        raw.subrange(at, at + 20) == entry_bytes(b),
    ensures
        entry_at(raw, at) == b,
{
    lemma_le_round_trips();
    let e = entry_bytes(b);
    assert(raw.subrange(at, at + 8) =~= e.subrange(0, 8));
    assert(e.subrange(0, 8) =~= le64(b.offset));
    assert(raw.subrange(at + 8, at + 12) =~= e.subrange(8, 12));
    assert(e.subrange(8, 12) =~= le32(b.first_id));
    assert(raw.subrange(at + 12, at + 16) =~= e.subrange(12, 16));
    assert(e.subrange(12, 16) =~= le32(b.name_start));
    assert(raw.subrange(at + 16, at + 18) =~= e.subrange(16, 18));
    assert(e.subrange(16, 18) =~= le16(b.name_len));
}

/// Reading back what was written gives the index that was written, for any
/// index whose block names lie in its pool and whose pool and block count fit
/// the header's fields.
pub proof fn lemma_vertex_index_round_trip(blocks: Seq<BlockEntry>, names: Seq<u8>, node_count: u64,
    file_size: u64, by_name: bool, by_id: bool)
    requires
        names_in_pool(blocks, names.len() as int),
        names.len() <= u32::MAX,
        blocks.len() <= u64::MAX,
    ensures
        spec_decode_vertex_index(spec_encode_vertex_index(blocks, names, node_count, file_size, by_name, by_id))
            == Ok::<(Seq<BlockEntry>, Seq<u8>, u64, u64, bool, bool), IndexFileError>((blocks, names, node_count, file_size, by_name, by_id)),
{
    lemma_le_round_trips();
    lemma_entries_layout(blocks);
    let h = vertex_header(names.len() as int, node_count, file_size, blocks.len() as int, by_name, by_id);
    let raw = spec_encode_vertex_index(blocks, names, node_count, file_size, by_name, by_id);
    assert(h.len() == 48);
    assert(raw.subrange(0, 4) =~= vertex_magic());
    assert(raw.subrange(4, 8) =~= le32(1));
    assert(raw.subrange(12, 16) =~= le32(names.len() as u32));
    assert(raw.subrange(16, 24) =~= le64(node_count));
    assert(raw.subrange(24, 32) =~= le64(file_size));
    assert(raw.subrange(32, 40) =~= le64(blocks.len() as u64));
    assert(raw[40] == flag(by_name) && raw[41] == flag(by_id));
    let entries_end: int = 48 + (blocks.len() as int) * 20;
    let decoded = Seq::new(blocks.len(), |i: int| entry_at(raw, 48 + 20 * i));
    assert forall|i: int| 0 <= i < blocks.len() implies decoded[i] == blocks[i] by {
        assert(raw.subrange(48 + 20 * i, 48 + 20 * i + 20) =~= entries_bytes(blocks).subrange(20 * i, 20 * i + 20));
        lemma_entry_round_trip(blocks[i], raw, 48 + 20 * i);
    }
    assert(decoded =~= blocks);
    assert(raw.subrange(entries_end, entries_end + names.len() as int) =~= names);
}

impl VertexIndex {
    /// The bytes of `vertices.idx` for this index.
    pub fn encode(&self) -> (raw: Vec<u8>)
        ensures
            raw@ == spec_encode_vertex_index(self.blocks@, self.names@, self.node_count, self.file_size,
                self.sorted_by_name, self.sorted_by_id),
    {
        let mut out: Vec<u8> = Vec::new();
        out.push(87u8);
        out.push(82u8);
        out.push(86u8);
        out.push(73u8);
        put32(&mut out, 1);
        put32(&mut out, 256);
        put32(&mut out, (self.names.len() as u64 % 0x1_0000_0000) as u32);
        put64(&mut out, self.node_count);
        put64(&mut out, self.file_size);
        put64(&mut out, self.blocks.len() as u64);
        out.push(if self.sorted_by_name { 1u8 } else { 0u8 });
        out.push(if self.sorted_by_id { 1u8 } else { 0u8 });
        let mut z: usize = 0;
        while z < 6
            invariant
                z <= 6,
                out@ == vertex_magic() + le32(1) + le32(256) + le32((self.names@.len() % 0x1_0000_0000) as u32)
                    + le64(self.node_count) + le64(self.file_size) + le64((self.blocks@.len() % 0x1_0000_0000_0000_0000) as u64)
                    + seq![flag(self.sorted_by_name), flag(self.sorted_by_id)] + Seq::new(z as nat, |k: int| 0u8),
            decreases 6 - z,
        {
            out.push(0u8);
            z = z + 1;
        }
        let ghost head = out@;
        assert(head =~= vertex_header(self.names@.len() as int, self.node_count, self.file_size,
            self.blocks@.len() as int, self.sorted_by_name, self.sorted_by_id));
        let mut i: usize = 0;
        while i < self.blocks.len()
            invariant
                i <= self.blocks@.len(),
                out@ == head + entries_bytes(self.blocks@.subrange(0, i as int)),
            decreases self.blocks.len() - i,
        {
            let b = self.blocks[i];
            put64(&mut out, b.offset);
            put32(&mut out, b.first_id);
            put32(&mut out, b.name_start);
            put16(&mut out, b.name_len);
            out.push(0u8);
            out.push(0u8);
            proof {
                let p = self.blocks@.subrange(0, i + 1);
                assert(p.drop_last() =~= self.blocks@.subrange(0, i as int));
                assert(out@ =~= head + entries_bytes(p));
            }
            i = i + 1;
        }
        assert(self.blocks@.subrange(0, i as int) =~= self.blocks@);
        put_bytes(&mut out, self.names.as_slice());
        out
    }

    /// Read `vertices.idx`.
    pub fn decode(raw: &[u8]) -> (r: Result<VertexIndex, IndexFileError>)
        ensures
            match r {
                Ok(ix) => spec_decode_vertex_index(raw@) == Ok::<(Seq<BlockEntry>, Seq<u8>, u64, u64, bool, bool), IndexFileError>(
                    (ix.blocks@, ix.names@, ix.node_count, ix.file_size, ix.sorted_by_name, ix.sorted_by_id)) && ix.wf(),
                Err(e) => spec_decode_vertex_index(raw@) == Err::<(Seq<BlockEntry>, Seq<u8>, u64, u64, bool, bool), IndexFileError>(e),
            },
    {
        let n = raw.len();
        if n < 48 || !(raw[0] == 87u8 && raw[1] == 82u8 && raw[2] == 86u8 && raw[3] == 73u8) {
            proof {
                if n >= 48 {
                    if raw@.subrange(0, 4) == vertex_magic() {
                        assert(raw@.subrange(0, 4)[0] == raw@[0]);
                        assert(raw@.subrange(0, 4)[1] == raw@[1]);
                        assert(raw@.subrange(0, 4)[2] == raw@[2]);
                        assert(raw@.subrange(0, 4)[3] == raw@[3]);
                    }
                }
            }
            return Err(IndexFileError::NotAnIndex);
        }
        assert(raw@.subrange(0, 4) =~= vertex_magic());
        let format = get32(raw, 4);
        if format != 1 {
            return Err(IndexFileError::Version(format));
        }
        let names_len = get32(raw, 12) as u64;
        let node_count = get64(raw, 16);
        let file_size = get64(raw, 24);
        let block_count = get64(raw, 32);
        let by_name = raw[40] == 1u8;
        let by_id = raw[41] == 1u8;
        // Sizes are compared in u128 so a corrupt count cannot overflow.
        let entries_end: u128 = 48 + block_count as u128 * 20;
        if (n as u128) < entries_end + names_len as u128 {
            return Err(IndexFileError::Truncated);
        }
        let entries_end = entries_end as usize;
        let bc = block_count as usize;
        let ghost expected = Seq::new(block_count as nat, |i: int| entry_at(raw@, 48 + 20 * i));
        let mut blocks: Vec<BlockEntry> = Vec::new();
        let mut i: usize = 0;
        let mut ranges_ok = true;
        while i < bc
            invariant
                i <= bc == block_count,
                entries_end == 48 + bc * 20,
                entries_end + names_len <= n == raw@.len(),
                blocks@ == expected.subrange(0, i as int),
                expected == Seq::new(block_count as nat, |i: int| entry_at(raw@, 48 + 20 * i)),
                ranges_ok == names_in_pool(blocks@, names_len as int),
            decreases bc - i,
        {
            let at = 48 + i * 20;
            let b = BlockEntry {
                offset: get64(raw, at),
                first_id: get32(raw, at + 8),
                name_start: get32(raw, at + 12),
                name_len: get16(raw, at + 16),
            };
            if (b.name_start as u64) + (b.name_len as u64) > names_len {
                ranges_ok = false;
            }
            proof {
                lemma_pool_push(blocks@, b, names_len as int);
            }
            blocks.push(b);
            proof {
                assert(expected[i as int] == b);
                assert(blocks@ =~= expected.subrange(0, i + 1));
            }
            i = i + 1;
        }
        assert(blocks@ =~= expected);
        if !ranges_ok {
            return Err(IndexFileError::Truncated);
        }
        let mut names: Vec<u8> = Vec::new();
        put_bytes(&mut names, &raw[entries_end..entries_end + names_len as usize]);
        assert(names@ =~= raw@.subrange(entries_end as int, entries_end + names_len));
        Ok(VertexIndex { blocks, names, node_count, file_size, sorted_by_name: by_name, sorted_by_id: by_id })
    }
}


impl VertexIndex {
    /// Load `vertices.idx` for a vertices file of `source_len` bytes; an index
    /// built for a file of another size is refused.
    pub fn open(raw: &[u8], source_len: u64) -> (r: Result<VertexIndex, IndexFileError>)
        ensures
            match r {
                Ok(ix) => spec_decode_vertex_index(raw@) == Ok::<(Seq<BlockEntry>, Seq<u8>, u64, u64, bool, bool), IndexFileError>(
                    (ix.blocks@, ix.names@, ix.node_count, ix.file_size, ix.sorted_by_name, ix.sorted_by_id))
                    && ix.wf() && ix.file_size == source_len,
                Err(IndexFileError::SourceChanged { actual, expected }) => actual == source_len && expected != source_len
                    && (spec_decode_vertex_index(raw@) matches Ok(parts) && parts.3 == expected),
                Err(e) => spec_decode_vertex_index(raw@) == Err::<(Seq<BlockEntry>, Seq<u8>, u64, u64, bool, bool), IndexFileError>(e),
            },
    {
        let ix = VertexIndex::decode(raw)?;
        if ix.file_size != source_len {
            return Err(IndexFileError::SourceChanged { actual: source_len, expected: ix.file_size });
        }
        Ok(ix)
    }
}

// ---------------------------------------------------------------------------
// Lookups
// ---------------------------------------------------------------------------

/// Where the binary search over `[lo, hi)` with predicate `pred` stops: the
/// partition point when `pred` holds on a prefix, a well-defined index always.
pub open spec fn bsearch(pred: spec_fn(int) -> bool, lo: int, hi: int) -> int
    decreases hi - lo,
{
    if lo >= hi {
        lo
    } else {
        let mid = lo + (hi - lo) / 2;
        if pred(mid) { bsearch(pred, mid + 1, hi) } else { bsearch(pred, lo, mid) }
    }
}

pub proof fn lemma_bsearch_range(pred: spec_fn(int) -> bool, lo: int, hi: int)
    requires
        lo <= hi,
    ensures
        lo <= bsearch(pred, lo, hi) <= hi,
    decreases hi - lo,
{
    if lo < hi {
        let mid = lo + (hi - lo) / 2;
        if pred(mid) {
            lemma_bsearch_range(pred, mid + 1, hi);
        } else {
            lemma_bsearch_range(pred, lo, mid);
        }
    }
}

/// `pred` holds on a prefix of `[lo, hi)` and nowhere after it.
pub open spec fn prefix_pred(pred: spec_fn(int) -> bool, lo: int, hi: int) -> bool {
    forall|i: int, j: int| lo <= i < j < hi && #[trigger] pred(j) ==> #[trigger] pred(i)
}

/// On a partitioned range the search finds the partition point: `pred`
/// holds before it and fails from it on.
pub proof fn lemma_bsearch_partition(pred: spec_fn(int) -> bool, lo: int, hi: int)
    requires
        lo <= hi,
        prefix_pred(pred, lo, hi),
    ensures
        lo <= bsearch(pred, lo, hi) <= hi,
        forall|i: int| lo <= i < bsearch(pred, lo, hi) ==> #[trigger] pred(i),
        forall|i: int| bsearch(pred, lo, hi) <= i < hi ==> !#[trigger] pred(i),
    decreases hi - lo,
{
    if lo < hi {
        let mid = lo + (hi - lo) / 2;
        if pred(mid) {
            lemma_bsearch_partition(pred, mid + 1, hi);
        } else {
            lemma_bsearch_partition(pred, lo, mid);
        }
    }
}

/// What `read_range` gives on a file whose bytes are `source`: the bytes from
/// `start` on, at most `len` of them, fewer at the end of the file.
pub open spec fn spec_read_range(source: Seq<u8>, start: int, len: int) -> Seq<u8> {
    let n = source.len() as int;
    let a = if start < n { start } else { n };
    let b = if start + len < n { start + len } else { n };
    source.subrange(a, b)
}

/// Read `len` bytes at `offset` of the file `source`, or fewer at its end.
pub fn read_range(source: &[u8], offset: u64, len: u64) -> (r: &[u8])
    ensures
        r@ == spec_read_range(source@, offset as int, len as int),
{
    let n = source.len() as u64;
    let a: u64 = if offset < n { offset } else { n };
    let b: u64 = if len <= n && offset < n - len { offset + len } else { n };
    &source[a as usize..b as usize]
}

/// The records of `rs` whose name is valid UTF-8, each as `(id, name)`.
pub open spec fn utf8_records(rs: Seq<(int, u32, Seq<u8>)>) -> Seq<(u32, Seq<u8>)>
    decreases rs.len(),
{
    if rs.len() == 0 {
        Seq::empty()
    } else {
        let t = utf8_records(rs.drop_last());
        if vstd::utf8::valid_utf8(rs.last().2) { t.push((rs.last().1, rs.last().2)) } else { t }
    }
}

/// The records of a run of vertices lines whose name is valid UTF-8.
pub open spec fn text_records(bytes: Seq<u8>) -> Seq<(u32, Seq<u8>)> {
    utf8_records(vertex_records(split_lines(bytes), 0))
}

/// Every record of a run of vertices lines whose name is valid UTF-8, in
/// file order, with its name as text.
#[verifier::spinoff_prover]
#[verifier::rlimit(60)]
pub fn for_each_vertex(bytes: &[u8]) -> (out: Vec<(u32, String)>)
    ensures
        out@.len() == text_records(bytes@).len(),
        forall|k: int| 0 <= k < out@.len() ==> (#[trigger] out@[k]).0 == text_records(bytes@)[k].0
            && out@[k].1@ == vstd::utf8::decode_utf8(text_records(bytes@)[k].1),
        out@.len() == text_view(bytes@).len(),
        forall|k: int| 0 <= k < out@.len() ==> (#[trigger] out@[k]).0 == text_view(bytes@)[k].0
            && out@[k].1@ == text_view(bytes@)[k].1,
{
    let n = bytes.len();
    let mut cursor: usize = 0;
    let mut out: Vec<(u32, String)> = Vec::new();
    let ghost done: Seq<(int, u32, Seq<u8>)> = Seq::empty();
    assert(bytes@.subrange(0, n as int) =~= bytes@);
    proof {
        assert(vertex_records(split_lines(bytes@), 0) == done + vertex_records(split_lines(bytes@.subrange(0, n as int)), 0));
    }
    while cursor < n
        invariant
            n == bytes@.len(),
            cursor <= n,
            vertex_records(split_lines(bytes@), 0) == done + vertex_records(split_lines(bytes@.subrange(cursor as int, n as int)), cursor as int),
            out@.len() == utf8_records(done).len(),
            forall|k: int| 0 <= k < out@.len() ==> (#[trigger] out@[k]).0 == utf8_records(done)[k].0
                && out@[k].1@ == vstd::utf8::decode_utf8(utf8_records(done)[k].1),
        decreases n - cursor,
    {
        let end = next_line_end(bytes, cursor);
        let ghost ls = split_lines(bytes@.subrange(cursor as int, n as int));
        proof {
            lemma_records_step(ls, cursor as int);
            assert(ls.drop_first() =~= split_lines(bytes@.subrange(end as int, n as int)));
        }
        let line = trim_eol(&bytes[cursor..end]);
        let ghost step: Seq<(int, u32, Seq<u8>)> = match line_record(bytes@.subrange(cursor as int, end as int)) {
            Some((id, name)) => seq![(cursor as int, id, name)],
            None => Seq::empty(),
        };
        if line.len() > 0 && line[0] != 35u8 {
            match parse_vertex_line(line) {
                Some((id, name)) => {
                    match crate::text::utf8_text(name) {
                        Some(text) => {
                            out.push((id, text.to_owned()));
                        },
                        None => {},
                    }
                },
                None => {},
            }
        }
        proof {
            let nd = done + step;
            if step.len() == 1 {
                assert(nd.drop_last() =~= done);
                assert(nd.last() == step[0]);
            } else {
                assert(nd =~= done);
            }
            assert(vertex_records(split_lines(bytes@), 0) == nd + vertex_records(split_lines(bytes@.subrange(end as int, n as int)), end as int)) by {
                assert(done + (step + vertex_records(split_lines(bytes@.subrange(end as int, n as int)), end as int))
                    =~= nd + vertex_records(split_lines(bytes@.subrange(end as int, n as int)), end as int));
            }
            done = nd;
        }
        cursor = end;
    }
    proof {
        assert(bytes@.subrange(n as int, n as int) =~= Seq::<u8>::empty());
        crate::lines::lemma_split_lines_empty();
        reveal(vertex_records);
        assert(done + Seq::<(int, u32, Seq<u8>)>::empty() =~= done);
        assert(vertex_records(split_lines(bytes@), 0) == done);
    }
    out
}

/// The records of a run of vertices lines, each as `(id, name text)`.
pub open spec fn text_view(bytes: Seq<u8>) -> Seq<(u32, Seq<char>)> {
    text_records(bytes).map_values(|r: (u32, Seq<u8>)| (r.0, vstd::utf8::decode_utf8(r.1)))
}

/// The id of the last record named `name`, if any.
pub open spec fn last_id_named(rs: Seq<(u32, Seq<char>)>, name: Seq<char>) -> Option<u32>
    decreases rs.len(),
{
    if rs.len() == 0 {
        None
    } else if rs.last().1 == name {
        Some(rs.last().0)
    } else {
        last_id_named(rs.drop_last(), name)
    }
}

/// The name of the last record with id `id`, if any.
pub open spec fn last_name_of(rs: Seq<(u32, Seq<char>)>, id: u32) -> Option<Seq<char>>
    decreases rs.len(),
{
    if rs.len() == 0 {
        None
    } else if rs.last().0 == id {
        Some(rs.last().1)
    } else {
        last_name_of(rs.drop_last(), id)
    }
}

/// Why a lookup through the vertices index was refused.
#[derive(Debug, Clone, Copy, PartialEq, Eq, Structural)]
pub enum LookupError {
    /// The file is not sorted by name, so a name cannot be binary searched.
    NotSortedByName,
    /// Ids do not ascend, so an id cannot be binary searched.
    NotSortedById,
    /// A block ends before it starts: the index does not fit the file.
    BrokenIndex,
}

pub open spec fn spec_lookup_message(e: LookupError) -> Seq<char> {
    match e {
        LookupError::NotSortedByName => "файл vertices не відсортований за доменом — пошук за назвою потребує повного сканування"@,
        LookupError::NotSortedById => "ідентифікатори у файлі vertices не зростають — індекс за id недоступний"@,
        LookupError::BrokenIndex => "індекс vertices не відповідає файлу — перебудуйте індекс"@,
    }
}

impl LookupError {
    /// What to tell the user.
    pub fn message(&self) -> (s: String)
        ensures
            s@ == spec_lookup_message(*self),
    {
        match self {
            LookupError::NotSortedByName => "файл vertices не відсортований за доменом — пошук за назвою потребує повного сканування".to_owned(),
            LookupError::NotSortedById => "ідентифікатори у файлі vertices не зростають — індекс за id недоступний".to_owned(),
            LookupError::BrokenIndex => "індекс vertices не відповідає файлу — перебудуйте індекс".to_owned(),
        }
    }
}

impl VertexIndex {
    /// The (cut) first name of block `i`.
    pub open spec fn name_at(&self, i: int) -> Seq<u8> {
        self.names@.subrange(self.blocks@[i].name_start as int,
            self.blocks@[i].name_start + self.blocks@[i].name_len)
    }

    pub open spec fn name_le(&self, needle: Seq<u8>) -> spec_fn(int) -> bool {
        |i: int| lex_le(self.name_at(i), needle)
    }

    pub open spec fn id_le(&self, id: u32) -> spec_fn(int) -> bool {
        |i: int| self.blocks@[i].first_id <= id
    }

    /// The block a name would sit in: the last whose first name is `<=` it.
    pub open spec fn spec_block_of_name(&self, needle: Seq<u8>) -> int {
        let p = bsearch(self.name_le(needle), 0, self.blocks@.len() as int);
        if p == 0 { 0 } else { p - 1 }
    }

    /// The block an id would sit in: the last whose first id is `<=` it.
    pub open spec fn spec_block_of_id(&self, id: u32) -> int {
        let p = bsearch(self.id_le(id), 0, self.blocks@.len() as int);
        if p == 0 { 0 } else { p - 1 }
    }

    /// Byte offset just past block `i`.
    pub open spec fn spec_block_end(&self, i: int) -> u64 {
        if i + 1 < self.blocks@.len() { self.blocks@[i + 1].offset } else { self.file_size }
    }

    /// Block `i` does not end before it starts.
    pub open spec fn block_in_order(&self, i: int) -> bool {
        self.blocks@[i].offset <= self.spec_block_end(i)
    }

    /// The bytes of block `i` in the file `source`.
    pub open spec fn spec_block_bytes(&self, source: Seq<u8>, i: int) -> Seq<u8> {
        spec_read_range(source, self.blocks@[i].offset as int, self.spec_block_end(i) - self.blocks@[i].offset)
    }

    /// What `id_of` answers for `needle` on the file `source`.
    pub open spec fn spec_id_of(&self, source: Seq<u8>, needle: Seq<char>) -> Result<Option<u32>, LookupError> {
        let p = bsearch(self.name_le(vstd::utf8::encode_utf8(needle)), 0, self.blocks@.len() as int);
        if !self.sorted_by_name {
            Err(LookupError::NotSortedByName)
        } else if self.blocks@.len() == 0 || p == 0 {
            Ok(None)
        } else if !self.block_in_order(p - 1) {
            Err(LookupError::BrokenIndex)
        } else {
            Ok(last_id_named(text_view(self.spec_block_bytes(source, p - 1)), needle))
        }
    }

    pub fn block_count(&self) -> (n: usize)
        ensures
            n == self.blocks@.len(),
    {
        self.blocks.len()
    }

    /// First id stored in block `i`.
    pub fn block_first_id(&self, i: usize) -> (id: u32)
        requires
            i < self.blocks@.len(),
        ensures
            id == self.blocks@[i as int].first_id,
    {
        self.blocks[i].first_id
    }

    fn block_name(&self, i: usize) -> (r: &[u8])
        requires
            self.wf(),
            i < self.blocks@.len(),
        ensures
            r@ == self.name_at(i as int),
    {
        let b = self.blocks[i];
        assert(self.blocks@[i as int] == b);
        assert(b.name_start + b.name_len <= self.names@.len());
        let pool = self.names.len();
        let start = b.name_start as usize;
        let len = b.name_len as usize;
        assert(start + len <= pool);
        &self.names[start..start + len]
    }

    /// Byte offset just past block `i`.
    fn block_end(&self, i: usize) -> (e: u64)
        requires
            i < self.blocks@.len(),
        ensures
            e == self.spec_block_end(i as int),
    {
        let n = self.blocks.len();
        if i + 1 < n { self.blocks[i + 1].offset } else { self.file_size }
    }

    /// Number of leading blocks whose first name is `<= needle`, found by
    /// binary search.
    fn search_name(&self, needle: &[u8]) -> (p: usize)
        requires
            self.wf(),
        ensures
            p == bsearch(self.name_le(needle@), 0, self.blocks@.len() as int),
            p <= self.blocks@.len(),
    {
        proof {
            lemma_bsearch_range(self.name_le(needle@), 0, self.blocks@.len() as int);
        }
        let mut lo: usize = 0;
        let mut hi: usize = self.blocks.len();
        let ghost pred = self.name_le(needle@);
        while lo < hi
            invariant
                self.wf(),
                lo <= hi <= self.blocks@.len(),
                pred == self.name_le(needle@),
                bsearch(pred, lo as int, hi as int) == bsearch(pred, 0, self.blocks@.len() as int),
            decreases hi - lo,
        {
            let mid = lo + (hi - lo) / 2;
            if lex_le_exec(self.block_name(mid), needle) {
                lo = mid + 1;
            } else {
                hi = mid;
            }
        }
        lo
    }

    /// Number of leading blocks whose first id is `<= id`.
    fn search_id(&self, id: u32) -> (p: usize)
        ensures
            p == bsearch(self.id_le(id), 0, self.blocks@.len() as int),
            p <= self.blocks@.len(),
    {
        proof {
            lemma_bsearch_range(self.id_le(id), 0, self.blocks@.len() as int);
        }
        let mut lo: usize = 0;
        let mut hi: usize = self.blocks.len();
        let ghost pred = self.id_le(id);
        while lo < hi
            invariant
                lo <= hi <= self.blocks@.len(),
                pred == self.id_le(id),
                bsearch(pred, lo as int, hi as int) == bsearch(pred, 0, self.blocks@.len() as int),
            decreases hi - lo,
        {
            let mid = lo + (hi - lo) / 2;
            if self.blocks[mid].first_id <= id {
                lo = mid + 1;
            } else {
                hi = mid;
            }
        }
        lo
    }

    /// Index of the block that would contain `reverse_domain`.
    pub fn block_of_name(&self, reverse_domain: &[u8]) -> (b: usize)
        requires
            self.wf(),
        ensures
            b == self.spec_block_of_name(reverse_domain@),
    {
        let p = self.search_name(reverse_domain);
        if p == 0 { 0 } else { p - 1 }
    }

    /// Index of the block that would contain `id`.
    pub fn block_of_id(&self, id: u32) -> (b: usize)
        ensures
            b == self.spec_block_of_id(id),
    {
        let p = self.search_id(id);
        if p == 0 { 0 } else { p - 1 }
    }

    /// The bytes of block `i` of the file `source`, unless the block ends
    /// before it starts.
    fn block_bytes<'a>(&self, source: &'a [u8], i: usize) -> (r: Option<&'a [u8]>)
        requires
            i < self.blocks@.len(),
        ensures
            match r {
                Some(b) => self.block_in_order(i as int) && b@ == self.spec_block_bytes(source@, i as int),
                None => !self.block_in_order(i as int),
            },
    {
        let start = self.blocks[i].offset;
        let end = self.block_end(i);
        if end < start {
            None
        } else {
            Some(read_range(source, start, end - start))
        }
    }

    /// Node id of a reverse domain (`com.example`), if the graph knows it;
    /// `source` is the vertices file the index was built from.
    pub fn id_of(&self, source: &[u8], reverse_domain: &str) -> (r: Result<Option<u32>, LookupError>)
        requires
            self.wf(),
        ensures
            r == self.spec_id_of(source@, reverse_domain@),
    {
        let needle = reverse_domain.as_bytes();
        let p = self.search_name(needle);
        if !self.sorted_by_name {
            return Err(LookupError::NotSortedByName);
        }
        if self.blocks.len() == 0 || p == 0 {
            return Ok(None);
        }
        let bytes = match self.block_bytes(source, p - 1) {
            Some(b) => b,
            None => return Err(LookupError::BrokenIndex),
        };
        let records = for_each_vertex(bytes);
        let ghost view = text_view(bytes@);
        let mut found: Option<u32> = None;
        let mut k: usize = 0;
        while k < records.len()
            invariant
                k <= records@.len() == view.len(),
                view == text_view(bytes@),
                forall|j: int| 0 <= j < records@.len() ==> (#[trigger] records@[j]).0 == view[j].0 && records@[j].1@ == view[j].1,
                found == last_id_named(view.subrange(0, k as int), reverse_domain@),
            decreases records.len() - k,
        {
            proof {
                assert(view.subrange(0, k + 1).drop_last() =~= view.subrange(0, k as int));
            }
            if crate::text::str_eq(records[k].1.as_str(), reverse_domain) {
                found = Some(records[k].0);
            }
            k = k + 1;
        }
        assert(view.subrange(0, k as int) =~= view);
        Ok(found)
    }
}

/// The records of `rs` with a valid UTF-8 name, each as `(id, name text)`.
pub open spec fn utf8_text_records(rs: Seq<(int, u32, Seq<u8>)>) -> Seq<(u32, Seq<char>)>
    decreases rs.len(),
{
    if rs.len() == 0 {
        Seq::empty()
    } else {
        let t = utf8_text_records(rs.drop_last());
        if vstd::utf8::valid_utf8(rs.last().2) {
            t.push((rs.last().1, vstd::utf8::decode_utf8(rs.last().2)))
        } else {
            t
        }
    }
}

/// The records of `rs` whose id is in `want` and in `[lo, hi)`.
pub open spec fn keep_ids(rs: Seq<(u32, Seq<char>)>, want: Set<u32>, lo: int, hi: int) -> Seq<(u32, Seq<char>)>
    decreases rs.len(),
{
    if rs.len() == 0 {
        Seq::empty()
    } else {
        let t = keep_ids(rs.drop_last(), want, lo, hi);
        let r = rs.last();
        if want.contains(r.0) && lo <= r.0 < hi { t.push(r) } else { t }
    }
}

/// `(id, name)` pairs as values.
pub open spec fn pairs_view(v: Seq<(u32, String)>) -> Seq<(u32, Seq<char>)> {
    v.map_values(|p: (u32, String)| (p.0, p.1@))
}

/// The records of a run of vertices lines whose id is in `want` and in
/// `[lo, hi)`, in file order.
#[verifier::spinoff_prover]
#[verifier::rlimit(80)]
pub fn pick_vertices(bytes: &[u8], want: &AHashSet<u32, RandomState>, lo: u64, hi: u64) -> (out: Vec<(u32, String)>)
    ensures
        pairs_view(out@) == keep_ids(utf8_text_records(vertex_records(split_lines(bytes@), 0)), id_set_contents(*want), lo as int, hi as int),
{
    let n = bytes.len();
    let mut cursor: usize = 0;
    let mut out: Vec<(u32, String)> = Vec::new();
    let ghost w = id_set_contents(*want);
    let ghost done: Seq<(int, u32, Seq<u8>)> = Seq::empty();
    assert(bytes@.subrange(0, n as int) =~= bytes@);
    proof {
        assert(vertex_records(split_lines(bytes@), 0) == done + vertex_records(split_lines(bytes@.subrange(0, n as int)), 0));
    }
    while cursor < n
        invariant
            n == bytes@.len(),
            cursor <= n,
            w == id_set_contents(*want),
            vertex_records(split_lines(bytes@), 0) == done + vertex_records(split_lines(bytes@.subrange(cursor as int, n as int)), cursor as int),
            pairs_view(out@) == keep_ids(utf8_text_records(done), w, lo as int, hi as int),
        decreases n - cursor,
    {
        let end = next_line_end(bytes, cursor);
        let ghost ls = split_lines(bytes@.subrange(cursor as int, n as int));
        proof {
            lemma_records_step(ls, cursor as int);
            assert(ls.drop_first() =~= split_lines(bytes@.subrange(end as int, n as int)));
        }
        let raw_line = &bytes[cursor..end];
        assert(raw_line@ == bytes@.subrange(cursor as int, end as int));
        let line = trim_eol(raw_line);
        let ghost step: Seq<(int, u32, Seq<u8>)> = match line_record(bytes@.subrange(cursor as int, end as int)) {
            Some((id, name)) => seq![(cursor as int, id, name)],
            None => Seq::empty(),
        };
        let ghost nd = done + step;
        let ghost before = out@;
        if line.len() > 0 && line[0] != 35u8 {
            match parse_vertex_line(line) {
                Some((id, name)) => {
                    proof {
                        assert(nd.drop_last() =~= done);
                        assert(nd.last() == (cursor as int, id, name@));
                    }
                    if (id as u64) >= lo && (id as u64) < hi && id_set_contains(want, id) {
                        match crate::text::utf8_text(name) {
                            Some(text) => {
                                out.push((id, text.to_owned()));
                                proof {
                                    let u = utf8_text_records(nd);
                                    assert(u.drop_last() =~= utf8_text_records(done));
                                    assert(pairs_view(out@) =~= pairs_view(before).push((id, text@)));
                                }
                            },
                            None => {},
                        }
                    } else {
                        proof {
                            let u = utf8_text_records(nd);
                            if vstd::utf8::valid_utf8(name@) {
                                assert(u.drop_last() =~= utf8_text_records(done));
                            }
                        }
                    }
                },
                None => {
                    assert(nd =~= done);
                },
            }
        } else {
            assert(nd =~= done);
        }
        proof {
            assert(vertex_records(split_lines(bytes@), 0) == nd + vertex_records(split_lines(bytes@.subrange(end as int, n as int)), end as int)) by {
                assert(done + (step + vertex_records(split_lines(bytes@.subrange(end as int, n as int)), end as int))
                    =~= nd + vertex_records(split_lines(bytes@.subrange(end as int, n as int)), end as int));
            }
            done = nd;
        }
        cursor = end;
    }
    proof {
        assert(bytes@.subrange(n as int, n as int) =~= Seq::<u8>::empty());
        crate::lines::lemma_split_lines_empty();
        reveal(vertex_records);
        assert(done + Seq::<(int, u32, Seq<u8>)>::empty() =~= done);
    }
    out
}

/// The records of a run of vertices lines whose name is valid UTF-8, each
/// as `(id, name text)`, in file order.
pub open spec fn vertex_texts(bytes: Seq<u8>) -> Seq<(u32, Seq<char>)> {
    utf8_text_records(vertex_records(split_lines(bytes), 0))
}

proof fn lemma_utf8_views(rs: Seq<(int, u32, Seq<u8>)>)
    ensures
        utf8_text_records(rs) == utf8_records(rs).map_values(|r: (u32, Seq<u8>)| (r.0, vstd::utf8::decode_utf8(r.1))),
    decreases rs.len(),
{
    if rs.len() > 0 {
        lemma_utf8_views(rs.drop_last());
        let f = |r: (u32, Seq<u8>)| (r.0, vstd::utf8::decode_utf8(r.1));
        let t = utf8_records(rs.drop_last());
        if vstd::utf8::valid_utf8(rs.last().2) {
            assert(t.push((rs.last().1, rs.last().2)).map_values(f) =~= t.map_values(f).push(f((rs.last().1, rs.last().2))));
        }
    } else {
        assert(utf8_records(rs).map_values(|r: (u32, Seq<u8>)| (r.0, vstd::utf8::decode_utf8(r.1))) =~= Seq::<(u32, Seq<char>)>::empty());
    }
}

/// Both views of a run of lines agree.
pub proof fn lemma_text_views_agree(bytes: Seq<u8>)
    ensures
        text_view(bytes) == vertex_texts(bytes),
{
    lemma_utf8_views(vertex_records(split_lines(bytes), 0));
}

/// Equal neighbours collapsed to one.
pub open spec fn dedup_seq<A>(s: Seq<A>) -> Seq<A>
    decreases s.len(),
{
    if s.len() <= 1 {
        s
    } else {
        let d = dedup_seq(s.drop_last());
        if s.last() == s[s.len() - 2] { d } else { d.push(s.last()) }
    }
}

proof fn lemma_dedup_seq_last<A>(s: Seq<A>)
    requires
        s.len() > 0,
    ensures
        dedup_seq(s).len() > 0,
        dedup_seq(s).last() == s.last(),
    decreases s.len(),
{
    if s.len() > 1 {
        lemma_dedup_seq_last(s.drop_last());
    }
}

/// The ids a request asks for: ascending, each once.
pub open spec fn wanted_of(ids: Seq<u32>) -> Seq<u32> {
    crate::order::dedup_u32(crate::order::sorted_ids(ids))
}

impl VertexIndex {
    /// The blocks a request touches, in the order it reads them.
    pub open spec fn needed_of(&self, wanted: Seq<u32>) -> Seq<int> {
        dedup_seq(wanted.map_values(|id: u32| self.spec_block_of_id(id)))
    }

    /// First id of the block after `b` (`u32::MAX` after the last block).
    pub open spec fn block_past(&self, b: int) -> int {
        if b + 1 < self.blocks@.len() { self.blocks@[b + 1].first_id as int } else { u32::MAX as int }
    }

    /// What reading `needed` block by block visits.
    pub open spec fn sparse_visits(&self, source: Seq<u8>, want: Set<u32>, needed: Seq<int>) -> Seq<(u32, Seq<char>)>
        decreases needed.len(),
    {
        if needed.len() == 0 {
            Seq::empty()
        } else {
            let b = needed.last();
            self.sparse_visits(source, want, needed.drop_last())
                + keep_ids(vertex_texts(self.spec_block_bytes(source, b)), want,
                    self.blocks@[b].first_id as int, self.block_past(b))
        }
    }

    /// What `names_of` visits for `ids` on the file `source`.
    pub open spec fn spec_names_of(&self, source: Seq<u8>, ids: Seq<u32>) -> Result<Seq<(u32, Seq<char>)>, LookupError> {
        let wanted = wanted_of(ids);
        let want = Set::new(|x: u32| wanted.contains(x));
        let needed = self.needed_of(wanted);
        if ids.len() == 0 || self.blocks@.len() == 0 {
            Ok(Seq::empty())
        } else if !self.sorted_by_id {
            Err(LookupError::NotSortedById)
        } else if needed.len() * 4 > self.blocks@.len() {
            Ok(keep_ids(vertex_texts(source), want, 0, 0x1_0000_0000))
        } else if exists|k: int| 0 <= k < needed.len() && !self.block_in_order(#[trigger] needed[k]) {
            Err(LookupError::BrokenIndex)
        } else {
            Ok(self.sparse_visits(source, want, needed))
        }
    }

    /// Resolve many ids at once: every `(id, name)` record the lookup visits.
    /// Scattered ids cost one block read each; once a request touches more
    /// than a quarter of the blocks, one pass over the whole file is cheaper,
    /// so it switches.
    #[verifier::rlimit(60)]
    pub fn names_of(&self, source: &[u8], ids: &[u32]) -> (r: Result<Vec<(u32, String)>, LookupError>)
        ensures
            match r {
                Ok(v) => self.spec_names_of(source@, ids@) == Ok::<Seq<(u32, Seq<char>)>, LookupError>(pairs_view(v@)),
                Err(e) => self.spec_names_of(source@, ids@) == Err::<Seq<(u32, Seq<char>)>, LookupError>(e),
            },
    {
        if ids.len() == 0 || self.blocks.len() == 0 {
            let empty: Vec<(u32, String)> = Vec::new();
            assert(pairs_view(empty@) =~= Seq::<(u32, Seq<char>)>::empty());
            return Ok(empty);
        }
        if !self.sorted_by_id {
            return Err(LookupError::NotSortedById);
        }
        let mut sorted: Vec<u32> = Vec::new();
        let mut i: usize = 0;
        while i < ids.len()
            invariant
                i <= ids@.len(),
                sorted@ == ids@.subrange(0, i as int),
            decreases ids.len() - i,
        {
            sorted.push(ids[i]);
            assert(sorted@ =~= ids@.subrange(0, i + 1));
            i = i + 1;
        }
        assert(ids@.subrange(0, i as int) =~= ids@);
        crate::order::sort_u32(&mut sorted);
        proof {
            crate::order::lemma_sorted_ids(ids@, sorted@);
        }
        let wanted = crate::order::dedup_vec_u32(&sorted);
        let ghost f = |id: u32| self.spec_block_of_id(id);
        let mut needed: Vec<usize> = Vec::new();
        let mut lookup = id_set_new();
        let mut k: usize = 0;
        while k < wanted.len()
            invariant
                k <= wanted@.len(),
                wanted@ == wanted_of(ids@),
                f == (|id: u32| self.spec_block_of_id(id)),
                needed@.map_values(|b: usize| b as int) == dedup_seq(wanted@.subrange(0, k as int).map_values(f)),
                forall|j: int| 0 <= j < needed@.len() ==> #[trigger] needed@[j] < self.blocks@.len(),
                needed@.len() <= k,
                id_set_contents(lookup) == Set::new(|x: u32| wanted@.subrange(0, k as int).contains(x)),
                self.blocks@.len() > 0,
            decreases wanted.len() - k,
        {
            let b = self.block_of_id(wanted[k]);
            proof {
                lemma_bsearch_range(self.id_le(wanted@[k as int]), 0, self.blocks@.len() as int);
                let m0 = wanted@.subrange(0, k as int).map_values(f);
                let m1 = wanted@.subrange(0, k + 1).map_values(f);
                assert(m1 =~= m0.push(f(wanted@[k as int])));
                assert(m1.drop_last() =~= m0);
                if m0.len() > 0 {
                    lemma_dedup_seq_last(m0);
                    assert(m1[m1.len() - 2] == m0.last());
                }
            }
            let ghost old_needed = needed@;
            if needed.len() == 0 || needed[needed.len() - 1] != b {
                needed.push(b);
                proof {
                    assert(needed@.map_values(|b: usize| b as int) =~= old_needed.map_values(|b: usize| b as int).push(b as int));
                    if old_needed.len() > 0 {
                        let m0 = wanted@.subrange(0, k as int).map_values(f);
                        assert(old_needed.map_values(|b: usize| b as int).last() == old_needed.last() as int);
                    }
                }
            } else {
                proof {
                    let m0 = wanted@.subrange(0, k as int).map_values(f);
                    assert(old_needed.map_values(|b: usize| b as int).last() == old_needed.last() as int);
                }
            }
            id_set_insert(&mut lookup, wanted[k]);
            proof {
                let s1 = wanted@.subrange(0, k + 1);
                let s0 = wanted@.subrange(0, k as int);
                assert forall|x: u32| s1.contains(x) == (s0.contains(x) || x == wanted@[k as int]) by {
                    if s1.contains(x) {
                        let i = choose|i: int| 0 <= i < s1.len() && s1[i] == x;
                        if i < k {
                            assert(s0[i] == x);
                        }
                    }
                    if s0.contains(x) {
                        let i = choose|i: int| 0 <= i < s0.len() && s0[i] == x;
                        assert(s1[i] == x);
                    }
                    if x == wanted@[k as int] {
                        assert(s1[k as int] == x);
                    }
                }
                assert(Set::new(|x: u32| s1.contains(x))
                    =~= Set::new(|x: u32| s0.contains(x)).insert(wanted@[k as int]));
            }
            k = k + 1;
        }
        assert(wanted@.subrange(0, k as int) =~= wanted@);
        let ghost want = Set::new(|x: u32| wanted@.contains(x));
        let ghost needed_view = needed@.map_values(|b: usize| b as int);
        assert(needed_view == self.needed_of(wanted@));
        if (needed.len() as u128) * 4 > self.blocks.len() as u128 {
            let v = pick_vertices(source, &lookup, 0, 0x1_0000_0000);
            return Ok(v);
        }
        let mut out: Vec<(u32, String)> = Vec::new();
        let mut j: usize = 0;
        while j < needed.len()
            invariant
                j <= needed@.len(),
                needed_view == needed@.map_values(|b: usize| b as int),
                forall|t: int| 0 <= t < needed@.len() ==> #[trigger] needed@[t] < self.blocks@.len(),
                id_set_contents(lookup) == want,
                forall|t: int| 0 <= t < j ==> self.block_in_order(#[trigger] needed_view[t]),
                needed_view == self.needed_of(wanted_of(ids@)),
                want == Set::new(|x: u32| wanted_of(ids@).contains(x)),
                ids@.len() > 0,
                self.blocks@.len() > 0,
                self.sorted_by_id,
                !(needed_view.len() * 4 > self.blocks@.len()),
                pairs_view(out@) == self.sparse_visits(source@, want, needed_view.subrange(0, j as int)),
            decreases needed.len() - j,
        {
            let b = needed[j];
            assert(needed_view[j as int] == b as int);
            let bytes = match self.block_bytes(source, b) {
                Some(x) => x,
                None => {
                    assert(!self.block_in_order(needed_view[j as int]));
                    return Err(LookupError::BrokenIndex);
                },
            };
            let first = self.blocks[b].first_id;
            let n = self.blocks.len();
            let past: u32 = if b + 1 < n { self.blocks[b + 1].first_id } else { 0xFFFF_FFFFu32 };
            let v = pick_vertices(bytes, &lookup, first as u64, past as u64);
            let ghost before = out@;
            let mut v = v;
            let ghost vv = v@;
            out.append(&mut v);
            proof {
                assert(pairs_view(out@) =~= pairs_view(before) + pairs_view(vv));
            }
            proof {
                let nv = needed_view.subrange(0, j + 1);
                assert(nv.drop_last() =~= needed_view.subrange(0, j as int));
                assert(nv.last() == b as int);
                lemma_text_views_agree(bytes@);
            }
            j = j + 1;
        }
        assert(needed_view.subrange(0, j as int) =~= needed_view);
        Ok(out)
    }

    /// Reverse domain of a single node id.
    pub fn name_of(&self, source: &[u8], id: u32) -> (r: Result<Option<String>, LookupError>)
        ensures
            match r {
                Ok(v) => match self.spec_names_of(source@, seq![id]) {
                    Ok(visits) => match v {
                        Some(name) => last_name_of(visits, id) == Some(name@),
                        None => last_name_of(visits, id) is None,
                    },
                    Err(_) => false,
                },
                Err(e) => self.spec_names_of(source@, seq![id]) == Err::<Seq<(u32, Seq<char>)>, LookupError>(e),
            },
    {
        let ids: Vec<u32> = vec![id];
        assert(ids@ =~= seq![id]);
        let visits = self.names_of(source, ids.as_slice())?;
        let ghost view = pairs_view(visits@);
        let mut found: Option<String> = None;
        let mut k: usize = 0;
        while k < visits.len()
            invariant
                k <= visits@.len(),
                view == pairs_view(visits@),
                match found {
                    Some(name) => last_name_of(view.subrange(0, k as int), id) == Some(name@),
                    None => last_name_of(view.subrange(0, k as int), id) is None,
                },
            decreases visits.len() - k,
        {
            proof {
                assert(view.subrange(0, k + 1).drop_last() =~= view.subrange(0, k as int));
            }
            if visits[k].0 == id {
                found = Some(visits[k].1.clone());
            }
            k = k + 1;
        }
        assert(view.subrange(0, k as int) =~= view);
        Ok(found)
    }
}

/// `name -> id` for the records `rs`, a later record overriding an earlier
/// one with the same name.
pub open spec fn spec_name_map(rs: Seq<(u32, Seq<char>)>) -> Map<Seq<char>, u32>
    decreases rs.len(),
{
    if rs.len() == 0 {
        Map::empty()
    } else {
        spec_name_map(rs.drop_last()).insert(rs.last().1, rs.last().0)
    }
}

impl VertexIndex {
    /// What `names_in_blocks` gives for blocks `[from, to)` of the file
    /// `source`: the map, or why not.
    pub open spec fn spec_names_in_blocks(&self, source: Seq<u8>, from: int, to: int) -> Result<Map<Seq<char>, u32>, LookupError> {
        if from >= to || to > self.blocks@.len() {
            Ok(Map::empty())
        } else {
            let start = self.blocks@[from].offset as int;
            let end = self.spec_block_end(to - 1) as int;
            if end < start {
                Err(LookupError::BrokenIndex)
            } else {
                Ok(spec_name_map(vertex_texts(spec_read_range(source, start, end - start))))
            }
        }
    }

    /// `reverse_domain -> id` for blocks `[from, to)`, used by the ranks join.
    pub fn names_in_blocks(&self, source: &[u8], from: usize, to: usize) -> (r: Result<AHashMap<String, u32, RandomState>, LookupError>)
        ensures
            match r {
                Ok(m) => self.spec_names_in_blocks(source@, from as int, to as int) == Ok::<Map<Seq<char>, u32>, LookupError>(name_map_contents(m)),
                Err(e) => self.spec_names_in_blocks(source@, from as int, to as int) == Err::<Map<Seq<char>, u32>, LookupError>(e),
            },
    {
        let mut map = name_map_new();
        if from >= to || to > self.blocks.len() {
            assert(name_map_contents(map) =~= Map::<Seq<char>, u32>::empty());
            return Ok(map);
        }
        let start = self.blocks[from].offset;
        let end = self.block_end(to - 1);
        if end < start {
            return Err(LookupError::BrokenIndex);
        }
        let bytes = read_range(source, start, end - start);
        let records = for_each_vertex(bytes);
        let ghost view = text_view(bytes@);
        proof {
            lemma_text_views_agree(bytes@);
        }
        let mut k: usize = 0;
        assert(name_map_contents(map) =~= spec_name_map(view.subrange(0, 0)));
        while k < records.len()
            invariant
                k <= records@.len() == view.len(),
                view == text_view(bytes@),
                forall|j: int| 0 <= j < records@.len() ==> (#[trigger] records@[j]).0 == view[j].0 && records@[j].1@ == view[j].1,
                name_map_contents(map) == spec_name_map(view.subrange(0, k as int)),
            decreases records.len() - k,
        {
            proof {
                assert(view.subrange(0, k + 1).drop_last() =~= view.subrange(0, k as int));
            }
            let name = records[k].1.clone();
            name_map_insert(&mut map, name, records[k].0);
            k = k + 1;
        }
        assert(view.subrange(0, k as int) =~= view);
        Ok(map)
    }
}

} // verus!
