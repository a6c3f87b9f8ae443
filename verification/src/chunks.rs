//! Sequential reading in batches of whole lines.
//!
//! The reader holds what was read and not yet handed out; whoever owns the
//! file feeds it bytes when it asks for them. Every batch it hands out ends
//! on a line boundary (but the last line of a file without a final newline),
//! the batches follow each other without a gap, and together they are the
//! input exactly: no record is ever cut in two.

use vstd::prelude::*;
use crate::lines::find_last_byte;
use crate::binary::put_bytes;

verus! {

/// What the reader needs next.
#[derive(Debug, Clone, Copy, PartialEq, Eq, Structural)]
pub enum ChunkStep {
    /// Feed it more bytes (an empty feed is the end of the input).
    NeedBytes,
    /// A batch of whole lines is ready: `lines()`, starting at this offset
    /// of the input.
    Lines(u64),
    /// Everything was handed out.
    Finished,
}

/// Batches of whole lines over a byte stream fed from outside.
pub struct ChunkReader {
    /// What was read and not yet retired; its first byte is `base` of the input.
    buf: Vec<u8>,
    /// How many bytes of `buf` the last batch handed out.
    taken: usize,
    base: u64,
    /// How much to hold before looking for a line end.
    chunk: usize,
    eof: bool,
    /// Size of the file on disk, for progress.
    pub file_size: u64,
    /// Everything fed so far.
    fed: Ghost<Seq<u8>>,
}

impl ChunkReader {
    /// Everything fed so far.
    pub closed spec fn input(&self) -> Seq<u8> {
        self.fed@
    }

    /// What the batches handed out so far hold, in order.
    pub closed spec fn handed(&self) -> Seq<u8> {
        self.fed@.subrange(0, self.base + self.taken)
    }

    /// Size of the file on disk.
    pub closed spec fn size(&self) -> u64 {
        self.file_size
    }

    /// The end of the input was fed.
    pub closed spec fn at_end(&self) -> bool {
        self.eof
    }

    /// The current batch.
    pub closed spec fn batch(&self) -> Seq<u8> {
        self.buf@.subrange(0, self.taken as int)
    }

    pub closed spec fn wf(&self) -> bool {
        &&& self.chunk > 0
        &&& self.taken <= self.buf@.len()
        &&& self.base + self.buf@.len() == self.fed@.len()
        &&& self.fed@.len() <= u64::MAX
        &&& self.fed@.subrange(self.base as int, self.fed@.len() as int) == self.buf@
    }

    /// A reader that holds `chunk` bytes before it looks for a line end.
    pub fn new(file_size: u64, chunk: usize) -> (r: ChunkReader)
        requires
            chunk > 0,
        ensures
            r.wf(),
            r.input() == Seq::<u8>::empty(),
            r.handed() == Seq::<u8>::empty(),
            !r.at_end(),
            r.size() == file_size,
    {
        let r = ChunkReader { buf: Vec::new(), taken: 0, base: 0, chunk, eof: false, file_size, fed: Ghost(Seq::empty()) };
        assert(r.fed@.subrange(0, 0) =~= Seq::<u8>::empty());
        r
    }

    /// How many bytes were fed so far.
    pub fn fed_len(&self) -> (r: u64)
        requires
            self.wf(),
        ensures
            r == self.input().len(),
    {
        self.base + self.buf.len() as u64
    }

    /// Hand the reader the next bytes of the input; none means the input ended.
    pub fn feed(&mut self, data: &[u8])
        requires
            old(self).wf(),
            !old(self).at_end(),
            old(self).input().len() + data@.len() <= u64::MAX,
        ensures
            final(self).wf(),
            final(self).input() == old(self).input() + data@,
            final(self).handed() == old(self).handed(),
            final(self).batch() == old(self).batch(),
            final(self).at_end() == (data@.len() == 0),
    {
        if data.len() == 0 {
            self.eof = true;
            return;
        }
        let ghost old_buf = self.buf@;
        let mut i: usize = 0;
        while i < data.len()
            invariant
                i <= data@.len(),
                self.buf@ == old_buf + data@.subrange(0, i as int),
                self.fed == old(self).fed,
                self.base == old(self).base,
                self.taken == old(self).taken,
                self.chunk == old(self).chunk,
                self.eof == old(self).eof,
                old(self).buf@ == old_buf,
            decreases data.len() - i,
        {
            self.buf.push(data[i]);
            proof {
                assert(old_buf + data@.subrange(0, i + 1) =~= (old_buf + data@.subrange(0, i as int)).push(data@[i as int]));
            }
            i = i + 1;
        }
        let ghost before = self.fed@;
        self.fed = Ghost(before + data@);
        proof {
            assert(data@.subrange(0, data@.len() as int) =~= data@);
            assert(self.fed@.subrange(self.base as int, self.fed@.len() as int) =~= self.buf@) by {
                assert(before.subrange(self.base as int, before.len() as int) == old_buf);
            }
            assert(self.fed@.subrange(0, self.base + self.taken) =~= before.subrange(0, self.base + self.taken));
            assert(self.buf@.subrange(0, self.taken as int) =~= old_buf.subrange(0, self.taken as int));
        }
    }

    /// The current batch of whole lines.
    pub fn lines(&self) -> (r: &[u8])
        requires
            self.wf(),
        ensures
            r@ == self.batch(),
    {
        let s = self.buf.as_slice();
        &s[0..self.taken]
    }

    /// The next move: retire the batch handed out last, then ask for bytes,
    /// hand out the whole lines held, or say that all was handed out.
    pub fn next_lines(&mut self) -> (r: ChunkStep)
        requires
            old(self).wf(),
        ensures
            final(self).wf(),
            final(self).input() == old(self).input(),
            final(self).at_end() == old(self).at_end(),
            match r {
                ChunkStep::NeedBytes => !final(self).at_end() && final(self).handed() == old(self).handed()
                    && final(self).batch().len() == 0,
                ChunkStep::Lines(at) => at == old(self).handed().len()
                    && final(self).batch().len() > 0
                    && final(self).handed() == old(self).handed() + final(self).batch()
                    && (final(self).batch().last() == 10 || (final(self).at_end()
                        && final(self).handed() == final(self).input())),
                ChunkStep::Finished => final(self).at_end() && final(self).handed() == final(self).input()
                    && final(self).handed() == old(self).handed() && final(self).batch().len() == 0,
            },
    {
        let ghost handed0 = self.fed@.subrange(0, self.base + self.taken);
        if self.taken > 0 {
            let ghost b0 = self.buf@;
            let ghost base0 = self.base as int;
            let t = self.taken;
            let rest = self.buf.split_off(t);
            self.buf = rest;
            self.base = self.base + t as u64;
            self.taken = 0;
            proof {
                let f = self.fed@;
                assert(f.subrange(base0, f.len() as int) == b0);
                assert forall|k: int| 0 <= k < self.buf@.len() implies #[trigger] f.subrange(self.base as int, f.len() as int)[k] == self.buf@[k] by {
                    assert(f.subrange(base0, f.len() as int)[k + t] == f[base0 + t + k]);
                }
                assert(f.subrange(self.base as int, f.len() as int) =~= self.buf@);
            }
        }
        proof {
            assert(self.fed@.subrange(0, self.base + self.taken) == handed0);
            assert(self.buf@.subrange(0, 0) =~= Seq::<u8>::empty());
        }
        let len = self.buf.len();
        if !self.eof && len < self.chunk {
            return ChunkStep::NeedBytes;
        }
        if len == 0 {
            proof {
                assert(self.fed@.subrange(0, self.base as int) =~= self.fed@);
            }
            return ChunkStep::Finished;
        }
        let end: usize = match find_last_byte(10u8, self.buf.as_slice()) {
            Some(pos) => pos + 1,
            None => {
                if self.eof {
                    len
                } else {
                    self.chunk = if self.chunk <= usize::MAX - len { self.chunk + len } else { usize::MAX };
                    return ChunkStep::NeedBytes;
                }
            },
        };
        self.taken = end;
        proof {
            let f = self.fed@;
            let b = self.base as int;
            assert(self.fed@.subrange(0, b + end) =~= handed0 + self.buf@.subrange(0, end as int)) by {
                assert(f.subrange(b, f.len() as int) == self.buf@);
                assert forall|k: int| 0 <= k < b + end implies #[trigger] f.subrange(0, b + end)[k]
                    == (handed0 + self.buf@.subrange(0, end as int))[k] by {
                    if k >= b {
                        assert(f.subrange(b, f.len() as int)[k - b] == f[k]);
                    }
                }
            }
            if end == len {
                assert(self.fed@.subrange(0, b + end) =~= self.fed@);
            }
        }
        ChunkStep::Lines(self.base)
    }
}


/// The texts of batches.
pub open spec fn batch_texts(bs: Seq<(u64, Vec<u8>)>) -> Seq<Seq<u8>> {
    bs.map_values(|b: (u64, Vec<u8>)| b.1@)
}

/// What the batches handed out so far say: they follow each other from
/// offset 0 without a gap, none is empty, and each but the last ends a line.
pub open spec fn batches_ok(bs: Seq<(u64, Vec<u8>)>) -> bool {
    &&& forall|k: int| 0 <= k < bs.len() ==> (#[trigger] bs[k]).1@.len() > 0
    &&& forall|k: int| 0 <= k < bs.len() - 1 ==> (#[trigger] bs[k]).1@.last() == 10
    &&& forall|k: int| 0 <= k < bs.len() ==> (#[trigger] bs[k]).0 == batch_texts(bs.subrange(0, k)).flatten().len()
}

impl ChunkReader {
    proof fn lemma_handed_prefix(&self)
        requires
            self.wf(),
        ensures
            self.handed().len() <= self.input().len(),
            self.handed() == self.input().subrange(0, self.handed().len() as int),
    {
    }
}

/// Read `content` through a reader, `piece` bytes per feed, holding at least
/// `chunk` bytes before it looks for a line end: the batches it hands out,
/// each with the offset it starts at. Together they are `content` exactly:
/// they follow each other from offset 0, none is empty, and every batch but
/// the last ends with a newline, so no line is ever cut in two.
#[verifier::spinoff_prover]
#[verifier::rlimit(80)]
pub fn batches_of(content: &[u8], chunk: usize, piece: usize) -> (r: Vec<(u64, Vec<u8>)>)
    requires
        chunk > 0,
        piece > 0,
        content@.len() <= u64::MAX,
    ensures
        batch_texts(r@).flatten() == content@,
        batches_ok(r@),
{
    let n = content.len();
    let mut reader = ChunkReader::new(n as u64, chunk);
    let mut pos: usize = 0;
    let mut out: Vec<(u64, Vec<u8>)> = Vec::new();
    let mut done = false;
    assert(batch_texts(out@) =~= Seq::<Seq<u8>>::empty());
    while !done
        invariant
            reader.wf(),
            piece > 0,
            pos <= n == content@.len(),
            n <= u64::MAX,
            reader.input() == content@.subrange(0, pos as int),
            reader.at_end() ==> pos == n,
            reader.handed() == batch_texts(out@).flatten(),
            batches_ok(out@),
            out@.len() > 0 && out@.last().1@.last() != 10 ==> reader.at_end() && reader.handed() == reader.input(),
            done ==> reader.handed() == content@,
        decreases 2 * (n - pos) + (reader.input().len() - reader.handed().len()) + (if reader.at_end() { 0int } else { 1int }),
            if done { 0int } else { 1int },
    {
        proof {
            reader.lemma_handed_prefix();
        }
        let ghost before = reader.handed();
        match reader.next_lines() {
            ChunkStep::NeedBytes => {
                let end: usize = if n - pos > piece { pos + piece } else { n };
                let ghost fed = reader.input();
                let data = &content[pos..end];
                assert(data@ == content@.subrange(pos as int, end as int));
                assert(data@.len() == end - pos);
                reader.feed(data);
                proof {
                    assert(fed + content@.subrange(pos as int, end as int) =~= content@.subrange(0, end as int));
                }
                pos = end;
            },
            ChunkStep::Lines(at) => {
                let mut b: Vec<u8> = Vec::new();
                put_bytes(&mut b, reader.lines());
                let ghost old_out = out@;
                proof {
                    reader.lemma_handed_prefix();
                    assert(b@ == reader.batch());
                    if old_out.len() > 0 && old_out.last().1@.last() != 10 {
                        assert(before == reader.input());
                        assert(false);
                    }
                }
                out.push((at, b));
                proof {
                    let nb = out@;
                    assert(nb.drop_last() =~= old_out);
                    assert(batch_texts(nb) =~= batch_texts(old_out).push(b@));
                    batch_texts(old_out).lemma_flatten_push(b@);
                    assert forall|k: int| 0 <= k < nb.len() implies (#[trigger] nb[k]).0 == batch_texts(nb.subrange(0, k)).flatten().len() by {
                        if k < old_out.len() {
                            assert(nb[k] == old_out[k]);
                            assert(nb.subrange(0, k) =~= old_out.subrange(0, k));
                        } else {
                            assert(nb.subrange(0, k) =~= old_out);
                        }
                    }
                    assert forall|k: int| 0 <= k < nb.len() - 1 implies (#[trigger] nb[k]).1@.last() == 10 by {
                        assert(nb[k] == old_out[k]);
                    }
                    assert forall|k: int| 0 <= k < nb.len() implies (#[trigger] nb[k]).1@.len() > 0 by {
                        if k < old_out.len() {
                            assert(nb[k] == old_out[k]);
                        }
                    }
                }
            },
            ChunkStep::Finished => {
                done = true;
            },
        }
    }
    out
}

} // verus!
