//! Newline-safe partitioning of an immutable byte region into contiguous
//! chunks. A chunk's end is found by scanning forward from the tentative end
//! `cursor + chunk_size` to one past the first newline, or to the region end,
//! so no record is ever split across a chunk boundary, and concatenating the
//! chunks in source order reproduces the region exactly.

use vstd::prelude::*;
use vstd::slice::slice_index_get;

use crate::parse::NL;

verus! {

/// A newline-aligned byte range `[start, end)` of the source region. A view,
/// not a copy: workers read the region through it.
#[derive(Clone, Copy, Debug, PartialEq, Eq, Structural)]
pub struct Chunk {
    pub start: usize,
    pub end: usize,
}

/// One past the first newline at or after `i`, or the region end if no
/// newline follows.
pub open spec fn scan_nl(r: Seq<u8>, i: int) -> int
    recommends
        0 <= i <= r.len(),
    decreases r.len() - i,
{
    if i < 0 {
        0
    } else if i >= r.len() {
        r.len() as int
    } else if r[i] == NL {
        i + 1
    } else {
        scan_nl(r, i + 1)
    }
}

/// Where the chunk that starts at `start` ends: scan from the tentative end
/// `min(start + size, len)`.
pub open spec fn chunk_end(r: Seq<u8>, start: int, size: int) -> int {
    scan_nl(
        r,
        if start + size <= r.len() {
            start + size
        } else {
            r.len() as int
        },
    )
}

/// The splitter: owns a cursor over the immutable byte region and hands out
/// the next newline-aligned chunk on demand.
pub struct SplitReader<'f> {
    pub f: &'f [u8],
    pub cursor: usize,
    pub chunk_size: usize,
}

impl<'f> SplitReader<'f> {
    /// The cursor always sits at the start of the region, at its end, or
    /// just past a newline, so every chunk begins on a record boundary.
    pub open spec fn wf(&self) -> bool {
        &&& self.chunk_size >= 1
        &&& self.cursor <= self.f@.len()
        &&& (self.cursor == 0 || self.cursor == self.f@.len() || self.f@[self.cursor as int
            - 1] == NL)
    }

    pub fn new(f: &'f [u8], chunk_size: usize) -> (r: SplitReader<'f>)
        requires
            chunk_size >= 1,
        ensures
            r.wf(),
            r.f@ == f@,
            r.cursor == 0,
            r.chunk_size == chunk_size,
    {
        SplitReader { f, cursor: 0, chunk_size }
    }

    /// Yields the next chunk, or nothing once the cursor has reached the
    /// region end. The returned range starts at the old cursor, ends one
    /// past the first newline at or after the tentative end (or at the
    /// region end), and the cursor advances to exactly that boundary.
    pub fn next(&mut self) -> (r: Option<Chunk>)
        requires
            old(self).wf(),
        ensures
            final(self).wf(),
            final(self).f@ == old(self).f@,
            final(self).chunk_size == old(self).chunk_size,
            r.is_none() <==> old(self).cursor == old(self).f@.len(),
            r.is_none() ==> final(self).cursor == old(self).cursor,
            r matches Some(c) ==> {
                &&& c.start == old(self).cursor
                &&& c.start < c.end
                &&& c.end <= old(self).f@.len()
                &&& c.end as int == chunk_end(
                    old(self).f@,
                    c.start as int,
                    old(self).chunk_size as int,
                )
                &&& final(self).cursor == c.end
                &&& (c.end == old(self).f@.len() || old(self).f@[c.end - 1] == NL)
            },
    {
        let len = self.f.len();
        if self.cursor >= len {
            return None;
        }
        let start = self.cursor;
        let mut e: usize = if len - start > self.chunk_size {
            start + self.chunk_size
        } else {
            len
        };
        while e < len && *slice_index_get(self.f, e) != NL
            invariant
                len == self.f@.len(),
                start < e <= len,
                scan_nl(self.f@, e as int) == chunk_end(
                    self.f@,
                    start as int,
                    self.chunk_size as int,
                ),
            decreases len - e,
        {
            e = e + 1;
        }
        if e < len {
            e = e + 1;
        }
        self.cursor = e;
        Some(Chunk { start, end: e })
    }
}

/// The chunks form an exact, contiguous, newline-aligned partition of the
/// region.
pub open spec fn is_partition(r: Seq<u8>, cs: Seq<Chunk>) -> bool {
    &&& (r.len() == 0 ==> cs.len() == 0)
    &&& (r.len() > 0 ==> cs.len() > 0 && cs[0].start == 0 && cs[cs.len() - 1].end == r.len())
    &&& forall|i: int| 0 <= i < cs.len() ==> (#[trigger] cs[i]).start < cs[i].end <= r.len()
    &&& forall|i: int| 0 <= i < cs.len() - 1 ==> (#[trigger] cs[i]).end == cs[i + 1].start
    &&& forall|i: int|
        0 <= i < cs.len() ==> ((#[trigger] cs[i]).end == r.len() || r[cs[i].end - 1] == NL)
}

/// The bytes of the chunks, concatenated in source order.
pub open spec fn concat_chunks(r: Seq<u8>, cs: Seq<Chunk>) -> Seq<u8>
    decreases cs.len(),
{
    if cs.len() == 0 {
        Seq::empty()
    } else {
        concat_chunks(r, cs.drop_last()) + r.subrange(
            cs.last().start as int,
            cs.last().end as int,
        )
    }
}

pub proof fn lemma_concat_chunks_prefix(r: Seq<u8>, cs: Seq<Chunk>)
    requires
        cs.len() > 0,
        cs[0].start == 0,
        forall|i: int| 0 <= i < cs.len() ==> (#[trigger] cs[i]).start <= cs[i].end <= r.len(),
        forall|i: int| 0 <= i < cs.len() - 1 ==> (#[trigger] cs[i]).end == cs[i + 1].start,
    ensures
        concat_chunks(r, cs) == r.subrange(0, cs[cs.len() - 1].end as int),
    decreases cs.len(),
{
    if cs.len() == 1 {
        assert(concat_chunks(r, cs) == concat_chunks(r, cs.drop_last()) + r.subrange(
            cs[0].start as int,
            cs[0].end as int,
        ));
        assert(concat_chunks(r, cs.drop_last()) == Seq::<u8>::empty());
        assert(Seq::<u8>::empty() + r.subrange(0, cs[0].end as int) =~= r.subrange(
            0,
            cs[0].end as int,
        ));
    } else {
        let cs0 = cs.drop_last();
        assert(forall|i: int| 0 <= i < cs0.len() ==> cs0[i] == cs[i]);
        lemma_concat_chunks_prefix(r, cs0);
        let a = cs[cs.len() - 2].end as int;
        let b = cs[cs.len() - 1].end as int;
        assert(cs.last().start == a);
        assert(r.subrange(0, a) + r.subrange(a, b) =~= r.subrange(0, b));
    }
}

/// Exact partition: concatenating, in source order, every chunk of a
/// partition reproduces the source byte region exactly — no byte
/// duplicated, none dropped.
pub proof fn lemma_chunks_partition(r: Seq<u8>, cs: Seq<Chunk>)
    requires
        is_partition(r, cs),
    ensures
        concat_chunks(r, cs) == r,
{
    if r.len() == 0 {
        assert(concat_chunks(r, cs) =~= r);
    } else {
        lemma_concat_chunks_prefix(r, cs);
        assert(r.subrange(0, r.len() as int) =~= r);
    }
}

/// Drains a fresh splitter over the whole region and returns every chunk it
/// yields, in source order: an exact, newline-aligned partition.
pub fn split_all(f: &[u8], chunk_size: usize) -> (cs: Vec<Chunk>)
    requires
        chunk_size >= 1,
    ensures
        is_partition(f@, cs@),
        concat_chunks(f@, cs@) == f@,
        forall|i: int|
            0 <= i < cs@.len() ==> (#[trigger] cs@[i]).end as int == chunk_end(
                f@,
                cs@[i].start as int,
                chunk_size as int,
            ),
{
    let mut reader = SplitReader::new(f, chunk_size);
    let mut cs: Vec<Chunk> = Vec::new();
    let len = f.len();
    let mut more = true;
    while more
        invariant
            reader.wf(),
            reader.f@ == f@,
            reader.chunk_size == chunk_size,
            len == f@.len(),
            more ==> (cs@.len() == 0 && reader.cursor == 0) || (cs@.len() > 0 && cs@[0].start == 0
                && cs@[cs@.len() - 1].end == reader.cursor),
            !more ==> reader.cursor == len,
            !more ==> is_partition(f@, cs@),
            forall|i: int| 0 <= i < cs@.len() ==> (#[trigger] cs@[i]).start < cs@[i].end <= len,
            forall|i: int| 0 <= i < cs@.len() - 1 ==> (#[trigger] cs@[i]).end == cs@[i + 1].start,
            forall|i: int|
                0 <= i < cs@.len() ==> ((#[trigger] cs@[i]).end == len || f@[cs@[i].end - 1] == NL),
            forall|i: int|
                0 <= i < cs@.len() ==> (#[trigger] cs@[i]).end as int == chunk_end(
                    f@,
                    cs@[i].start as int,
                    chunk_size as int,
                ),
        decreases len - reader.cursor + (if more {
            1int
        } else {
            0int
        }),
    {
        match reader.next() {
            None => {
                more = false;
            },
            Some(c) => {
                cs.push(c);
            },
        }
    }
    proof {
        lemma_chunks_partition(f@, cs@);
    }
    cs
}

} // verus!
