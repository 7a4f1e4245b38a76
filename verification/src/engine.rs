//! The worker and driver logic: split a chunk into lines, parse each line,
//! fold every record into an aggregate, and drain a splitter over a whole
//! region. The model ties everything to `lines_of`, the line decomposition
//! of the byte region, so the result of a run is a function of the region's
//! bytes alone — independent of chunk size and of how chunks are assigned.

use vstd::prelude::*;
use vstd::slice::slice_subrange;

use crate::agg::Aggregate;
use crate::agg::Rec;
use crate::agg::agg_add_all;
use crate::agg::agg_of;
use crate::agg::lemma_add_all_concat;
use crate::agg::lemma_count_le_records;
use crate::parse::MalformedRecordError;
use crate::parse::NL;
use crate::parse::find_byte;
use crate::parse::find_first;
use crate::parse::lemma_find_byte;
use crate::parse::lemma_find_byte_eq;
use crate::parse::line_key;
use crate::parse::line_ok;
use crate::parse::line_val;
use crate::parse::parse_line;
use crate::splitter::SplitReader;
use crate::stats::StatModel;

verus! {

/// The lines of a byte region: maximal newline-free segments, with a
/// trailing newline optional on the last line.
pub open spec fn lines_of(s: Seq<u8>) -> Seq<Seq<u8>>
    decreases s.len(),
    via lines_of_dec
{
    if s.len() == 0 {
        Seq::empty()
    } else {
        let p = find_byte(s, NL);
        if p == s.len() {
            seq![s]
        } else {
            seq![s.subrange(0, p)] + lines_of(s.subrange(p + 1, s.len() as int))
        }
    }
}

#[via_fn]
proof fn lines_of_dec(s: Seq<u8>) {
    lemma_find_byte(s, NL);
}

/// The records named by a sequence of lines.
pub open spec fn recs_of(ls: Seq<Seq<u8>>) -> Seq<Rec> {
    ls.map_values(|l: Seq<u8>| Rec { key: line_key(l), val: line_val(l) })
}

pub open spec fn all_lines_ok(ls: Seq<Seq<u8>>) -> bool {
    forall|i: int| 0 <= i < ls.len() ==> line_ok(#[trigger] ls[i])
}

/// A region is acceptable input when every one of its lines matches the
/// record format.
pub open spec fn input_ok(region: Seq<u8>) -> bool {
    all_lines_ok(lines_of(region))
}

/// The final aggregate of a region: a function of the region's bytes alone.
pub open spec fn final_of(region: Seq<u8>) -> Map<Seq<u8>, StatModel> {
    agg_of(recs_of(lines_of(region)))
}

/// Lines distribute over concatenation at a newline boundary.
pub proof fn lemma_lines_concat(a: Seq<u8>, b: Seq<u8>)
    requires
        a.len() == 0 || a.last() == NL,
    ensures
        lines_of(a + b) == lines_of(a) + lines_of(b),
    decreases a.len(),
{
    if a.len() == 0 {
        assert(a + b =~= b);
        assert(lines_of(a) + lines_of(b) =~= lines_of(b));
    } else {
        lemma_find_byte(a, NL);
        let p = find_byte(a, NL);
        assert(p < a.len()) by {
            if p == a.len() {
                assert(a[a.len() - 1] != NL);
            }
        }
        let s = a + b;
        assert(forall|j: int| 0 <= j < p ==> s[j] == a[j]);
        assert(s[p] == a[p]);
        lemma_find_byte_eq(s, NL, p);
        assert(s.subrange(0, p) =~= a.subrange(0, p));
        let atail = a.subrange(p + 1, a.len() as int);
        assert(s.subrange(p + 1, s.len() as int) =~= atail + b);
        assert(atail.len() == 0 || atail.last() == NL) by {
            if atail.len() > 0 {
                assert(atail.last() == a.last());
            }
        }
        lemma_lines_concat(atail, b);
        assert(lines_of(s) == seq![a.subrange(0, p)] + (lines_of(atail) + lines_of(b)));
        assert(lines_of(a) == seq![a.subrange(0, p)] + lines_of(atail));
        assert(seq![a.subrange(0, p)] + (lines_of(atail) + lines_of(b)) =~= (seq![
            a.subrange(0, p),
        ] + lines_of(atail)) + lines_of(b));
    }
}

/// A region of `n` bytes has at most `n` lines.
pub proof fn lemma_lines_count(s: Seq<u8>)
    ensures
        lines_of(s).len() <= s.len(),
    decreases s.len(),
{
    if s.len() > 0 {
        lemma_find_byte(s, NL);
        let p = find_byte(s, NL);
        if p < s.len() {
            lemma_lines_count(s.subrange(p + 1, s.len() as int));
        }
    }
}

pub proof fn lemma_recs_concat(l1: Seq<Seq<u8>>, l2: Seq<Seq<u8>>)
    ensures
        recs_of(l1 + l2) == recs_of(l1) + recs_of(l2),
{
    assert(recs_of(l1 + l2) =~= recs_of(l1) + recs_of(l2));
}

/// The worker's inner loop: split one chunk into lines, parse each line,
/// and fold every record into the accumulator. Fails, leaving the
/// accumulator well formed but partially updated, exactly when some line of
/// the chunk is malformed.
pub fn process_chunk(chunk: &[u8], acc: &mut Aggregate) -> (r: Result<(), MalformedRecordError>)
    requires
        old(acc).wf(),
        forall|k: Seq<u8>| #[trigger]
            old(acc)@.dom().contains(k) ==> old(acc)@[k].count + chunk@.len() <= usize::MAX,
    ensures
        final(acc).wf(),
        r.is_ok() <==> all_lines_ok(lines_of(chunk@)),
        r.is_ok() ==> final(acc)@ == agg_add_all(old(acc)@, recs_of(lines_of(chunk@))),
{
    let len = chunk.len();
    let mut pos: usize = 0;
    while pos < len
        invariant
            len == chunk@.len(),
            0 <= pos <= len,
            pos == 0 || chunk@[pos as int - 1] == NL,
            acc.wf(),
            acc@ == agg_add_all(old(acc)@, recs_of(lines_of(chunk@.subrange(0, pos as int)))),
            all_lines_ok(lines_of(chunk@.subrange(0, pos as int))),
            forall|k: Seq<u8>| #[trigger]
                acc@.dom().contains(k) ==> acc@[k].count + (len - pos) <= usize::MAX,
        decreases len - pos,
    {
        let ghost prefix = chunk@.subrange(0, pos as int);
        let rest = slice_subrange(chunk, pos, len);
        let q = find_first(rest, NL);
        proof {
            lemma_find_byte(rest@, NL);
            assert(chunk@ =~= prefix + rest@);
            lemma_lines_concat(prefix, rest@);
        }
        let line = slice_subrange(rest, 0, q);
        match parse_line(line) {
            Err(e) => {
                proof {
                    let li = lines_of(prefix).len() as int;
                    if (q as int) < len - pos {
                        assert(lines_of(rest@) == seq![rest@.subrange(0, q as int)] + lines_of(
                            rest@.subrange(q as int + 1, rest@.len() as int),
                        ));
                        assert(lines_of(chunk@)[li] == lines_of(rest@)[0]);
                        assert(lines_of(rest@)[0] == line@);
                    } else {
                        assert(lines_of(rest@) == seq![rest@]);
                        assert(lines_of(chunk@)[li] == rest@);
                        assert(line@ =~= rest@);
                    }
                    assert(!line_ok(lines_of(chunk@)[li]));
                }
                return Err(e);
            },
            Ok(m) => {
                let ghost before = acc@;
                proof {
                    assert(len - pos >= 1);
                }
                acc.record(m.name.as_slice(), m.temp);
                let ghost rec = (Rec { key: line_key(line@), val: line_val(line@) });
                if q == len - pos {
                    proof {
                        assert(line@ =~= rest@);
                        assert(lines_of(rest@) == seq![rest@]);
                        assert(lines_of(chunk@) =~= lines_of(prefix) + seq![rest@]);
                        let rs2 = recs_of(lines_of(chunk@));
                        assert(rs2.drop_last() =~= recs_of(lines_of(prefix)));
                        assert(rs2.last() == rec);
                        assert(agg_add_all(old(acc)@, rs2) == acc@);
                        assert forall|i: int| 0 <= i < lines_of(chunk@).len() implies line_ok(
                            #[trigger] lines_of(chunk@)[i],
                        ) by {
                            if i < lines_of(prefix).len() {
                                assert(lines_of(chunk@)[i] == lines_of(prefix)[i]);
                            } else {
                                assert(lines_of(chunk@)[i] == rest@);
                            }
                        }
                    }
                    return Ok(());
                }
                pos = pos + q + 1;
                proof {
                    let newprefix = chunk@.subrange(0, pos as int);
                    let withnl = rest@.subrange(0, q as int + 1);
                    assert(newprefix =~= prefix + withnl);
                    assert(withnl[q as int] == NL);
                    assert(forall|j: int| 0 <= j < q ==> withnl[j] == rest@[j]);
                    lemma_find_byte_eq(withnl, NL, q as int);
                    assert(withnl.last() == NL);
                    lemma_lines_concat(prefix, withnl);
                    assert(lines_of(withnl) == seq![withnl.subrange(0, q as int)] + lines_of(
                        withnl.subrange(q as int + 1, withnl.len() as int),
                    ));
                    assert(withnl.subrange(q as int + 1, withnl.len() as int).len() == 0);
                    assert(withnl.subrange(0, q as int) =~= line@);
                    assert(lines_of(withnl) =~= seq![line@]);
                    assert(lines_of(newprefix) =~= lines_of(prefix) + seq![line@]);
                    let rs2 = recs_of(lines_of(newprefix));
                    assert(rs2.drop_last() =~= recs_of(lines_of(prefix)));
                    assert(rs2.last() == rec);
                    assert(agg_add_all(old(acc)@, rs2) == acc@);
                    assert forall|i: int| 0 <= i < lines_of(newprefix).len() implies line_ok(
                        #[trigger] lines_of(newprefix)[i],
                    ) by {
                        if i < lines_of(prefix).len() {
                            assert(lines_of(newprefix)[i] == lines_of(prefix)[i]);
                        } else {
                            assert(lines_of(newprefix)[i] == line@);
                        }
                    }
                }
            },
        }
    }
    proof {
        assert(chunk@.subrange(0, len as int) =~= chunk@);
    }
    Ok(())
}

/// The whole single-region computation: drain a fresh splitter over the
/// region, folding every chunk's records into one aggregate. The result is
/// `final_of(region)` — the same mapping for every chunk size — and the
/// computation fails exactly when some line of the region is malformed.
pub fn run(region: &[u8], chunk_size: usize) -> (r: Result<Aggregate, MalformedRecordError>)
    requires
        chunk_size >= 1,
    ensures
        r.is_ok() <==> input_ok(region@),
        r matches Ok(a) ==> a.wf() && a@ == final_of(region@),
{
    let len = region.len();
    let mut reader = SplitReader::new(region, chunk_size);
    let mut acc = Aggregate::new_empty();
    let mut more = true;
    while more
        invariant
            len == region@.len(),
            reader.wf(),
            reader.f@ == region@,
            reader.chunk_size == chunk_size,
            acc.wf(),
            acc@ == agg_of(recs_of(lines_of(region@.subrange(0, reader.cursor as int)))),
            all_lines_ok(lines_of(region@.subrange(0, reader.cursor as int))),
            !more ==> reader.cursor == len,
        decreases len - reader.cursor + (if more {
            1int
        } else {
            0int
        }),
    {
        let ghost pre = region@.subrange(0, reader.cursor as int);
        match reader.next() {
            None => {
                more = false;
            },
            Some(c) => {
                let chunk = slice_subrange(region, c.start, c.end);
                let ghost mid = region@.subrange(c.start as int, c.end as int);
                proof {
                    assert forall|k: Seq<u8>| #[trigger] acc@.dom().contains(k) implies acc@[k].count
                        + mid.len() <= usize::MAX by {
                        lemma_count_le_records(recs_of(lines_of(pre)), k);
                        lemma_lines_count(pre);
                    }
                }
                match process_chunk(chunk, &mut acc) {
                    Err(e) => {
                        proof {
                            let post = region@.subrange(c.end as int, len as int);
                            assert(region@ =~= pre + (mid + post));
                            lemma_lines_concat(pre, mid + post);
                            if c.end < len {
                                assert(mid.last() == NL);
                                lemma_lines_concat(mid, post);
                            } else {
                                assert(post.len() == 0);
                                assert(mid + post =~= mid);
                                assert(lines_of(mid + post) =~= lines_of(mid));
                            }
                            let bad = choose|i: int|
                                0 <= i < lines_of(mid).len() && !line_ok(lines_of(mid)[i]);
                            let gi = lines_of(pre).len() + bad;
                            assert(lines_of(region@) == lines_of(pre) + (lines_of(mid) + lines_of(
                                region@.subrange(c.end as int, len as int),
                            )));
                            assert(lines_of(region@)[gi] == lines_of(mid)[bad]);
                            assert(!line_ok(lines_of(region@)[gi]));
                        }
                        return Err(e);
                    },
                    Ok(()) => {
                        proof {
                            let newpre = region@.subrange(0, c.end as int);
                            assert(newpre =~= pre + mid);
                            lemma_lines_concat(pre, mid);
                            assert(lines_of(newpre) == lines_of(pre) + lines_of(mid));
                            lemma_recs_concat(lines_of(pre), lines_of(mid));
                            lemma_add_all_concat(
                                Map::empty(),
                                recs_of(lines_of(pre)),
                                recs_of(lines_of(mid)),
                            );
                            assert forall|i: int|
                                0 <= i < lines_of(newpre).len() implies line_ok(
                                #[trigger] lines_of(newpre)[i],
                            ) by {
                                if i < lines_of(pre).len() {
                                    assert(lines_of(newpre)[i] == lines_of(pre)[i]);
                                } else {
                                    assert(lines_of(newpre)[i] == lines_of(mid)[i - lines_of(
                                        pre,
                                    ).len()]);
                                }
                            }
                        }
                    },
                }
            },
        }
    }
    proof {
        assert(region@.subrange(0, len as int) =~= region@);
    }
    Ok(acc)
}

} // verus!
