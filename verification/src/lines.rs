//! Splitting a source text into lines.
use vstd::prelude::*;
use vstd::utf8::*;
use crate::bytes::lemma_valid_cut_ascii;

verus! {

pub const NEWLINE: u8 = 10;
pub const CARRIAGE_RETURN: u8 = 13;

/// The pieces of `s` between newline bytes. A trailing newline gives a
/// trailing empty piece, so there is always at least one piece.
pub open spec fn split_on_newline(s: Seq<u8>) -> Seq<Seq<u8>>
    decreases s.len(),
{
    if s.len() == 0 {
        seq![Seq::<u8>::empty()]
    } else {
        let r = split_on_newline(s.drop_last());
        if s.last() == NEWLINE {
            r.push(Seq::<u8>::empty())
        } else {
            r.update(r.len() - 1, r.last().push(s.last()))
        }
    }
}

/// A line without its trailing carriage return, if it has one.
pub open spec fn strip_cr(l: Seq<u8>) -> Seq<u8> {
    if l.len() > 0 && l.last() == CARRIAGE_RETURN {
        l.drop_last()
    } else {
        l
    }
}

/// The lines of a source text: the newline-separated pieces, each without a
/// trailing carriage return.
pub open spec fn source_lines(s: Seq<u8>) -> Seq<Seq<u8>> {
    split_on_newline(s).map_values(|l: Seq<u8>| strip_cr(l))
}

pub proof fn lemma_split_nonempty(s: Seq<u8>)
    ensures
        split_on_newline(s).len() >= 1,
    decreases s.len(),
{
    if s.len() > 0 {
        lemma_split_nonempty(s.drop_last());
    }
}

/// `r` is a byte range of `src` holding exactly `piece`, and the bytes
/// there are valid UTF-8.
pub open spec fn range_matches(src: Seq<u8>, piece: Seq<u8>, r: (usize, usize)) -> bool {
    &&& r.0 <= r.1 <= src.len()
    &&& piece == src.subrange(r.0 as int, r.1 as int)
    &&& valid_utf8(src.subrange(r.0 as int, r.1 as int))
}

/// Byte ranges `[start, end)` into `src` of its lines, in order.
pub fn split_source_lines(src: &[u8]) -> (lines: Vec<(usize, usize)>)
    requires
        valid_utf8(src@),
    ensures
        lines@.len() == source_lines(src@).len(),
        forall|k: int|
            0 <= k < lines@.len() ==> range_matches(src@, source_lines(src@)[k], #[trigger] lines@[k]),
{
    let n = src.len();
    let mut lines: Vec<(usize, usize)> = Vec::new();
    let mut start: usize = 0;
    let mut i: usize = 0;
    proof {
        assert(src@.subrange(0, n as int) =~= src@);
        assert(src@.take(0) =~= Seq::<u8>::empty());
    }
    while i < n
        invariant
            n == src@.len(),
            start <= i <= n,
            valid_utf8(src@),
            valid_utf8(src@.subrange(start as int, n as int)),
            split_on_newline(src@.take(i as int)).len() == lines@.len() + 1,
            split_on_newline(src@.take(i as int)).last() == src@.subrange(start as int, i as int),
            forall|k: int|
                0 <= k < lines@.len() ==> range_matches(src@, strip_cr(split_on_newline(src@.take(i as int))[k]), #[trigger] lines@[k]),
        decreases n - i,
    {
        let ghost raw = split_on_newline(src@.take(i as int));
        let ghost raw2 = split_on_newline(src@.take(i + 1));
        proof {
            assert(src@.take(i + 1).drop_last() =~= src@.take(i as int));
            assert(src@.take(i + 1).last() == src@[i as int]);
        }
        if src[i] == NEWLINE {
            let end = if i > start && src[i - 1] == CARRIAGE_RETURN {
                i - 1
            } else {
                i
            };
            proof {
                let rest = src@.subrange(start as int, n as int);
                assert(rest[i - start] == src@[i as int]);
                lemma_valid_cut_ascii(rest, i - start);
                assert(rest.subrange(0, i - start) =~= src@.subrange(start as int, i as int));
                assert(rest.subrange(i - start + 1, rest.len() as int) =~= src@.subrange(
                    i + 1,
                    n as int,
                ));
                let line = src@.subrange(start as int, i as int);
                if end < i {
                    assert(line[end - start] == src@[end as int]);
                    lemma_valid_cut_ascii(line, end - start);
                    assert(line.subrange(0, end - start) =~= src@.subrange(
                        start as int,
                        end as int,
                    ));
                    assert(line.drop_last() =~= src@.subrange(start as int, end as int));
                }
                assert(strip_cr(line) == src@.subrange(start as int, end as int));
            }
            let ghost old_lines = lines@;
            lines.push((start, end));
            start = i + 1;
            proof {
                assert(raw2 == raw.push(Seq::<u8>::empty()));
                assert(src@.subrange(start as int, (i + 1) as int) =~= Seq::<u8>::empty());
                assert forall|k: int| 0 <= k < lines@.len() implies range_matches(src@, strip_cr(raw2[k]), #[trigger] lines@[k]) by {
                    if k < lines@.len() - 1 {
                        assert(raw2[k] == raw[k]);
                        assert(lines@[k] == old_lines[k]);
                    } else {
                        assert(raw2[k] == raw.last());
                    }
                }
            }
        } else {
            proof {
                assert(raw2 == raw.update(raw.len() - 1, raw.last().push(src@[i as int])));
                assert(raw.last().push(src@[i as int]) =~= src@.subrange(
                    start as int,
                    (i + 1) as int,
                ));
                assert forall|k: int| 0 <= k < lines@.len() implies range_matches(src@, strip_cr(raw2[k]), #[trigger] lines@[k]) by {
                    assert(raw2[k] == raw[k]);
                }
            }
        }
        i = i + 1;
        assert(split_on_newline(src@.take(i as int)) == raw2);
    }
    let end = if n > start && src[n - 1] == CARRIAGE_RETURN {
        n - 1
    } else {
        n
    };
    proof {
        assert(src@.take(n as int) =~= src@);
        let line = src@.subrange(start as int, n as int);
        assert(line =~= src@.subrange(start as int, n as int));
        if end < n {
            assert(line[end - start] == src@[end as int]);
            lemma_valid_cut_ascii(line, end - start);
            assert(line.subrange(0, end - start) =~= src@.subrange(start as int, end as int));
            assert(line.drop_last() =~= src@.subrange(start as int, end as int));
        } else {
            assert(line.subrange(0, n - start) =~= line);
        }
        assert(strip_cr(line) == src@.subrange(start as int, end as int));
    }
    let ghost before = lines@;
    lines.push((start, end));
    proof {
        let raw = split_on_newline(src@);
        assert(raw == split_on_newline(src@.take(n as int)));
        assert(raw.last() == src@.subrange(start as int, n as int));
        assert(raw.len() == lines@.len());
        assert forall|k: int| 0 <= k < lines@.len() implies range_matches(src@, source_lines(src@)[k], #[trigger] lines@[k]) by {
            assert(source_lines(src@)[k] == strip_cr(raw[k]));
            if k < before.len() {
                assert(lines@[k] == before[k]);
            } else {
                assert(raw[k] == raw.last());
            }
        }
    }
    lines
}

} // verus!
