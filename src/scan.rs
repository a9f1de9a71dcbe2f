use vstd::prelude::*;

use crate::record::{
    NEWLINE, ends_at_boundary, last_newline, lemma_last_newline_append, lemma_last_newline_bounds,
    lemma_lines_concat, lemma_lines_push_line, lemma_lines_push_tail, lemma_parse_value_bound,
    lines, newline_free, parse_record, parse_record_in,
};
use crate::stats::{
    StationStats, Totals, lemma_summarize_empty, lemma_totals_concat, merge_totals, summarize,
    totals_of_lines, unit,
};
use vstd::slice::slice_subrange;

verus! {

/// Why a block could not be aggregated.
#[derive(Debug, Clone, Copy, PartialEq, Eq)]
pub enum ScanError {
    /// The line that starts at `offset`, complete within its block, is not of
    /// the form `key;value`.
    MalformedRecord { offset: usize },
}

/// `offset` starts the first line of the block `[start, end)` that is no
/// record: the lines before it in the block parse, and the line from it up
/// to its newline (or the end of the input) does not.
pub open spec fn first_malformed(s: Seq<u8>, start: int, end: int, offset: int) -> bool {
    &&& start < end
    &&& line_start(s, start) <= offset < scan_to(s, end)
    &&& ends_at_boundary(s.take(offset))
    &&& summarize(s.subrange(line_start(s, start), offset)) is Some
    &&& exists|j: int|
        offset <= j <= s.len() && newline_free(#[trigger] s.subrange(offset, j)) && (j == s.len()
            || s[j] == NEWLINE) && parse_record(s.subrange(offset, j)) is None
}

/// The start of the line that holds position `pos`: one past the last
/// newline before it, or 0.
pub open spec fn line_start(s: Seq<u8>, pos: int) -> int {
    last_newline(s.take(pos)) + 1
}

/// Where the scan of a block that ends at `end` stops: the end of the input
/// for the last block, else the start of the line cut by `end`.
pub open spec fn scan_to(s: Seq<u8>, end: int) -> int {
    if end == s.len() {
        end
    } else {
        line_start(s, end)
    }
}

/// The totals of the block `[start, end)`: every line whose newline lies in
/// the block, and the unterminated last line of the input for the block that
/// ends there.
pub open spec fn block_result(s: Seq<u8>, start: int, end: int) -> Option<Totals> {
    if start >= end {
        Some(Map::empty())
    } else {
        summarize(s.subrange(line_start(s, start), scan_to(s, end)))
    }
}

pub proof fn lemma_line_start(s: Seq<u8>, pos: int)
    requires
        0 <= pos <= s.len(),
    ensures
        0 <= line_start(s, pos) <= pos,
        ends_at_boundary(s.take(line_start(s, pos))),
        newline_free(s.subrange(line_start(s, pos), pos)),
{
    let t = s.take(pos);
    lemma_last_newline_bounds(t);
    let r = line_start(s, pos);
    if r > 0 {
        assert(s.take(r).last() == t[r - 1]);
    }
    assert forall|i: int| 0 <= i < pos - r implies s.subrange(r, pos)[i] != NEWLINE by {
        assert(s.subrange(r, pos)[i] == t[r + i]);
    }
}

/// A newline before `e` lies before the start of the line that holds `e`.
pub proof fn lemma_line_start_after_newline(s: Seq<u8>, j: int, e: int)
    requires
        0 <= j < e <= s.len(),
        s[j] == NEWLINE,
    ensures
        j < line_start(s, e),
{
    lemma_last_newline_bounds(s.take(e));
    assert(s.take(e)[j] == NEWLINE);
}

/// The line start of a position after a boundary with no newline in between
/// is that boundary.
pub proof fn lemma_line_start_at(s: Seq<u8>, r: int, pos: int)
    requires
        0 <= r <= pos <= s.len(),
        ends_at_boundary(s.take(r)),
        newline_free(s.subrange(r, pos)),
    ensures
        line_start(s, pos) == r,
{
    let y = s.subrange(r, pos);
    assert(s.take(pos) =~= s.take(r) + y);
    lemma_last_newline_append(s.take(r), y);
    lemma_last_newline_bounds(y);
    if last_newline(y) >= 0 {
        assert(y[last_newline(y)] == NEWLINE);
    }
    if r > 0 {
        assert(s.take(r).last() == NEWLINE);
    } else {
        assert(s.take(r).len() == 0);
    }
}

pub proof fn lemma_line_start_monotone(s: Seq<u8>, a: int, b: int)
    requires
        0 <= a <= b <= s.len(),
    ensures
        line_start(s, a) <= line_start(s, b),
{
    let y = s.subrange(a, b);
    assert(s.take(b) =~= s.take(a) + y);
    lemma_last_newline_append(s.take(a), y);
    lemma_last_newline_bounds(s.take(a));
}

/// Lines that fail to parse make every longer input fail from that boundary on.
pub proof fn lemma_prefix_fails(s: Seq<u8>, c: int)
    requires
        0 <= c <= s.len(),
        ends_at_boundary(s.take(c)),
        summarize(s.take(c)) is None,
    ensures
        summarize(s) is None,
{
    reveal(summarize);
    assert(s =~= s.take(c) + s.skip(c));
    lemma_lines_concat(s.take(c), s.skip(c));
    lemma_totals_concat(lines(s.take(c)), lines(s.skip(c)));
}

/// Totals after appending one line to a run of lines.
pub proof fn lemma_totals_push(ls: Seq<Seq<u8>>, l: Seq<u8>)
    ensures
        totals_of_lines(ls.push(l)) == match (totals_of_lines(ls), parse_record(l)) {
            (Some(m), Some((k, v))) => Some(merge_totals(m, unit(k, v))),
            _ => None,
        },
{
    assert(ls.push(l).drop_last() =~= ls);
}

/// What counting one more line (ending in a newline, or the input's last
/// line) does to the totals of a run that starts at `from`.
proof fn lemma_scan_step(s: Seq<u8>, from: int, pos: int, j: int)
    requires
        0 <= from <= pos <= j <= s.len(),
        ends_at_boundary(s.take(pos)),
        newline_free(s.subrange(pos, j)),
        j < s.len() ==> s[j] == NEWLINE,
        j == s.len() ==> pos < j,
    ensures
        ({
            let next = if j < s.len() { j + 1 } else { j };
            &&& summarize(s.subrange(from, next)) == match (
                summarize(s.subrange(from, pos)),
                parse_record(s.subrange(pos, j)),
            ) {
                (Some(m), Some((k, v))) => Some(
                    merge_totals(m, unit(k, v)),
                ),
                _ => None,
            }
            &&& j < s.len() ==> ends_at_boundary(s.take(next))
        }),
{
    reveal(summarize);
    let prefix = s.subrange(from, pos);
    let line = s.subrange(pos, j);
    assert(ends_at_boundary(prefix)) by {
        if pos > from {
            assert(prefix.last() == s.take(pos).last());
        }
    }
    if j < s.len() {
        assert(s.subrange(from, j + 1) =~= prefix + line.push(NEWLINE));
        lemma_lines_push_line(prefix, line);
        assert(s.take(j + 1).last() == NEWLINE);
    } else {
        assert(s.subrange(from, j) =~= prefix + line);
        lemma_lines_push_tail(prefix, line);
    }
    lemma_totals_push(lines(prefix), line);
}

/// A malformed line that ends with a newline before `end` fails the block.
proof fn lemma_scan_fails(s: Seq<u8>, start: int, end: int, j: int)
    requires
        0 <= start < end <= s.len(),
        line_start(s, start) <= j < end,
        s[j] == NEWLINE,
        summarize(s.subrange(line_start(s, start), j + 1)) is None,
    ensures
        block_result(s, start, end) is None,
{
    lemma_line_start(s, start);
    let from = line_start(s, start);
    let to = scan_to(s, end);
    if end < s.len() {
        lemma_line_start_after_newline(s, j, end);
        lemma_line_start(s, end);
    }
    let t = s.subrange(from, to);
    assert(t.take(j + 1 - from) =~= s.subrange(from, j + 1));
    assert(t.take(j + 1 - from).last() == NEWLINE);
    lemma_prefix_fails(t, j + 1 - from);
}

/// Finds the start of the line that holds `pos`, walking back from it.
pub fn find_line_start(data: &[u8], pos: usize) -> (r: usize)
    requires
        pos <= data@.len(),
    ensures
        r == line_start(data@, pos as int),
{
    let mut r: usize = pos;
    while r > 0 && data[r - 1] != NEWLINE
        invariant
            r <= pos <= data@.len(),
            forall|i: int| r <= i < pos ==> data@[i] != NEWLINE,
        decreases r,
    {
        r = r - 1;
    }
    proof {
        assert(newline_free(data@.subrange(r as int, pos as int)));
        if r > 0 {
            assert(data@.take(r as int).last() == data@[r - 1]);
        }
        lemma_line_start_at(data@, r as int, pos as int);
    }
    r
}

/// Aggregates the block `[start, end)` of `data`: finds the start of the line
/// that holds `start`, then counts each line up to the last newline before
/// `end` (for the last block, up to the end of the input, newline or not).
/// The line cut by `end` belongs to the next block.
pub fn scan_block(data: &[u8], start: usize, end: usize) -> (r: Result<StationStats, ScanError>)
    requires
        start <= end <= data@.len(),
    ensures
        match r {
            Ok(a) => {
                &&& a.wf()
                &&& block_result(data@, start as int, end as int) == Some(a@)
                &&& forall|k: Seq<u8>| #[trigger]
                    a@.contains_key(k) ==> a@[k].count <= scan_to(data@, end as int)
                        - line_start(data@, start as int)
            },
            Err(ScanError::MalformedRecord { offset }) => {
                &&& block_result(data@, start as int, end as int) is None
                &&& first_malformed(data@, start as int, end as int, offset as int)
            },
        },
{
    let ghost s = data@;
    let mut agg = StationStats::new();
    if start == end {
        return Ok(agg);
    }
    let from = find_line_start(data, start);
    proof {
        lemma_line_start(s, start as int);
        assert(s.subrange(from as int, from as int) =~= Seq::<u8>::empty());
        lemma_summarize_empty();
    }
    let mut pos: usize = from;
    loop
        invariant
            from == line_start(s, start as int),
            from <= start < end <= s.len(),
            s == data@,
            from <= pos <= end,
            ends_at_boundary(s.take(pos as int)),
            agg.wf(),
            summarize(s.subrange(from as int, pos as int)) == Some(agg@),
            forall|k: Seq<u8>| #[trigger] agg@.contains_key(k) ==> agg@[k].count <= pos - from,
        decreases end - pos,
    {
        let mut j: usize = pos;
        while j < end && data[j] != NEWLINE
            invariant
                pos <= j <= end <= s.len(),
                s == data@,
                forall|i: int| pos <= i < j ==> s[i] != NEWLINE,
            decreases end - j,
        {
            j = j + 1;
        }
        proof {
            assert(newline_free(s.subrange(pos as int, j as int)));
        }
        if j == end {
            if end == data.len() && pos < end {
                proof {
                    lemma_scan_step(s, from as int, pos as int, end as int);
                }
                match parse_record_in(data, pos, end) {
                    None => {
                        assert(newline_free(s.subrange(pos as int, end as int)));
                        return Err(ScanError::MalformedRecord { offset: pos });
                    },
                    Some((p, v)) => {
                        proof {
                            lemma_parse_value_bound(s.subrange(p + 1, end as int));
                        }
                        let key = slice_subrange(data, pos, p);
                        agg.record(key, v);
                    },
                }
                pos = end;
            }
            proof {
                if end < s.len() {
                    lemma_line_start_at(s, pos as int, end as int);
                }
            }
            return Ok(agg);
        }
        proof {
            lemma_scan_step(s, from as int, pos as int, j as int);
        }
        match parse_record_in(data, pos, j) {
            None => {
                proof {
                    lemma_scan_fails(s, start as int, end as int, j as int);
                    if end < s.len() {
                        lemma_line_start_after_newline(s, j as int, end as int);
                    }
                    assert(newline_free(s.subrange(pos as int, j as int)));
                }
                return Err(ScanError::MalformedRecord { offset: pos });
            },
            Some((p, v)) => {
                proof {
                    lemma_parse_value_bound(s.subrange(p + 1, j as int));
                }
                let key = slice_subrange(data, pos, p);
                agg.record(key, v);
            },
        }
        pos = j + 1;
    }
}

} // verus!
