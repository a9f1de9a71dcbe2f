use vstd::prelude::*;

use crate::plan::{BlockAssignment, tiles};
use crate::record::{
    NEWLINE, ends_at_boundary, lemma_lines_concat, lemma_lines_push_line, lemma_lines_push_tail,
    lines,
};
use crate::scan::{
    ScanError, block_result, first_malformed, lemma_line_start, lemma_line_start_monotone, lemma_prefix_fails,
    line_start, scan_block, scan_to,
};
use crate::stats::{
    StationStats, Totals, lemma_merge_empty, lemma_summarize_empty, lemma_totals_concat, merge_results, summarize,
};

verus! {

/// The block results of `bs`, merged in order.
pub open spec fn merged_block_results(s: Seq<u8>, bs: Seq<BlockAssignment>) -> Option<Totals>
    decreases bs.len(),
{
    if bs.len() == 0 {
        Some(Map::empty())
    } else {
        merge_results(
            merged_block_results(s, bs.drop_last()),
            block_result(s, bs.last().start as int, bs.last().end as int),
        )
    }
}

/// How far the first `i` blocks of a tiling have scanned.
pub open spec fn reached(s: Seq<u8>, bs: Seq<BlockAssignment>, i: int) -> int {
    if i == 0 {
        0
    } else {
        scan_to(s, bs[i - 1].end as int)
    }
}

/// A non-empty block continues the totals of the input up to its first line.
pub proof fn lemma_block_step(s: Seq<u8>, start: int, end: int)
    requires
        0 <= start < end <= s.len(),
    ensures
        line_start(s, start) <= scan_to(s, end) <= s.len(),
        summarize(s.take(scan_to(s, end))) == merge_results(
            summarize(s.take(line_start(s, start))),
            block_result(s, start, end),
        ),
        end < s.len() ==> ends_at_boundary(s.take(scan_to(s, end))),
{
    reveal(summarize);
    let from = line_start(s, start);
    let to = scan_to(s, end);
    lemma_line_start(s, start);
    if end < s.len() {
        lemma_line_start(s, end);
        lemma_line_start_monotone(s, start, end);
    }
    let a = s.take(from);
    let b = s.subrange(from, to);
    assert(s.take(to) =~= a + b);
    lemma_lines_concat(a, b);
    lemma_totals_concat(lines(a), lines(b));
}

proof fn lemma_blocks_prefix(s: Seq<u8>, bs: Seq<BlockAssignment>, i: int)
    requires
        tiles(bs, s.len() as int),
        0 <= i <= bs.len(),
    ensures
        0 <= reached(s, bs, i) <= s.len(),
        merged_block_results(s, bs.take(i)) == summarize(s.take(reached(s, bs, i))),
        reached(s, bs, i) == s.len() || ends_at_boundary(s.take(reached(s, bs, i))),
        i > 0 && bs[i - 1].end == s.len() ==> reached(s, bs, i) == s.len(),
        i > 0 && bs[i - 1].end < s.len() ==> reached(s, bs, i) == line_start(
            s,
            bs[i - 1].end as int,
        ),
    decreases i,
{
    if i == 0 {
        assert(bs.take(0) =~= Seq::<BlockAssignment>::empty());
        assert(s.take(0) =~= Seq::<u8>::empty());
        lemma_summarize_empty();
    } else {
        lemma_blocks_prefix(s, bs, i - 1);
        assert(bs.take(i).drop_last() =~= bs.take(i - 1));
        assert(bs.take(i).last() == bs[i - 1]);
        let b = bs[i - 1];
        let prev = reached(s, bs, i - 1);
        if i - 1 > 0 {
            assert(bs[i - 2].end == b.start);
        }
        if b.end < s.len() {
            lemma_line_start(s, b.end as int);
        }
        if b.start < b.end {
            lemma_block_step(s, b.start as int, b.end as int);
            if i - 1 == 0 {
                assert(s.take(0) =~= Seq::<u8>::empty());
                lemma_line_start(s, 0);
            }
        } else {
            if let Some(m) = merged_block_results(s, bs.take(i - 1)) {
                lemma_merge_empty(m);
            }
            if i - 1 > 0 {
                if b.end < s.len() {
                    assert(line_start(s, b.end as int) == line_start(s, bs[i - 2].end as int));
                }
            } else {
                lemma_line_start(s, 0);
            }
        }
    }
}

/// However the input is tiled into blocks, the merged block results are the
/// totals of the whole input, failure included.
pub proof fn lemma_blocks_agree(s: Seq<u8>, bs: Seq<BlockAssignment>)
    requires
        tiles(bs, s.len() as int),
    ensures
        merged_block_results(s, bs) == summarize(s),
{
    lemma_blocks_prefix(s, bs, bs.len() as int);
    assert(bs.take(bs.len() as int) =~= bs);
    assert(s.take(reached(s, bs, bs.len() as int)) =~= s);
}

/// Wherever a cut falls inside the input, even inside a record, the two
/// blocks on either side of it count every record once.
pub proof fn lemma_cut_anywhere(s: Seq<u8>, cut: int)
    requires
        0 < cut < s.len(),
    ensures
        merge_results(block_result(s, 0, cut), block_result(s, cut, s.len() as int)) == summarize(
            s,
        ),
{
    lemma_block_step(s, 0, cut);
    lemma_block_step(s, cut, s.len() as int);
    assert(s.take(0) =~= Seq::<u8>::empty());
    lemma_summarize_empty();
    lemma_line_start(s, 0);
    if let Some(m) = block_result(s, 0, cut) {
        lemma_merge_empty(m);
    }
    assert(s.take(s.len() as int) =~= s);
}

/// A last line without its newline gives the same totals as with it.
pub proof fn lemma_final_newline_optional(s: Seq<u8>)
    requires
        s.len() > 0,
        s.last() != NEWLINE,
    ensures
        summarize(s.push(NEWLINE)) == summarize(s),
{
    reveal(summarize);
    lemma_line_start(s, s.len() as int);
    let from = line_start(s, s.len() as int);
    let a = s.take(from);
    let f = s.subrange(from, s.len() as int);
    assert(s =~= a + f);
    assert(s.push(NEWLINE) =~= a + f.push(NEWLINE));
    assert(f.len() > 0) by {
        if from == s.len() {
            assert(a.last() == s.last());
        }
    }
    lemma_lines_push_line(a, f);
    lemma_lines_push_tail(a, f);
}

/// Aggregates the whole input in one pass.
pub fn aggregate(data: &[u8]) -> (r: Result<StationStats, ScanError>)
    ensures
        match r {
            Ok(a) => a.wf() && summarize(data@) == Some(a@),
            Err(ScanError::MalformedRecord { offset }) => {
                &&& summarize(data@) is None
                &&& first_malformed(data@, 0, data@.len() as int, offset as int)
            },
        },
{
    let r = scan_block(data, 0, data.len());
    proof {
        reveal(summarize);
        let s = data@;
        if s.len() > 0 {
            lemma_line_start(s, 0);
            assert(s.subrange(0, s.len() as int) =~= s);
        } else {
            assert(s =~= Seq::<u8>::empty());
            assert(lines(Seq::<u8>::empty()) =~= Seq::<Seq<u8>>::empty());
        }
    }
    r
}

/// Aggregates each block of a tiling of the input and merges the results in
/// block order.
pub fn aggregate_blocks(data: &[u8], blocks: &Vec<BlockAssignment>) -> (r: Result<
    StationStats,
    ScanError,
>)
    requires
        tiles(blocks@, data@.len() as int),
    ensures
        match r {
            Ok(a) => a.wf() && summarize(data@) == Some(a@),
            Err(ScanError::MalformedRecord { offset }) => {
                &&& summarize(data@) is None
                &&& exists|i: int|
                    0 <= i < blocks@.len() && first_malformed(
                        data@,
                        (#[trigger] blocks@[i]).start as int,
                        blocks@[i].end as int,
                        offset as int,
                    )
            },
        },
{
    let ghost s = data@;
    let mut acc = StationStats::new();
    let n = blocks.len();
    let mut i: usize = 0;
    proof {
        lemma_blocks_prefix(s, blocks@, 0);
    }
    while i < n
        invariant
            s == data@,
            n == blocks@.len(),
            tiles(blocks@, s.len() as int),
            i <= n,
            acc.wf(),
            merged_block_results(s, blocks@.take(i as int)) == Some(acc@),
            forall|k: Seq<u8>| #[trigger]
                acc@.contains_key(k) ==> acc@[k].count <= reached(s, blocks@, i as int),
        decreases n - i,
    {
        let b = blocks[i];
        proof {
            lemma_blocks_prefix(s, blocks@, i as int);
            lemma_blocks_prefix(s, blocks@, i + 1);
            assert(blocks@.take(i + 1).drop_last() =~= blocks@.take(i as int));
            assert(blocks@.take(i + 1).last() == b);
            if i > 0 {
                assert(blocks@[i - 1].end == b.start);
            }
        }
        match scan_block(data, b.start, b.end) {
            Err(e) => {
                proof {
                    let c = reached(s, blocks@, i + 1);
                    if c == s.len() {
                        assert(s.take(c) =~= s);
                    } else {
                        lemma_prefix_fails(s, c);
                    }
                    assert(blocks@[i as int] == b);
                }
                return Err(e);
            },
            Ok(part) => {
                proof {
                    if b.start < b.end {
                        lemma_line_start(s, 0);
                        if i > 0 && blocks@[i - 1].end < s.len() {
                            assert(reached(s, blocks@, i as int) == line_start(s, b.start as int));
                        }
                    }
                    assert(usize::MAX <= u64::MAX);
                }
                acc.merge(part);
                proof {
                    assert forall|k: Seq<u8>| #[trigger] acc@.contains_key(k) implies acc@[k].count
                        <= reached(s, blocks@, i + 1) by {
                        if b.start < b.end {
                            lemma_block_step(s, b.start as int, b.end as int);
                        }
                    }
                }
            },
        }
        i = i + 1;
    }
    proof {
        lemma_blocks_agree(s, blocks@);
        assert(blocks@.take(n as int) =~= blocks@);
    }
    Ok(acc)
}

} // verus!
