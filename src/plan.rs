use vstd::prelude::*;

use vstd::arithmetic::div_mod::lemma_fundamental_div_mod;

verus! {

/// Most workers a plan uses.
pub const MAX_WORKERS: usize = 8;

/// Page size that block sizes are rounded up to.
pub const PAGE_SIZE: usize = 4096;

/// The nominal byte range `[start, end)` of worker `index`.
#[derive(Clone, Copy, Debug, PartialEq, Eq)]
pub struct BlockAssignment {
    pub index: usize,
    pub start: usize,
    pub end: usize,
}

pub open spec fn ceil_div(a: int, b: int) -> int {
    a / b + if a % b == 0 {
        0int
    } else {
        1int
    }
}

pub open spec fn min_int(a: int, b: int) -> int {
    if a <= b {
        a
    } else {
        b
    }
}

/// `min(t, ceil(n / p))` workers; none for an empty input.
pub open spec fn worker_count(n: int, t: int, p: int) -> int {
    if n == 0 {
        0
    } else {
        min_int(t, ceil_div(n, p))
    }
}

/// `ceil(n / workers)` rounded up to a multiple of `p`.
pub open spec fn block_size(n: int, t: int, p: int) -> int {
    ceil_div(ceil_div(n, worker_count(n, t, p)), p) * p
}

/// The blocks cover `[0, n)` in order, each ending where the next starts.
pub open spec fn tiles(bs: Seq<BlockAssignment>, n: int) -> bool {
    &&& bs.len() == 0 ==> n == 0
    &&& bs.len() > 0 ==> bs[0].start == 0 && bs.last().end == n
    &&& forall|i: int| 0 <= i < bs.len() ==> (#[trigger] bs[i]).start <= bs[i].end <= n
    &&& forall|i: int| 0 <= i < bs.len() - 1 ==> (#[trigger] bs[i]).end == bs[i + 1].start
}

pub proof fn lemma_ceil_div(a: int, b: int)
    requires
        a >= 0,
        b >= 1,
    ensures
        ceil_div(a, b) * b >= a,
        ceil_div(a, b) * b < a + b,
        0 <= ceil_div(a, b) <= a,
        a >= 1 ==> ceil_div(a, b) >= 1,
{
    lemma_fundamental_div_mod(a, b);
    let q = a / b;
    let r = a % b;
    assert(0 <= r < b);
    assert(q >= 0) by (nonlinear_arith)
        requires
            a == b * q + r,
            a >= 0,
            0 <= r < b,
    ;
    assert(ceil_div(a, b) * b == b * q + if r == 0 {
        0int
    } else {
        b
    }) by (nonlinear_arith)
        requires
            ceil_div(a, b) == q + if r == 0 {
                0int
            } else {
                1int
            },
    ;
    assert(q <= a) by (nonlinear_arith)
        requires
            a == b * q + r,
            q >= 0,
            b >= 1,
            r >= 0,
    ;
    if r != 0 {
        assert(q < a) by (nonlinear_arith)
            requires
                a == b * q + r,
                q >= 0,
                b >= 1,
                r >= 1,
        ;
    }
    if a >= 1 && r == 0 {
        assert(q >= 1) by (nonlinear_arith)
            requires
                a == b * q,
                a >= 1,
                b >= 1,
                q >= 0,
        ;
    }
}

fn ceil_div_exec(a: usize, b: usize) -> (r: usize)
    requires
        b >= 1,
    ensures
        r == ceil_div(a as int, b as int),
{
    proof {
        lemma_ceil_div(a as int, b as int);
    }
    a / b + if a % b == 0 {
        0
    } else {
        1
    }
}

/// Splits `len` bytes into `min(max_workers, ceil(len / page_size))` blocks of
/// `block_size` bytes (the last one shorter, or empty).
pub fn plan_blocks_with(len: usize, max_workers: usize, page_size: usize) -> (r: Vec<
    BlockAssignment,
>)
    requires
        max_workers >= 1,
        page_size >= 1,
    ensures
        r@.len() == worker_count(len as int, max_workers as int, page_size as int),
        forall|i: int|
            0 <= i < r@.len() ==> {
                let bs = block_size(len as int, max_workers as int, page_size as int);
                &&& (#[trigger] r@[i]).index == i
                &&& r@[i].start == min_int(len as int, i * bs)
                &&& r@[i].end == min_int(len as int, (i + 1) * bs)
            },
        tiles(r@, len as int),
{
    let mut v: Vec<BlockAssignment> = Vec::new();
    if len == 0 {
        return v;
    }
    let pages = ceil_div_exec(len, page_size);
    proof {
        lemma_ceil_div(len as int, page_size as int);
    }
    let workers: usize = if max_workers <= pages {
        max_workers
    } else {
        pages
    };
    let per = ceil_div_exec(len, workers);
    let rounded = ceil_div_exec(per, page_size);
    let ghost bs = block_size(len as int, max_workers as int, page_size as int);
    proof {
        lemma_ceil_div(len as int, workers as int);
        lemma_ceil_div(per as int, page_size as int);
        assert(rounded * page_size <= u64::MAX * u64::MAX) by (nonlinear_arith)
            requires
                rounded <= u64::MAX,
                page_size <= u64::MAX,
                rounded >= 0,
                page_size >= 0,
        ;
        assert(per <= len);
        assert(workers * bs >= len) by (nonlinear_arith)
            requires
                bs >= per,
                per * workers >= len,
                workers >= 1,
        ;
    }
    let block: u128 = (rounded as u128) * (page_size as u128);
    let n: u128 = len as u128;
    let mut pos: u128 = 0;
    let mut i: usize = 0;
    while i < workers
        invariant
            1 <= workers,
            workers == worker_count(len as int, max_workers as int, page_size as int),
            block == bs,
            bs >= 1,
            bs < len + page_size,
            workers * bs >= len,
            n == len,
            i <= workers,
            pos == min_int(len as int, i * bs),
            v@.len() == i,
            forall|k: int|
                0 <= k < i ==> {
                    &&& (#[trigger] v@[k]).index == k
                    &&& v@[k].start == min_int(len as int, k * bs)
                    &&& v@[k].end == min_int(len as int, (k + 1) * bs)
                },
        decreases workers - i,
    {
        let sum: u128 = pos + block;
        let next: u128 = if sum < n {
            sum
        } else {
            n
        };
        proof {
            assert(i * bs + bs == (i + 1) * bs) by (nonlinear_arith);
            assert(i * bs >= 0) by (nonlinear_arith)
                requires
                    i >= 0,
                    bs >= 0,
            ;
        }
        v.push(BlockAssignment { index: i, start: pos as usize, end: next as usize });
        pos = next;
        i = i + 1;
    }
    proof {
        assert(workers * bs >= len);
        assert forall|k: int| 0 <= k < v@.len() implies (#[trigger] v@[k]).start <= v@[k].end by {
            assert(k * bs <= (k + 1) * bs) by (nonlinear_arith)
                requires
                    bs >= 0,
            ;
        }
        assert(0int * bs == 0);
    }
    v
}

/// The plan for `len` bytes with the default worker limit and page size.
pub fn plan_blocks(len: usize) -> (r: Vec<BlockAssignment>)
    ensures
        r@.len() == worker_count(len as int, MAX_WORKERS as int, PAGE_SIZE as int),
        forall|i: int|
            0 <= i < r@.len() ==> {
                let bs = block_size(len as int, MAX_WORKERS as int, PAGE_SIZE as int);
                &&& (#[trigger] r@[i]).index == i
                &&& r@[i].start == min_int(len as int, i * bs)
                &&& r@[i].end == min_int(len as int, (i + 1) * bs)
            },
        tiles(r@, len as int),
{
    plan_blocks_with(len, MAX_WORKERS, PAGE_SIZE)
}

} // verus!
