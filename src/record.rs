use vstd::prelude::*;

verus! {

/// The byte that ends a record.
pub const NEWLINE: u8 = 10;

/// The byte between a key and its value.
pub const SEPARATOR: u8 = 59;

pub const MINUS: u8 = 45;

pub const DOT: u8 = 46;

/// Largest magnitude of a value, in tenths. A larger value counts as malformed:
/// below it a sum over `u64::MAX` records fits in an `i128`.
pub const MAX_ABS_TENTHS: i64 = 1000000000000000000;

pub open spec fn is_digit(b: u8) -> bool {
    48 <= b <= 57
}

pub open spec fn digit_value(b: u8) -> int {
    b - 48
}

/// `s` holds no newline.
pub open spec fn newline_free(s: Seq<u8>) -> bool {
    forall|i: int| 0 <= i < s.len() ==> s[i] != NEWLINE
}

/// Index of the last newline of `s`, or -1 where there is none.
pub open spec fn last_newline(s: Seq<u8>) -> int
    decreases s.len(),
{
    if s.len() == 0 {
        -1
    } else if s.last() == NEWLINE {
        s.len() - 1
    } else {
        last_newline(s.drop_last())
    }
}

pub proof fn lemma_last_newline_bounds(s: Seq<u8>)
    ensures
        -1 <= last_newline(s) < s.len(),
        s.len() > 0 && s.last() != NEWLINE ==> last_newline(s) < s.len() - 1,
        last_newline(s) >= 0 ==> s[last_newline(s)] == NEWLINE,
        forall|i: int| last_newline(s) < i < s.len() ==> s[i] != NEWLINE,
    decreases s.len(),
{
    if s.len() > 0 && s.last() != NEWLINE {
        lemma_last_newline_bounds(s.drop_last());
        assert forall|i: int| last_newline(s) < i < s.len() implies s[i] != NEWLINE by {
            if i < s.len() - 1 {
                assert(s[i] == s.drop_last()[i]);
            }
        }
    }
}

#[via_fn]
proof fn lines_decreases(s: Seq<u8>) {
    if s.len() > 0 {
        let body = if s.last() == NEWLINE {
            s.drop_last()
        } else {
            s
        };
        lemma_last_newline_bounds(body);
    }
}

/// `s` is empty or ends with a newline: the next byte starts a line.
pub open spec fn ends_at_boundary(s: Seq<u8>) -> bool {
    s.len() == 0 || s.last() == NEWLINE
}

/// The lines of `s`: each newline ends one, and a non-empty tail without a
/// newline is one more.
pub open spec fn lines(s: Seq<u8>) -> Seq<Seq<u8>>
    decreases s.len(),
    via lines_decreases
{
    if s.len() == 0 {
        Seq::empty()
    } else {
        let body = if s.last() == NEWLINE {
            s.drop_last()
        } else {
            s
        };
        let k = last_newline(body);
        lines(body.take(k + 1)).push(body.skip(k + 1))
    }
}

pub proof fn lemma_last_newline_append(a: Seq<u8>, y: Seq<u8>)
    ensures
        last_newline(a + y) == if last_newline(y) >= 0 {
            a.len() + last_newline(y)
        } else {
            last_newline(a)
        },
    decreases y.len(),
{
    if y.len() == 0 {
        assert(a + y =~= a);
    } else {
        assert((a + y).drop_last() =~= a + y.drop_last());
        assert((a + y).last() == y.last());
        lemma_last_newline_append(a, y.drop_last());
    }
}

/// Splitting after a line boundary splits the lines.
pub proof fn lemma_lines_concat(a: Seq<u8>, b: Seq<u8>)
    requires
        ends_at_boundary(a),
    ensures
        lines(a + b) == lines(a) + lines(b),
    decreases b.len(),
{
    if b.len() == 0 {
        assert(a + b =~= a);
        assert(lines(a) + lines(b) =~= lines(a));
    } else {
        let body_b = if b.last() == NEWLINE {
            b.drop_last()
        } else {
            b
        };
        let s = a + b;
        assert(s.last() == b.last());
        let body = if s.last() == NEWLINE {
            s.drop_last()
        } else {
            s
        };
        assert(body =~= a + body_b);
        lemma_last_newline_append(a, body_b);
        lemma_last_newline_bounds(body_b);
        let kb = last_newline(body_b);
        if kb >= 0 {
            assert(body.take(a.len() + kb + 1) =~= a + body_b.take(kb + 1));
            assert(body.skip(a.len() + kb + 1) =~= body_b.skip(kb + 1));
            lemma_lines_concat(a, body_b.take(kb + 1));
            assert(lines(a) + lines(b) =~= (lines(a) + lines(body_b.take(kb + 1))).push(
                body_b.skip(kb + 1),
            ));
        } else {
            lemma_last_newline_bounds(a);
            if a.len() > 0 {
                assert(last_newline(a) == a.len() - 1);
            }
            assert(body.take(a.len() as int) =~= a);
            assert(body.skip(a.len() as int) =~= body_b);
            assert(body_b.take(0) =~= Seq::<u8>::empty());
            assert(body_b.skip(0) =~= body_b);
            assert(lines(Seq::<u8>::empty()) =~= Seq::<Seq<u8>>::empty());
            assert(lines(a) + lines(b) =~= lines(a).push(body_b));
        }
    }
}

/// A line that ends with a newline, appended after a boundary, is one more line.
pub proof fn lemma_lines_push_line(a: Seq<u8>, l: Seq<u8>)
    requires
        ends_at_boundary(a),
        newline_free(l),
    ensures
        lines(a + l.push(NEWLINE)) == lines(a).push(l),
{
    let s = l.push(NEWLINE);
    lemma_lines_concat(a, s);
    assert(s.drop_last() =~= l);
    lemma_last_newline_bounds(l);
    if last_newline(l) >= 0 {
        assert(l[last_newline(l)] == NEWLINE);
    }
    assert(l.take(0) =~= Seq::<u8>::empty());
    assert(l.skip(0) =~= l);
    assert(lines(Seq::<u8>::empty()) =~= Seq::<Seq<u8>>::empty());
    assert(lines(a) + lines(s) =~= lines(a).push(l));
}

/// A non-empty tail without a newline, appended after a boundary, is one more line.
pub proof fn lemma_lines_push_tail(a: Seq<u8>, f: Seq<u8>)
    requires
        ends_at_boundary(a),
        newline_free(f),
        f.len() > 0,
    ensures
        lines(a + f) == lines(a).push(f),
{
    lemma_lines_concat(a, f);
    lemma_last_newline_bounds(f);
    if last_newline(f) >= 0 {
        assert(f[last_newline(f)] == NEWLINE);
    }
    assert(f.take(0) =~= Seq::<u8>::empty());
    assert(f.skip(0) =~= f);
    assert(lines(Seq::<u8>::empty()) =~= Seq::<Seq<u8>>::empty());
    assert(lines(a) + lines(f) =~= lines(a).push(f));
}

/// Every byte of `s` is a decimal digit.
pub open spec fn all_digits(s: Seq<u8>) -> bool {
    forall|i: int| 0 <= i < s.len() ==> is_digit(#[trigger] s[i])
}

/// The number that the decimal digits `s` write.
pub open spec fn digits_value(s: Seq<u8>) -> int
    decreases s.len(),
{
    if s.len() == 0 {
        0
    } else {
        digits_value(s.drop_last()) * 10 + digit_value(s.last())
    }
}

/// What a value of the grammar `-?[0-9]+.[0-9]` stands for, in tenths; `None`
/// outside the grammar or beyond `MAX_ABS_TENTHS`.
pub open spec fn parse_value(s: Seq<u8>) -> Option<int> {
    let neg = s.len() > 0 && s[0] == MINUS;
    let d = if neg {
        s.skip(1)
    } else {
        s
    };
    if d.len() >= 3 && d[d.len() - 2] == DOT && all_digits(d.take(d.len() - 2)) && is_digit(
        d.last(),
    ) {
        let tenths = digits_value(d.take(d.len() - 2)) * 10 + digit_value(d.last());
        if tenths <= MAX_ABS_TENTHS {
            Some(
                if neg {
                    -tenths
                } else {
                    tenths
                },
            )
        } else {
            None
        }
    } else {
        None
    }
}

/// Digits never write less than their prefixes do.
pub proof fn lemma_digits_prefix(s: Seq<u8>, i: int)
    requires
        all_digits(s),
        0 <= i <= s.len(),
    ensures
        0 <= digits_value(s.take(i)) <= digits_value(s),
    decreases s.len(),
{
    if i == s.len() {
        assert(s.take(i) =~= s);
        lemma_digits_nonneg(s);
    } else {
        let t = s.drop_last();
        assert(t.take(i) =~= s.take(i));
        assert(all_digits(t)) by {
            assert forall|k: int| 0 <= k < t.len() implies is_digit(#[trigger] t[k]) by {
                assert(t[k] == s[k]);
            }
        }
        lemma_digits_prefix(t, i);
        assert(is_digit(s[s.len() - 1]));
    }
}

pub proof fn lemma_digits_nonneg(s: Seq<u8>)
    requires
        all_digits(s),
    ensures
        digits_value(s) >= 0,
    decreases s.len(),
{
    if s.len() > 0 {
        let t = s.drop_last();
        assert(all_digits(t)) by {
            assert forall|k: int| 0 <= k < t.len() implies is_digit(#[trigger] t[k]) by {
                assert(t[k] == s[k]);
            }
        }
        lemma_digits_nonneg(t);
        assert(is_digit(s[s.len() - 1]));
    }
}

/// `p` is the position of the first separator of `line`.
pub open spec fn first_separator_at(line: Seq<u8>, p: int) -> bool {
    0 <= p < line.len() && line[p] == SEPARATOR && forall|i: int|
        0 <= i < p ==> line[i] != SEPARATOR
}

/// The key and the value (in tenths) of one line, split at its first separator.
pub open spec fn parse_record(line: Seq<u8>) -> Option<(Seq<u8>, int)> {
    if exists|p: int| first_separator_at(line, p) {
        let p = choose|p: int| first_separator_at(line, p);
        match parse_value(line.skip(p + 1)) {
            Some(v) => Some((line.take(p), v)),
            None => None,
        }
    } else {
        None
    }
}

pub proof fn lemma_first_separator_unique(line: Seq<u8>, p: int, q: int)
    requires
        first_separator_at(line, p),
        first_separator_at(line, q),
    ensures
        p == q,
{
}

pub proof fn lemma_parse_value_bound(s: Seq<u8>)
    ensures
        parse_value(s) matches Some(v) ==> -MAX_ABS_TENTHS <= v <= MAX_ABS_TENTHS,
{
    let neg = s.len() > 0 && s[0] == MINUS;
    let d = if neg {
        s.skip(1)
    } else {
        s
    };
    if d.len() >= 3 && all_digits(d.take(d.len() - 2)) && is_digit(d.last()) {
        lemma_digits_nonneg(d.take(d.len() - 2));
    }
}

/// Parses `data[a..b]` as a value; `None` where it is not of the grammar or
/// too large.
pub fn parse_value_in(data: &[u8], a: usize, b: usize) -> (r: Option<i64>)
    requires
        a <= b <= data@.len(),
    ensures
        match parse_value(data@.subrange(a as int, b as int)) {
            Some(v) => r == Some(v as i64),
            None => r is None,
        },
        r matches Some(v) ==> -MAX_ABS_TENTHS <= v <= MAX_ABS_TENTHS,
{
    proof {
        lemma_parse_value_bound(data@.subrange(a as int, b as int));
    }
    let ghost s = data@.subrange(a as int, b as int);
    let neg = a < b && data[a] == MINUS;
    let d0: usize = if neg {
        a + 1
    } else {
        a
    };
    let ghost d = if neg {
        s.skip(1)
    } else {
        s
    };
    assert(d =~= data@.subrange(d0 as int, b as int));
    if b - d0 < 3 || data[b - 2] != DOT || !(48 <= data[b - 1] && data[b - 1] <= 57) {
        return None;
    }
    let e: usize = b - 2;
    let ghost whole = data@.subrange(d0 as int, e as int);
    assert(d.take(d.len() - 2) =~= whole);
    assert(d.last() == data@[b - 1]);
    let ghost last = digit_value(data@[b - 1]);
    assert(parse_value(s) == if all_digits(whole) && digits_value(whole) * 10 + last
        <= MAX_ABS_TENTHS {
        Some(
            if neg {
                -(digits_value(whole) * 10 + last)
            } else {
                digits_value(whole) * 10 + last
            },
        )
    } else {
        None
    });
    let mut acc: i128 = 0;
    let mut i: usize = d0;
    assert(data@.subrange(d0 as int, d0 as int) =~= Seq::<u8>::empty());
    while i < e
        invariant
            d0 <= i <= e < b <= data@.len(),
            e == b - 2,
            s == data@.subrange(a as int, b as int),
            is_digit(data@[b - 1]),
            last == digit_value(data@[b - 1]),
            whole == data@.subrange(d0 as int, e as int),
            parse_value(s) == if all_digits(whole) && digits_value(whole) * 10 + last
                <= MAX_ABS_TENTHS {
                Some(
                    if neg {
                        -(digits_value(whole) * 10 + last)
                    } else {
                        digits_value(whole) * 10 + last
                    },
                )
            } else {
                None
            },
            acc == digits_value(data@.subrange(d0 as int, i as int)),
            0 <= acc <= MAX_ABS_TENTHS,
            all_digits(data@.subrange(d0 as int, i as int)),
        decreases e - i,
    {
        let c = data[i];
        if !(48 <= c && c <= 57) {
            assert(!all_digits(whole)) by {
                assert(whole[i - d0] == c);
            }
            return None;
        }
        proof {
            let next = data@.subrange(d0 as int, i + 1);
            assert(next.drop_last() =~= data@.subrange(d0 as int, i as int));
            assert(all_digits(next)) by {
                assert forall|k: int| 0 <= k < next.len() implies is_digit(#[trigger] next[k]) by {
                    if k < next.len() - 1 {
                        assert(next[k] == data@.subrange(d0 as int, i as int)[k]);
                    }
                }
            }
        }
        acc = acc * 10 + (c - 48) as i128;
        i = i + 1;
        if acc > MAX_ABS_TENTHS as i128 {
            proof {
                if all_digits(whole) {
                    assert(whole.take(i - d0) =~= data@.subrange(d0 as int, i as int));
                    lemma_digits_prefix(whole, i - d0);
                }
            }
            return None;
        }
    }
    assert(data@.subrange(d0 as int, i as int) =~= whole);
    let tenths: i128 = acc * 10 + (data[b - 1] - 48) as i128;
    if tenths > MAX_ABS_TENTHS as i128 {
        return None;
    }
    if neg {
        Some(-(tenths as i64))
    } else {
        Some(tenths as i64)
    }
}

/// Parses the line `data[a..b]`: the position of its first separator and its
/// value in tenths, or `None` where it is not a record.
pub fn parse_record_in(data: &[u8], a: usize, b: usize) -> (r: Option<(usize, i64)>)
    requires
        a <= b <= data@.len(),
    ensures
        match parse_record(data@.subrange(a as int, b as int)) {
            Some((k, v)) => r matches Some((p, w)) && a <= p < b && k == data@.subrange(
                a as int,
                p as int,
            ) && w == v,
            None => r is None,
        },
        r matches Some((p, w)) ==> -MAX_ABS_TENTHS <= w <= MAX_ABS_TENTHS,
{
    let ghost line = data@.subrange(a as int, b as int);
    let mut p: usize = a;
    while p < b && data[p] != SEPARATOR
        invariant
            a <= p <= b <= data@.len(),
            forall|i: int| a <= i < p ==> data@[i] != SEPARATOR,
        decreases b - p,
    {
        p = p + 1;
    }
    if p == b {
        assert forall|q: int| !first_separator_at(line, q) by {
            if first_separator_at(line, q) {
                assert(data@[a + q] == SEPARATOR);
            }
        }
        return None;
    }
    assert(first_separator_at(line, p - a));
    proof {
        let q = choose|q: int| first_separator_at(line, q);
        lemma_first_separator_unique(line, p - a, q);
        assert(line.skip(p - a + 1) =~= data@.subrange(p + 1, b as int));
        assert(line.take(p - a) =~= data@.subrange(a as int, p as int));
        lemma_parse_value_bound(data@.subrange(p + 1, b as int));
    }
    match parse_value_in(data, p + 1, b) {
        Some(v) => Some((p, v)),
        None => None,
    }
}

} // verus!
