use vstd::prelude::*;

use crate::record::{DOT, MAX_ABS_TENTHS, MINUS};
use crate::stats::{StationStats, Stats, Summary, Totals};
use vstd::arithmetic::div_mod::{lemma_fundamental_div_mod, lemma_fundamental_div_mod_converse};

verus! {

pub const OPEN_BRACE: u8 = 123;

pub const CLOSE_BRACE: u8 = 125;

pub const EQUALS: u8 = 61;

pub const SLASH: u8 = 47;

pub const COMMA: u8 = 44;

pub const SPACE: u8 = 32;

/// `a` comes strictly before `b` in lexicographic byte order.
pub open spec fn lex_lt(a: Seq<u8>, b: Seq<u8>) -> bool
    decreases a.len(),
{
    if a.len() == 0 {
        b.len() > 0
    } else if b.len() == 0 {
        false
    } else if a[0] != b[0] {
        a[0] < b[0]
    } else {
        lex_lt(a.skip(1), b.skip(1))
    }
}

pub proof fn lemma_lex_skip(a: Seq<u8>, b: Seq<u8>, i: int)
    requires
        0 <= i <= a.len(),
        i <= b.len(),
        a.take(i) == b.take(i),
    ensures
        lex_lt(a, b) == lex_lt(a.skip(i), b.skip(i)),
    decreases i,
{
    if i == 0 {
        assert(a.skip(0) =~= a);
        assert(b.skip(0) =~= b);
    } else {
        assert(a[0] == a.take(i)[0]);
        assert(b[0] == b.take(i)[0]);
        assert(a.skip(1).take(i - 1) =~= a.take(i).skip(1));
        assert(b.skip(1).take(i - 1) =~= b.take(i).skip(1));
        lemma_lex_skip(a.skip(1), b.skip(1), i - 1);
        assert(a.skip(1).skip(i - 1) =~= a.skip(i));
        assert(b.skip(1).skip(i - 1) =~= b.skip(i));
    }
}

/// Two different strings that agree on their first byte differ after it.
proof fn lemma_tails_differ(a: Seq<u8>, b: Seq<u8>)
    requires
        a.len() > 0,
        b.len() > 0,
        a != b,
        a[0] == b[0],
    ensures
        a.skip(1) != b.skip(1),
{
    if a.skip(1) == b.skip(1) {
        assert(a.skip(1).len() == b.skip(1).len());
        assert(a.len() == b.len());
        assert forall|i: int| 0 <= i < a.len() implies a[i] == b[i] by {
            if i > 0 {
                assert(a[i] == a.skip(1)[i - 1]);
                assert(b[i] == b.skip(1)[i - 1]);
            }
        }
        assert(a =~= b);
    }
}

/// Lexicographic order is a strict total order.
pub proof fn lemma_lex_order(a: Seq<u8>, b: Seq<u8>, c: Seq<u8>)
    ensures
        !lex_lt(a, a),
        a != b ==> lex_lt(a, b) || lex_lt(b, a),
        lex_lt(a, b) ==> !lex_lt(b, a),
        lex_lt(a, b) && lex_lt(b, c) ==> lex_lt(a, c),
    decreases a.len(),
{
    if a.len() > 0 && b.len() > 0 {
        let c1 = if c.len() > 0 {
            c.skip(1)
        } else {
            b.skip(1)
        };
        lemma_lex_order(a.skip(1), b.skip(1), c1);
        if a != b && a[0] == b[0] {
            lemma_tails_differ(a, b);
        }
    } else if a.len() > 0 {
        lemma_lex_order(a.skip(1), a.skip(1), a.skip(1));
    }
    if a.len() == 0 && b.len() == 0 {
        assert(a =~= b);
    }
}

/// Compares two byte strings in lexicographic order.
pub fn lex_less(a: &[u8], b: &[u8]) -> (r: bool)
    ensures
        r == lex_lt(a@, b@),
{
    let mut i: usize = 0;
    while i < a.len() && i < b.len() && a[i] == b[i]
        invariant
            i <= a@.len(),
            i <= b@.len(),
            a@.take(i as int) == b@.take(i as int),
        decreases a@.len() - i,
    {
        assert(a@.take(i + 1) =~= a@.take(i as int).push(a@[i as int]));
        assert(b@.take(i + 1) =~= b@.take(i as int).push(b@[i as int]));
        i = i + 1;
    }
    proof {
        lemma_lex_skip(a@, b@, i as int);
    }
    if i == a.len() {
        i < b.len()
    } else if i == b.len() {
        false
    } else {
        a[i] < b[i]
    }
}

/// The keys are in strictly ascending order.
pub open spec fn strictly_sorted(ks: Seq<Seq<u8>>) -> bool {
    forall|i: int, j: int| 0 <= i < j < ks.len() ==> lex_lt(#[trigger] ks[i], #[trigger] ks[j])
}

/// Two strictly ascending sequences of the same keys are equal: the key order
/// that `render` writes is fixed by the keys.
pub proof fn lemma_sorted_unique(a: Seq<Seq<u8>>, b: Seq<Seq<u8>>)
    requires
        strictly_sorted(a),
        strictly_sorted(b),
        a.to_set() == b.to_set(),
    ensures
        a == b,
    decreases a.len(),
{
    if a.len() == 0 {
        if b.len() > 0 {
            assert(b.to_set().contains(b[0]));
        }
        assert(a =~= b);
    } else if b.len() == 0 {
        assert(a.to_set().contains(a[0]));
    } else {
        assert(a.to_set().contains(b[0]));
        assert(b.to_set().contains(a[0]));
        let i = choose|i: int| 0 <= i < a.len() && a[i] == b[0];
        let j = choose|j: int| 0 <= j < b.len() && b[j] == a[0];
        lemma_lex_order(a[0], b[0], a[0]);
        if i > 0 && j > 0 {
            assert(lex_lt(a[0], a[i]));
            assert(lex_lt(b[0], b[j]));
        }
        assert(a[0] == b[0]) by {
            if i > 0 {
                assert(lex_lt(a[0], a[i]));
                if j > 0 {
                } else {
                    lemma_lex_order(a[0], a[0], a[0]);
                }
            }
        }
        let a1 = a.skip(1);
        let b1 = b.skip(1);
        assert(strictly_sorted(a1)) by {
            assert forall|x: int, y: int| 0 <= x < y < a1.len() implies lex_lt(
                #[trigger] a1[x],
                #[trigger] a1[y],
            ) by {
                assert(a1[x] == a[x + 1] && a1[y] == a[y + 1]);
            }
        }
        assert(strictly_sorted(b1)) by {
            assert forall|x: int, y: int| 0 <= x < y < b1.len() implies lex_lt(
                #[trigger] b1[x],
                #[trigger] b1[y],
            ) by {
                assert(b1[x] == b[x + 1] && b1[y] == b[y + 1]);
            }
        }
        assert(a1.to_set() =~= b1.to_set()) by {
            assert forall|k: Seq<u8>| a1.to_set().contains(k) implies b1.to_set().contains(k) by {
                let x = choose|x: int| 0 <= x < a1.len() && a1[x] == k;
                assert(a[x + 1] == k);
                assert(lex_lt(a[0], k));
                lemma_lex_order(k, k, k);
                assert(b.to_set().contains(k));
                let y = choose|y: int| 0 <= y < b.len() && b[y] == k;
                assert(y != 0);
                assert(b1[y - 1] == k);
            }
            assert forall|k: Seq<u8>| b1.to_set().contains(k) implies a1.to_set().contains(k) by {
                let x = choose|x: int| 0 <= x < b1.len() && b1[x] == k;
                assert(b[x + 1] == k);
                assert(lex_lt(b[0], k));
                lemma_lex_order(k, k, k);
                assert(a.to_set().contains(k));
                let y = choose|y: int| 0 <= y < a.len() && a[y] == k;
                assert(y != 0);
                assert(a1[y - 1] == k);
            }
        }
        lemma_sorted_unique(a1, b1);
        assert(a =~= b) by {
            assert forall|x: int| 0 <= x < a.len() implies a[x] == b[x] by {
                if x > 0 {
                    assert(a[x] == a1[x - 1]);
                    assert(b[x] == b1[x - 1]);
                }
            }
        }
    }
}

pub open spec fn digit_char(d: int) -> u8 {
    (48 + d) as u8
}

/// The decimal digits of `n`.
pub open spec fn decimal(n: nat) -> Seq<u8>
    decreases n,
{
    if n < 10 {
        seq![digit_char(n as int)]
    } else {
        decimal(n / 10).push(digit_char((n % 10) as int))
    }
}

pub open spec fn abs(v: int) -> nat {
    if v < 0 {
        (-v) as nat
    } else {
        v as nat
    }
}

/// A value in tenths written with one fractional digit: `-3.4`, `12.0`.
pub open spec fn tenths_text(v: int) -> Seq<u8> {
    (if v < 0 {
        seq![MINUS]
    } else {
        Seq::empty()
    }) + decimal(abs(v) / 10) + seq![DOT, digit_char((abs(v) % 10) as int)]
}

/// The mean `sum / count` in tenths, rounded to the nearest, halves upward.
pub open spec fn mean_tenths(sum: int, count: int) -> int {
    (2 * sum + count) / (2 * count)
}

/// `key=min/mean/max`.
pub open spec fn entry_text(k: Seq<u8>, st: Summary) -> Seq<u8> {
    k + seq![EQUALS] + tenths_text(st.min) + seq![SLASH] + tenths_text(
        mean_tenths(st.sum, st.count as int),
    ) + seq![SLASH] + tenths_text(st.max)
}

/// The entries of `ks`, in that order, separated by `", "`.
pub open spec fn entries_text(ks: Seq<Seq<u8>>, m: Totals) -> Seq<u8>
    decreases ks.len(),
{
    if ks.len() == 0 {
        Seq::empty()
    } else if ks.len() == 1 {
        entry_text(ks[0], m[ks[0]])
    } else {
        entries_text(ks.drop_last(), m) + seq![COMMA, SPACE] + entry_text(ks.last(), m[ks.last()])
    }
}

/// `{k1=min/mean/max, k2=...}` over the keys `ks`.
pub open spec fn render_text(ks: Seq<Seq<u8>>, m: Totals) -> Seq<u8> {
    seq![OPEN_BRACE] + entries_text(ks, m) + seq![CLOSE_BRACE]
}

fn push_bytes(out: &mut Vec<u8>, b: &[u8])
    ensures
        final(out)@ == old(out)@ + b@,
{
    let mut i: usize = 0;
    while i < b.len()
        invariant
            i <= b@.len(),
            out@ == old(out)@ + b@.take(i as int),
        decreases b@.len() - i,
    {
        out.push(b[i]);
        assert(b@.take(i + 1) =~= b@.take(i as int).push(b@[i as int]));
        i = i + 1;
    }
    assert(b@.take(b@.len() as int) =~= b@);
}

fn push_decimal(out: &mut Vec<u8>, n: u64)
    ensures
        final(out)@ == old(out)@ + decimal(n as nat),
    decreases n,
{
    let ghost start = out@;
    if n >= 10 {
        push_decimal(out, n / 10);
    }
    out.push((48 + n % 10) as u8);
    assert(out@ =~= start + decimal(n as nat));
}

fn push_tenths(out: &mut Vec<u8>, v: i64)
    requires
        -MAX_ABS_TENTHS <= v <= MAX_ABS_TENTHS,
    ensures
        final(out)@ == old(out)@ + tenths_text(v as int),
{
    let ghost start = out@;
    let a: u64 = if v < 0 {
        (-v) as u64
    } else {
        v as u64
    };
    if v < 0 {
        out.push(MINUS);
    }
    push_decimal(out, a / 10);
    out.push(DOT);
    out.push((48 + a % 10) as u8);
    assert(out@ =~= start + tenths_text(v as int));
}

/// The mean of `st` in tenths, rounded as `mean_tenths` says.
pub fn mean_of(st: &Stats) -> (r: i64)
    requires
        st.wf(),
    ensures
        r == mean_tenths(st.sum as int, st.count as int),
        -MAX_ABS_TENTHS <= r <= MAX_ABS_TENTHS,
{
    let c: i128 = st.count as i128;
    let m: i128 = MAX_ABS_TENTHS as i128;
    proof {
        assert(m * c <= MAX_ABS_TENTHS * u64::MAX) by (nonlinear_arith)
            requires
                m == MAX_ABS_TENTHS,
                0 <= c <= u64::MAX,
        ;
        assert(m * c == c * m) by (nonlinear_arith);
    }
    let num: i128 = 2 * (st.sum + m * c) + c;
    let den: i128 = 2 * c;
    let un: u128 = num as u128;
    let ud: u128 = den as u128;
    let uq: u128 = un / ud;
    let ur: u128 = un % ud;
    proof {
        lemma_fundamental_div_mod(un as int, ud as int);
        assert(uq <= un) by (nonlinear_arith)
            requires
                un == ud * uq + ur,
                ud >= 1,
                ur >= 0,
                uq >= 0,
        ;
    }
    let q: i128 = uq as i128;
    let rem: i128 = ur as i128;
    proof {
        assert(num == den * q + rem);
        assert(num == q * den + rem) by (nonlinear_arith)
            requires
                num == den * q + rem,
        ;
        assert((q - m) * den == q * den - m * den) by (nonlinear_arith);
        assert(2 * st.sum + c == (q - m) * den + rem);
        lemma_fundamental_div_mod_converse(
            2 * st.sum + c,
            den as int,
            q - m,
            rem as int,
        );
        assert(num < (2 * m + 1) * den) by (nonlinear_arith)
            requires
                num == 2 * (st.sum + m * c) + c,
                st.sum <= c * m,
                den == 2 * c,
                c >= 1,
        ;
        assert(q < 2 * m + 1) by (nonlinear_arith)
            requires
                num == q * den + rem,
                rem >= 0,
                num < (2 * m + 1) * den,
                den > 0,
        ;
        assert(q >= 0) by (nonlinear_arith)
            requires
                num == q * den + rem,
                rem < den,
                num >= 0,
                den > 0,
        ;
    }
    (q - m) as i64
}

fn push_entry(out: &mut Vec<u8>, key: &[u8], st: &Stats)
    requires
        st.wf(),
    ensures
        final(out)@ == old(out)@ + entry_text(key@, st@),
{
    let ghost start = out@;
    push_bytes(out, key);
    out.push(EQUALS);
    push_tenths(out, st.min);
    out.push(SLASH);
    let mean = mean_of(st);
    push_tenths(out, mean);
    out.push(SLASH);
    push_tenths(out, st.max);
    assert(out@ =~= start + entry_text(key@, st@));
}

/// Slot `s` stands somewhere in `order`.
pub open spec fn holds_slot(order: Seq<usize>, s: int) -> bool {
    exists|i: int| 0 <= i < order.len() && order[i] == s
}

/// The slots of `agg`, ordered by their keys.
pub fn sorted_slots(agg: &StationStats) -> (r: Vec<usize>)
    requires
        agg.wf(),
    ensures
        r@.len() == agg@.len(),
        forall|i: int| 0 <= i < r@.len() ==> (#[trigger] r@[i]) < agg@.len(),
        forall|s: int| 0 <= s < agg@.len() ==> #[trigger] holds_slot(r@, s),
        forall|i: int, j: int|
            0 <= i < j < r@.len() ==> lex_lt(
                #[trigger] agg.slot_key(r@[i] as int),
                #[trigger] agg.slot_key(r@[j] as int),
            ),
{
    let n = agg.len();
    proof {
        agg.lemma_slots();
    }
    let mut order: Vec<usize> = Vec::new();
    let mut s: usize = 0;
    while s < n
        invariant
            agg.wf(),
            n == agg@.len(),
            s <= n,
            order@.len() == s,
            forall|i: int| 0 <= i < order@.len() ==> (#[trigger] order@[i]) < s,
            forall|t: int| 0 <= t < s ==> #[trigger] holds_slot(order@, t),
            forall|i: int, j: int|
                0 <= i < j < order@.len() ==> lex_lt(
                    #[trigger] agg.slot_key(order@[i] as int),
                    #[trigger] agg.slot_key(order@[j] as int),
                ),
            forall|i: int, j: int|
                0 <= i < n && 0 <= j < n && i != j ==> agg.slot_key(i) != agg.slot_key(j),
        decreases n - s,
    {
        let key = agg.key_at(s);
        let mut p: usize = 0;
        while p < order.len() && lex_less(agg.key_at(order[p]).as_slice(), key.as_slice())
            invariant
                agg.wf(),
                n == agg@.len(),
                s < n,
                key@ == agg.slot_key(s as int),
                p <= order@.len(),
                forall|i: int| 0 <= i < order@.len() ==> (#[trigger] order@[i]) < s,
                forall|i: int|
                    0 <= i < p ==> lex_lt(
                        #[trigger] agg.slot_key(order@[i] as int),
                        agg.slot_key(s as int),
                    ),
            decreases order@.len() - p,
        {
            p = p + 1;
        }
        let ghost old_order = order@;
        proof {
            if p < old_order.len() {
                let kp = agg.slot_key(old_order[p as int] as int);
                let ks = agg.slot_key(s as int);
                lemma_lex_order(kp, ks, ks);
                assert(lex_lt(ks, kp));
                assert forall|j: int| p <= j < old_order.len() implies lex_lt(
                    ks,
                    agg.slot_key(old_order[j] as int),
                ) by {
                    if j > p {
                        lemma_lex_order(ks, kp, agg.slot_key(old_order[j] as int));
                    }
                }
            }
        }
        order.insert(p, s);
        proof {
            assert forall|t: int| 0 <= t < s + 1 implies #[trigger] holds_slot(order@, t) by {
                if t == s {
                    assert(order@[p as int] == t);
                } else {
                    assert(holds_slot(old_order, t));
                    let i = choose|i: int| 0 <= i < old_order.len() && old_order[i] == t;
                    if i < p {
                        assert(order@[i] == t);
                    } else {
                        assert(order@[i + 1] == t);
                    }
                }
            }
        }
        s = s + 1;
    }
    order
}

/// Writes `{key=min/mean/max, ...}` with the keys in ascending byte order and
/// each number with one fractional digit; `{}` for no keys. By
/// `lemma_sorted_unique` only one key sequence meets this, so the text is fixed
/// by the totals.
pub fn render(agg: &StationStats) -> (r: Vec<u8>)
    requires
        agg.wf(),
    ensures
        exists|ks: Seq<Seq<u8>>|
            strictly_sorted(ks) && ks.to_set() == agg@.dom() && r@ == render_text(ks, agg@),
{
    let order = sorted_slots(agg);
    let ghost ks = order@.map_values(|s: usize| agg.slot_key(s as int));
    let mut out: Vec<u8> = Vec::new();
    out.push(OPEN_BRACE);
    let n = order.len();
    let mut j: usize = 0;
    while j < n
        invariant
            agg.wf(),
            n == order@.len(),
            n == agg@.len(),
            j <= n,
            ks == order@.map_values(|s: usize| agg.slot_key(s as int)),
            forall|i: int| 0 <= i < order@.len() ==> (#[trigger] order@[i]) < agg@.len(),
            out@ == seq![OPEN_BRACE] + entries_text(ks.take(j as int), agg@),
        decreases n - j,
    {
        if j > 0 {
            out.push(COMMA);
            out.push(SPACE);
        }
        let slot = order[j];
        let key = agg.key_at(slot);
        let st = agg.stats_at(slot);
        push_entry(&mut out, key.as_slice(), &st);
        proof {
            let t = ks.take(j + 1);
            assert(t.drop_last() =~= ks.take(j as int));
            assert(t.last() == key@);
            if j == 0 {
                assert(ks.take(0) =~= Seq::<Seq<u8>>::empty());
            }
            assert(out@ =~= seq![OPEN_BRACE] + entries_text(t, agg@));
        }
        j = j + 1;
    }
    out.push(CLOSE_BRACE);
    proof {
        agg.lemma_slots();
        assert(ks.take(n as int) =~= ks);
        assert(out@ =~= render_text(ks, agg@));
        assert(ks.to_set() =~= agg@.dom()) by {
            assert forall|k: Seq<u8>| ks.to_set().contains(k) implies agg@.dom().contains(k) by {
                let i = choose|i: int| 0 <= i < ks.len() && ks[i] == k;
                assert(agg@.contains_key(agg.slot_key(order@[i] as int)));
            }
            assert forall|k: Seq<u8>| agg@.dom().contains(k) implies ks.to_set().contains(k) by {
                assert(agg@.contains_key(k));
                let s = choose|s: int| 0 <= s < agg@.len() && agg.slot_key(s) == k;
                assert(holds_slot(order@, s));
                let i = choose|i: int| 0 <= i < order@.len() && order@[i] == s;
                assert(ks[i] == k);
            }
        }
    }
    out
}

} // verus!
