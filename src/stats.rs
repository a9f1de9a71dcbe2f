use vstd::prelude::*;

use crate::record::{lines, parse_record, MAX_ABS_TENTHS};
use vstd::slice::slice_to_vec;

verus! {

/// The statistics of one key: values in tenths, `count >= 1`.
pub struct Summary {
    pub min: int,
    pub max: int,
    pub sum: int,
    pub count: nat,
}

/// Per-key statistics, keyed by the key's bytes.
pub type Totals = Map<Seq<u8>, Summary>;

pub open spec fn single(v: int) -> Summary {
    Summary { min: v, max: v, sum: v, count: 1 }
}

pub open spec fn combine(a: Summary, b: Summary) -> Summary {
    Summary {
        min: if a.min <= b.min {
            a.min
        } else {
            b.min
        },
        max: if a.max >= b.max {
            a.max
        } else {
            b.max
        },
        sum: a.sum + b.sum,
        count: a.count + b.count,
    }
}

/// Keys of either side; a key on both sides gets the combined statistics.
pub open spec fn merge_totals(m1: Totals, m2: Totals) -> Totals {
    Map::new(
        |k: Seq<u8>| m1.contains_key(k) || m2.contains_key(k),
        |k: Seq<u8>|
            if m1.contains_key(k) && m2.contains_key(k) {
                combine(m1[k], m2[k])
            } else if m1.contains_key(k) {
                m1[k]
            } else {
                m2[k]
            },
    )
}

pub open spec fn unit(k: Seq<u8>, v: int) -> Totals {
    Map::empty().insert(k, single(v))
}

pub open spec fn merge_results(a: Option<Totals>, b: Option<Totals>) -> Option<Totals> {
    match (a, b) {
        (Some(x), Some(y)) => Some(merge_totals(x, y)),
        _ => None,
    }
}

/// The totals of a sequence of lines, in order; `None` where a line is no record.
pub open spec fn totals_of_lines(ls: Seq<Seq<u8>>) -> Option<Totals>
    decreases ls.len(),
{
    if ls.len() == 0 {
        Some(Map::empty())
    } else {
        match (totals_of_lines(ls.drop_last()), parse_record(ls.last())) {
            (Some(m), Some((k, v))) => Some(merge_totals(m, unit(k, v))),
            _ => None,
        }
    }
}

/// The totals of a whole input: the one result every strategy must reach.
#[verifier::opaque]
pub open spec fn summarize(s: Seq<u8>) -> Option<Totals> {
    totals_of_lines(lines(s))
}

pub proof fn lemma_summarize_empty()
    ensures
        summarize(Seq::<u8>::empty()) == Some(Map::<Seq<u8>, Summary>::empty()),
{
    reveal(summarize);
    assert(lines(Seq::<u8>::empty()) =~= Seq::<Seq<u8>>::empty());
}

/// Merging is commutative.
pub proof fn lemma_merge_commutative(m1: Totals, m2: Totals)
    ensures
        merge_totals(m1, m2) == merge_totals(m2, m1),
{
    assert(merge_totals(m1, m2) =~= merge_totals(m2, m1));
}

/// Merging is associative.
pub proof fn lemma_merge_associative(m1: Totals, m2: Totals, m3: Totals)
    ensures
        merge_totals(merge_totals(m1, m2), m3) == merge_totals(m1, merge_totals(m2, m3)),
{
    assert(merge_totals(merge_totals(m1, m2), m3) =~= merge_totals(m1, merge_totals(m2, m3)));
}

/// The empty totals are neutral for merging.
pub proof fn lemma_merge_empty(m: Totals)
    ensures
        merge_totals(m, Map::empty()) == m,
        merge_totals(Map::empty(), m) == m,
{
    assert(merge_totals(m, Map::empty()) =~= m);
    assert(merge_totals(Map::empty(), m) =~= m);
}

/// Aggregating two runs of lines one after the other is merging their totals:
/// any grouping of the records gives the same result.
pub proof fn lemma_totals_concat(l1: Seq<Seq<u8>>, l2: Seq<Seq<u8>>)
    ensures
        totals_of_lines(l1 + l2) == merge_results(totals_of_lines(l1), totals_of_lines(l2)),
    decreases l2.len(),
{
    if l2.len() == 0 {
        assert(l1 + l2 =~= l1);
        if let Some(m) = totals_of_lines(l1) {
            lemma_merge_empty(m);
        }
    } else {
        assert((l1 + l2).drop_last() =~= l1 + l2.drop_last());
        assert((l1 + l2).last() == l2.last());
        lemma_totals_concat(l1, l2.drop_last());
        match (totals_of_lines(l1), totals_of_lines(l2.drop_last()), parse_record(l2.last())) {
            (Some(a), Some(b), Some((k, v))) => {
                lemma_merge_associative(a, b, unit(k, v));
            },
            _ => {},
        }
    }
}

/// The statistics of one key as machine integers; values in tenths.
#[derive(Clone, Copy)]
pub struct Stats {
    pub min: i64,
    pub max: i64,
    pub sum: i128,
    pub count: u64,
}

impl View for Stats {
    type V = Summary;

    open spec fn view(&self) -> Summary {
        Summary { min: self.min as int, max: self.max as int, sum: self.sum as int, count: self.count as nat }
    }
}

impl Stats {
    /// At least one value, all within the value range, `min <= max`.
    pub open spec fn wf(&self) -> bool {
        &&& 1 <= self.count
        &&& -MAX_ABS_TENTHS <= self.min <= self.max <= MAX_ABS_TENTHS
        &&& -(self.count * MAX_ABS_TENTHS) <= self.sum <= self.count * MAX_ABS_TENTHS
    }

    pub fn single(value: i64) -> (r: Stats)
        requires
            -MAX_ABS_TENTHS <= value <= MAX_ABS_TENTHS,
        ensures
            r@ == single(value as int),
            r.wf(),
    {
        Stats { min: value, max: value, sum: value as i128, count: 1 }
    }

    pub fn combine(&self, other: &Stats) -> (r: Stats)
        requires
            self.wf(),
            other.wf(),
            self.count + other.count <= u64::MAX,
        ensures
            r@ == combine(self@, other@),
            r.wf(),
    {
        proof {
            assert(self.count * MAX_ABS_TENTHS + other.count * MAX_ABS_TENTHS == (self.count
                + other.count) * MAX_ABS_TENTHS) by (nonlinear_arith);
            assert(self.count * MAX_ABS_TENTHS <= u64::MAX * MAX_ABS_TENTHS) by (nonlinear_arith)
                requires
                    self.count <= u64::MAX,
            ;
            assert(other.count * MAX_ABS_TENTHS <= u64::MAX * MAX_ABS_TENTHS) by (nonlinear_arith)
                requires
                    other.count <= u64::MAX,
            ;
        }
        Stats {
            min: if self.min <= other.min {
                self.min
            } else {
                other.min
            },
            max: if self.max >= other.max {
                self.max
            } else {
                other.max
            },
            sum: self.sum + other.sum,
            count: self.count + other.count,
        }
    }
}

/// A map from key bytes to slots: an `FxHashMap` of fxhash, which Verus sees
/// only through `key_slots`.
#[verifier::external_body]
pub struct KeyIndex {
    map: fxhash::FxHashMap<Vec<u8>, usize>,
}

/// The slot that a key index holds for each key.
pub uninterp spec fn key_slots(m: KeyIndex) -> Map<Seq<u8>, usize>;

impl KeyIndex {
    /// Relies on `HashMap::default` (the `FxHashMap` of fxhash): a new map is empty.
    #[verifier::external_body]
    fn new() -> (r: KeyIndex)
        ensures
            forall|k: Seq<u8>| !key_slots(r).contains_key(k),
    {
        KeyIndex { map: fxhash::FxHashMap::default() }
    }

    /// Relies on `HashMap::get`: the slot of a key that is present, else nothing.
    #[verifier::external_body]
    fn get(&self, key: &[u8]) -> (r: Option<usize>)
        ensures
            r == if key_slots(*self).contains_key(key@) {
                Some(key_slots(*self)[key@])
            } else {
                None
            },
    {
        self.map.get(key).copied()
    }

    /// Relies on `HashMap::insert`: the key maps to the slot afterwards, the
    /// other keys are unchanged.
    #[verifier::external_body]
    fn insert(&mut self, key: Vec<u8>, slot: usize)
        ensures
            key_slots(*final(self)) == key_slots(*old(self)).insert(key@, slot),
    {
        self.map.insert(key, slot);
    }
}

/// The aggregate of one worker, or the merged aggregate of several.
pub struct StationStats {
    index: KeyIndex,
    keys: Vec<Vec<u8>>,
    stats: Vec<Stats>,
}

impl View for StationStats {
    type V = Totals;

    closed spec fn view(&self) -> Totals {
        self.prefix_view(self.keys@.len() as int)
    }
}

impl StationStats {
    /// The totals of the keys in the first `n` slots.
    pub closed spec fn prefix_view(&self, n: int) -> Totals {
        Map::new(
            |k: Seq<u8>| key_slots(self.index).contains_key(k) && key_slots(self.index)[k] < n,
            |k: Seq<u8>| self.stats@[key_slots(self.index)[k] as int]@,
        )
    }

    /// Slot `i` holds `keys[i]` and `stats[i]`; the index and the keys agree.
    pub closed spec fn wf(&self) -> bool {
        &&& self.keys@.len() == self.stats@.len()
        &&& forall|k: Seq<u8>| #[trigger]
            key_slots(self.index).contains_key(k) ==> key_slots(self.index)[k]
                < self.keys@.len() && self.keys@[key_slots(self.index)[k] as int]@ == k
        &&& forall|i: int|
            0 <= i < self.keys@.len() ==> key_slots(self.index).contains_key(
                #[trigger] self.keys@[i]@,
            ) && key_slots(self.index)[self.keys@[i]@] == i
        &&& forall|i: int| 0 <= i < self.stats@.len() ==> (#[trigger] self.stats@[i]).wf()
    }

    pub fn new() -> (r: StationStats)
        ensures
            r.wf(),
            r@ == Map::<Seq<u8>, Summary>::empty(),
    {
        let r = StationStats { index: KeyIndex::new(), keys: Vec::new(), stats: Vec::new() };
        assert(key_slots(r.index) =~= Map::<Seq<u8>, usize>::empty());
        assert(r@ =~= Map::<Seq<u8>, Summary>::empty());
        r
    }

    /// Number of distinct keys.
    pub fn len(&self) -> (r: usize)
        requires
            self.wf(),
        ensures
            r == self@.len(),
    {
        proof {
            self.lemma_dom_len();
        }
        self.keys.len()
    }

    proof fn lemma_dom_len(&self)
        requires
            self.wf(),
        ensures
            self@.dom().finite(),
            self@.dom().len() == self.keys@.len(),
    {
        let ks = self.keys@.map_values(|v: Vec<u8>| v@);
        assert(ks.no_duplicates()) by {
            assert forall|i: int, j: int|
                0 <= i < ks.len() && 0 <= j < ks.len() && i != j implies ks[i] != ks[j] by {
                assert(key_slots(self.index)[self.keys@[i]@] == i);
                assert(key_slots(self.index)[self.keys@[j]@] == j);
            }
        }
        assert(self@.dom() =~= ks.to_set()) by {
            assert forall|k: Seq<u8>| self@.dom().contains(k) implies ks.to_set().contains(k) by {
                assert(ks[key_slots(self.index)[k] as int] == k);
            }
            assert forall|k: Seq<u8>| ks.to_set().contains(k) implies self@.dom().contains(k) by {
                let i = choose|i: int| 0 <= i < ks.len() && ks[i] == k;
                assert(self.keys@[i]@ == k);
            }
        }
        ks.unique_seq_to_set();
    }

    /// Every entry of a well-formed aggregate has a count of at least one,
    /// `min <= max`, and values within the value range.
    pub proof fn lemma_entries_valid(&self)
        requires
            self.wf(),
        ensures
            forall|k: Seq<u8>| #[trigger]
                self@.contains_key(k) ==> {
                    &&& self@[k].count >= 1
                    &&& -MAX_ABS_TENTHS <= self@[k].min <= self@[k].max <= MAX_ABS_TENTHS
                },
    {
        assert forall|k: Seq<u8>| #[trigger] self@.contains_key(k) implies self@[k].count >= 1
            && -MAX_ABS_TENTHS <= self@[k].min <= self@[k].max <= MAX_ABS_TENTHS by {
            assert(self.stats@[key_slots(self.index)[k] as int].wf());
        }
    }

    /// The key in slot `i`.
    pub closed spec fn slot_key(&self, i: int) -> Seq<u8> {
        self.keys@[i]@
    }

    /// Each slot below the number of keys holds a distinct key of the
    /// aggregate, and each key has a slot.
    pub proof fn lemma_slots(&self)
        requires
            self.wf(),
        ensures
            self@.dom().finite(),
            forall|i: int| 0 <= i < self@.len() ==> self@.contains_key(#[trigger] self.slot_key(i)),
            forall|i: int, j: int|
                0 <= i < self@.len() && 0 <= j < self@.len() && i != j ==> self.slot_key(i)
                    != self.slot_key(j),
            forall|k: Seq<u8>|
                #[trigger] self@.contains_key(k) ==> exists|i: int|
                    0 <= i < self@.len() && self.slot_key(i) == k,
    {
        self.lemma_dom_len();
        assert forall|i: int, j: int|
            0 <= i < self@.len() && 0 <= j < self@.len() && i != j implies self.slot_key(i)
            != self.slot_key(j) by {
            assert(key_slots(self.index)[self.keys@[i]@] == i);
            assert(key_slots(self.index)[self.keys@[j]@] == j);
        }
        assert forall|k: Seq<u8>| #[trigger] self@.contains_key(k) implies exists|i: int|
            0 <= i < self@.len() && self.slot_key(i) == k by {
            assert(self.slot_key(key_slots(self.index)[k] as int) == k);
        }
    }

    /// The key in slot `i`; slots run over the keys in the order they were first seen.
    pub fn key_at(&self, i: usize) -> (r: &Vec<u8>)
        requires
            self.wf(),
            i < self@.len(),
        ensures
            self@.contains_key(r@),
            r@ == self.slot_key(i as int),
    {
        proof {
            self.lemma_dom_len();
        }
        &self.keys[i]
    }

    /// The statistics in slot `i`.
    pub fn stats_at(&self, i: usize) -> (r: Stats)
        requires
            self.wf(),
            i < self@.len(),
        ensures
            r@ == self@[self.slot_key(i as int)],
            r.wf(),
    {
        proof {
            self.lemma_dom_len();
        }
        self.stats[i]
    }

    /// The statistics of `key`, if it was seen.
    pub fn get(&self, key: &[u8]) -> (r: Option<Stats>)
        requires
            self.wf(),
        ensures
            match r {
                Some(s) => self@.contains_key(key@) && s@ == self@[key@] && s.wf(),
                None => !self@.contains_key(key@),
            },
    {
        match self.index.get(key) {
            Some(slot) => Some(self.stats[slot]),
            None => None,
        }
    }

    /// Adds `add` to the statistics of `key`.
    fn absorb(&mut self, key: &[u8], add: Stats)
        requires
            old(self).wf(),
            add.wf(),
            old(self)@.contains_key(key@) ==> old(self)@[key@].count + add.count <= u64::MAX,
        ensures
            final(self).wf(),
            final(self)@ == merge_totals(old(self)@, Map::empty().insert(key@, add@)),
    {
        let ghost old_self = *self;
        let ghost one = Map::<Seq<u8>, Summary>::empty().insert(key@, add@);
        match self.index.get(key) {
            Some(slot) => {
                let cur = self.stats[slot];
                let next = cur.combine(&add);
                self.stats.set(slot, next);
                assert(self@ =~= merge_totals(old_self@, one));
            },
            None => {
                let slot = self.keys.len();
                self.keys.push(slice_to_vec(key));
                self.stats.push(add);
                self.index.insert(slice_to_vec(key), slot);
                assert forall|k: Seq<u8>| #[trigger]
                    key_slots(self.index).contains_key(k) implies key_slots(self.index)[k]
                    < self.keys@.len() && self.keys@[key_slots(self.index)[k] as int]@ == k by {
                    if k != key@ {
                        assert(key_slots(old_self.index).contains_key(k));
                    }
                }
                assert forall|i: int| 0 <= i < self.keys@.len() implies key_slots(
                    self.index,
                ).contains_key(#[trigger] self.keys@[i]@) && key_slots(self.index)[self.keys@[i]@]
                    == i by {
                    if i < slot {
                        assert(old_self.keys@[i] == self.keys@[i]);
                        assert(key_slots(old_self.index).contains_key(old_self.keys@[i]@));
                        assert(self.keys@[i]@ != key@);
                    }
                }
                assert(self@ =~= merge_totals(old_self@, one));
            },
        }
    }

    /// Counts one record: `value` (in tenths) for `key`.
    pub fn record(&mut self, key: &[u8], value: i64)
        requires
            old(self).wf(),
            -MAX_ABS_TENTHS <= value <= MAX_ABS_TENTHS,
            old(self)@.contains_key(key@) ==> old(self)@[key@].count < u64::MAX,
        ensures
            final(self).wf(),
            final(self)@ == merge_totals(old(self)@, unit(key@, value as int)),
            final(self)@.contains_key(key@),
            final(self)@[key@].min <= value <= final(self)@[key@].max,
    {
        let add = Stats::single(value);
        self.absorb(key, add);
    }

    /// Whether merging `other` keeps every count within `u64`.
    pub fn can_merge(&self, other: &StationStats) -> (r: bool)
        requires
            self.wf(),
            other.wf(),
        ensures
            r == forall|k: Seq<u8>|
                self@.contains_key(k) && other@.contains_key(k) ==> self@[k].count
                    + other@[k].count <= u64::MAX,
    {
        proof {
            other.lemma_slots();
            other.lemma_dom_len();
        }
        let n = other.keys.len();
        let mut i: usize = 0;
        while i < n
            invariant
                self.wf(),
                other.wf(),
                n == other@.len(),
                n == other.keys@.len(),
                other.stats@.len() == n,
                forall|j: int| 0 <= j < n ==> other@.contains_key(#[trigger] other.slot_key(j)),
                i <= n,
                forall|j: int|
                    0 <= j < i ==> {
                        let k = #[trigger] other.slot_key(j);
                        self@.contains_key(k) ==> self@[k].count + other@[k].count <= u64::MAX
                    },
            decreases n - i,
        {
            let key = other.keys[i].as_slice();
            let add = other.stats[i];
            assert(key@ == other.slot_key(i as int));
            assert(key_slots(other.index)[key@] == i);
            assert(other@[key@] == add@);
            match self.get(key) {
                Some(cur) => {
                    if cur.count > u64::MAX - add.count {
                        return false;
                    }
                },
                None => {},
            }
            i = i + 1;
        }
        proof {
            assert forall|k: Seq<u8>|
                self@.contains_key(k) && other@.contains_key(k) implies self@[k].count
                + other@[k].count <= u64::MAX by {
                let j = choose|j: int| 0 <= j < other@.len() && other.slot_key(j) == k;
                assert(other.slot_key(j) == k);
            }
        }
        true
    }

    /// Merges `other` into this aggregate.
    pub fn merge(&mut self, other: StationStats)
        requires
            old(self).wf(),
            other.wf(),
            forall|k: Seq<u8>|
                old(self)@.contains_key(k) && other@.contains_key(k) ==> old(self)@[k].count
                    + other@[k].count <= u64::MAX,
        ensures
            final(self).wf(),
            final(self)@ == merge_totals(old(self)@, other@),
    {
        let ghost base = self@;
        let n = other.keys.len();
        proof {
            assert(other.prefix_view(0) =~= Map::<Seq<u8>, Summary>::empty());
            lemma_merge_empty(base);
        }
        let mut i: usize = 0;
        while i < n
            invariant
                self.wf(),
                other.wf(),
                n == other.keys@.len(),
                i <= n,
                self@ == merge_totals(base, other.prefix_view(i as int)),
                forall|k: Seq<u8>|
                    base.contains_key(k) && other@.contains_key(k) ==> base[k].count
                        + other@[k].count <= u64::MAX,
            decreases n - i,
        {
            let key = other.keys[i].as_slice();
            let add = other.stats[i];
            let ghost one = Map::<Seq<u8>, Summary>::empty().insert(key@, add@);
            proof {
                assert(other@.contains_key(key@));
                assert(!other.prefix_view(i as int).contains_key(key@));
                assert(other.prefix_view(i as int + 1) =~= merge_totals(
                    other.prefix_view(i as int),
                    one,
                ));
                lemma_merge_associative(base, other.prefix_view(i as int), one);
            }
            self.absorb(key, add);
            i = i + 1;
        }
    }
}

} // verus!
