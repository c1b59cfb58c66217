use vstd::prelude::*;

verus! {

/// Largest magnitude, in tenths, that a single observed value may have.
pub const MAX_MAGNITUDE: i64 = 1_000_000_000_000_000;

/// Mathematical content of an aggregate: bounds, exact sum and number of observations.
pub struct Agg {
    pub min: int,
    pub max: int,
    pub sum: int,
    pub count: nat,
}

/// The aggregate before any observation: sentinel bounds, zero sum and count.
pub open spec fn agg_empty() -> Agg {
    Agg { min: i64::MAX as int, max: i64::MIN as int, sum: 0, count: 0 }
}

pub open spec fn min_int(a: int, b: int) -> int {
    if a <= b { a } else { b }
}

pub open spec fn max_int(a: int, b: int) -> int {
    if a >= b { a } else { b }
}

/// The aggregate after observing one more value.
pub open spec fn agg_update(a: Agg, v: int) -> Agg {
    Agg { min: min_int(a.min, v), max: max_int(a.max, v), sum: a.sum + v, count: a.count + 1 }
}

/// The aggregate of the observations of two aggregates together.
pub open spec fn agg_merge(a: Agg, b: Agg) -> Agg {
    Agg {
        min: min_int(a.min, b.min),
        max: max_int(a.max, b.max),
        sum: a.sum + b.sum,
        count: a.count + b.count,
    }
}

/// Observing the values of `vs` in order, starting from `a`.
pub open spec fn agg_updates(a: Agg, vs: Seq<int>) -> Agg
    decreases vs.len(),
{
    if vs.len() == 0 {
        a
    } else {
        agg_update(agg_updates(a, vs.drop_last()), vs.last())
    }
}

/// A value that a single observation may hold.
pub open spec fn value_in_range(v: int) -> bool {
    -MAX_MAGNITUDE <= v <= MAX_MAGNITUDE
}

/// Per-key accumulator of minimum, maximum, sum and count of scaled values.
#[derive(Clone, Copy, Debug)]
pub struct WeatherEntry {
    pub min: i64,
    pub sum: i128,
    pub max: i64,
    pub cnt: u64,
}

impl WeatherEntry {
    pub open spec fn view(self) -> Agg {
        Agg { min: self.min as int, max: self.max as int, sum: self.sum as int, count: self.cnt as nat }
    }

    /// Fresh accumulator with the sentinel bounds.
    pub fn new() -> (r: WeatherEntry)
        ensures
            r.view() == agg_empty(),
    {
        WeatherEntry { min: i64::MAX, sum: 0, max: i64::MIN, cnt: 0 }
    }

    /// Records one observation.
    pub fn update(&mut self, temp: i64)
        requires
            old(self).cnt < u64::MAX,
            i128::MIN <= old(self).sum + temp <= i128::MAX,
        ensures
            final(self).view() == agg_update(old(self).view(), temp as int),
    {
        if temp < self.min {
            self.min = temp;
        }
        if temp > self.max {
            self.max = temp;
        }
        self.sum = self.sum + temp as i128;
        self.cnt = self.cnt + 1;
    }

    /// Folds the observations of `other` into this accumulator.
    pub fn merge(&mut self, other: &Self)
        requires
            old(self).cnt + other.cnt <= u64::MAX,
            i128::MIN <= old(self).sum + other.sum <= i128::MAX,
        ensures
            final(self).view() == agg_merge(old(self).view(), other.view()),
    {
        if other.min < self.min {
            self.min = other.min;
        }
        if other.max > self.max {
            self.max = other.max;
        }
        self.sum = self.sum + other.sum;
        self.cnt = self.cnt + other.cnt;
    }
}

impl Default for WeatherEntry {
    fn default() -> (r: WeatherEntry)
        ensures
            r.view() == agg_empty(),
    {
        WeatherEntry::new()
    }
}

/// Merging aggregates is commutative and associative, so partial results can be
/// combined in any order and grouping.
pub proof fn lemma_merge_comm_assoc(a: Agg, b: Agg, c: Agg)
    ensures
        agg_merge(a, b) == agg_merge(b, a),
        agg_merge(agg_merge(a, b), c) == agg_merge(a, agg_merge(b, c)),
{
}

/// Observing `xs` and then `ys` one by one gives the merge of the aggregate of
/// `xs` with the aggregate of `ys` taken separately from the empty aggregate.
pub proof fn lemma_updates_split(a: Agg, xs: Seq<int>, ys: Seq<int>)
    requires
        a == agg_empty(),
        forall|i: int| 0 <= i < xs.len() ==> value_in_range(#[trigger] xs[i]),
        forall|i: int| 0 <= i < ys.len() ==> value_in_range(#[trigger] ys[i]),
    ensures
        agg_updates(a, xs + ys) == agg_merge(agg_updates(a, xs), agg_updates(a, ys)),
    decreases ys.len(),
{
    if ys.len() == 0 {
        assert(xs + ys =~= xs);
        lemma_updates_bounds(xs);
    } else {
        assert((xs + ys).drop_last() =~= xs + ys.drop_last());
        lemma_updates_split(a, xs, ys.drop_last());
    }
}

proof fn lemma_updates_bounds(vs: Seq<int>)
    requires
        forall|i: int| 0 <= i < vs.len() ==> value_in_range(#[trigger] vs[i]),
    ensures
        agg_updates(agg_empty(), vs).min <= i64::MAX,
        agg_updates(agg_empty(), vs).max >= i64::MIN,
    decreases vs.len(),
{
    if vs.len() > 0 {
        lemma_updates_bounds(vs.drop_last());
        assert(value_in_range(vs[vs.len() - 1]));
    }
}

/// The values of all parts, one part after the other.
pub open spec fn flatten(parts: Seq<Seq<int>>) -> Seq<int>
    decreases parts.len(),
{
    if parts.len() == 0 {
        seq![]
    } else {
        flatten(parts.drop_last()) + parts.last()
    }
}

/// Each part observed on its own from the empty aggregate, the results merged
/// from the first part on.
pub open spec fn merge_parts(parts: Seq<Seq<int>>) -> Agg
    decreases parts.len(),
{
    if parts.len() <= 1 {
        if parts.len() == 0 { agg_empty() } else { agg_updates(agg_empty(), parts[0]) }
    } else {
        agg_merge(merge_parts(parts.drop_last()), agg_updates(agg_empty(), parts.last()))
    }
}

/// However a sequence of values is cut into parts, observing each part on its
/// own and merging the results in order gives the aggregate of observing all
/// values one by one.
pub proof fn lemma_merge_parts(parts: Seq<Seq<int>>)
    requires
        parts.len() >= 1,
        forall|i: int, j: int| 0 <= i < parts.len() && 0 <= j < parts[i].len() ==> value_in_range(#[trigger] parts[i][j]),
    ensures
        merge_parts(parts) == agg_updates(agg_empty(), flatten(parts)),
        forall|k: int| 0 <= k < flatten(parts).len() ==> value_in_range(#[trigger] flatten(parts)[k]),
    decreases parts.len(),
{
    let last = parts.last();
    assert forall|j: int| 0 <= j < last.len() implies value_in_range(#[trigger] last[j]) by {
        assert(value_in_range(parts[parts.len() - 1][j]));
    }
    if parts.len() == 1 {
        assert(parts.drop_last() =~= Seq::<Seq<int>>::empty());
        assert(flatten(parts.drop_last()) == Seq::<int>::empty());
        assert(flatten(parts) =~= parts[0]);
    } else {
        let front = parts.drop_last();
        assert forall|i: int, j: int| 0 <= i < front.len() && 0 <= j < front[i].len() implies
            value_in_range(#[trigger] front[i][j]) by {
            assert(front[i] == parts[i]);
        }
        lemma_merge_parts(front);
        lemma_updates_split(agg_empty(), flatten(front), last);
        let f = flatten(parts);
        assert(f == flatten(front) + last);
        assert forall|k: int| 0 <= k < f.len() implies value_in_range(#[trigger] f[k]) by {
            if k >= flatten(front).len() {
                assert(f[k] == last[k - flatten(front).len()]);
            } else {
                assert(f[k] == flatten(front)[k]);
            }
        }
    }
}

} // verus!
