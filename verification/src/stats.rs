//! Per-key statistics: minimum, maximum, and the exact mean carried as the
//! pair (sum, count). All values are fixed-point numbers in tenths of a unit,
//! so `min <= sum/count <= max` is stated exactly as
//! `count * min <= sum <= count * max`.

use vstd::prelude::*;

verus! {

/// Every value accepted by the parser is strictly below one quintillion
/// tenths in magnitude, so sums of any realizable count fit in an `i128`.
pub const VAL_BOUND: i64 = 1_000_000_000_000_000_000;

/// Mathematical model of one key's statistics.
pub ghost struct StatModel {
    pub min: int,
    pub max: int,
    pub sum: int,
    pub count: nat,
}

pub open spec fn imin(a: int, b: int) -> int {
    if a <= b {
        a
    } else {
        b
    }
}

pub open spec fn imax(a: int, b: int) -> int {
    if a <= b {
        b
    } else {
        a
    }
}

/// The statistics of a single observed value.
pub open spec fn stat_one(v: int) -> StatModel {
    StatModel { min: v, max: v, sum: v, count: 1 }
}

/// The online update: fold one more observed value into the statistics.
pub open spec fn stat_add(s: StatModel, v: int) -> StatModel {
    StatModel {
        min: imin(s.min, v),
        max: imax(s.max, v),
        sum: s.sum + v,
        count: s.count + 1,
    }
}

/// The count-weighted merge of two partial statistics. Since the mean is
/// carried as (sum, count), the weighted mean `(m1*c1 + m2*c2)/(c1+c2)`
/// is exactly `(sum1 + sum2)/(count1 + count2)`.
pub open spec fn stat_join(a: StatModel, b: StatModel) -> StatModel {
    StatModel {
        min: imin(a.min, b.min),
        max: imax(a.max, b.max),
        sum: a.sum + b.sum,
        count: a.count + b.count,
    }
}

/// The statistics of a nonempty sequence of observed values.
pub open spec fn stat_of(vals: Seq<int>) -> StatModel
    recommends
        vals.len() >= 1,
    decreases vals.len(),
{
    if vals.len() <= 1 {
        stat_one(vals[0])
    } else {
        stat_add(stat_of(vals.drop_last()), vals.last())
    }
}

/// Folding one value equals joining with that value's singleton statistics.
pub proof fn lemma_stat_add_is_join_one(s: StatModel, v: int)
    ensures
        stat_add(s, v) == stat_join(s, stat_one(v)),
{
}

/// The count-weighted merge is commutative.
pub proof fn lemma_stat_join_comm(a: StatModel, b: StatModel)
    ensures
        stat_join(a, b) == stat_join(b, a),
{
}

/// The count-weighted merge is associative.
pub proof fn lemma_stat_join_assoc(a: StatModel, b: StatModel, c: StatModel)
    ensures
        stat_join(stat_join(a, b), c) == stat_join(a, stat_join(b, c)),
{
}

/// The statistics of a concatenation are the join of the statistics of the
/// parts: the merge rule is exact for any split of the observations.
pub proof fn lemma_stat_of_concat(v1: Seq<int>, v2: Seq<int>)
    requires
        v1.len() >= 1,
        v2.len() >= 1,
    ensures
        stat_of(v1 + v2) == stat_join(stat_of(v1), stat_of(v2)),
    decreases v2.len(),
{
    if v2.len() == 1 {
        assert((v1 + v2).drop_last() == v1);
        assert((v1 + v2).len() == v1.len() + 1);
        assert((v1 + v2).last() == v2[0]);
        assert(stat_of(v1 + v2) == stat_add(stat_of(v1), v2[0]));
        assert(stat_of(v2) == stat_one(v2[0]));
        lemma_stat_add_is_join_one(stat_of(v1), v2[0]);
    } else {
        lemma_stat_of_concat(v1, v2.drop_last());
        assert((v1 + v2).drop_last() == v1 + v2.drop_last());
        assert((v1 + v2).last() == v2.last());
        assert(stat_of(v1 + v2) == stat_add(stat_of(v1 + v2.drop_last()), v2.last()));
        lemma_stat_add_is_join_one(stat_join(stat_of(v1), stat_of(v2.drop_last())), v2.last());
        lemma_stat_add_is_join_one(stat_of(v2.drop_last()), v2.last());
        lemma_stat_join_assoc(stat_of(v1), stat_of(v2.drop_last()), stat_one(v2.last()));
    }
}

/// Bounds: the statistics of a nonempty value sequence have the true minimum
/// and maximum of the sequence, the exact count, and a sum lying between
/// `count * min` and `count * max` (that is, `min <= mean <= max`).
pub proof fn lemma_stat_of_bounds(vals: Seq<int>)
    requires
        vals.len() >= 1,
    ensures
        stat_of(vals).count == vals.len(),
        forall|i: int| 0 <= i < vals.len() ==> stat_of(vals).min <= #[trigger] vals[i],
        forall|i: int| 0 <= i < vals.len() ==> #[trigger] vals[i] <= stat_of(vals).max,
        exists|i: int| 0 <= i < vals.len() && vals[i] == stat_of(vals).min,
        exists|i: int| 0 <= i < vals.len() && vals[i] == stat_of(vals).max,
        stat_of(vals).min <= stat_of(vals).max,
        stat_of(vals).count * stat_of(vals).min <= stat_of(vals).sum,
        stat_of(vals).sum <= stat_of(vals).count * stat_of(vals).max,
    decreases vals.len(),
{
    if vals.len() == 1 {
        assert(vals[0] == stat_of(vals).min);
    } else {
        lemma_stat_of_bounds(vals.drop_last());
        let s = stat_of(vals.drop_last());
        let v = vals.last();
        let c = s.count;
        assert forall|i: int| 0 <= i < vals.len() implies stat_of(vals).min <= #[trigger] vals[i]
            && vals[i] <= stat_of(vals).max by {
            if i < vals.len() - 1 {
                assert(vals.drop_last()[i] == vals[i]);
            }
        }
        assert(exists|i: int| 0 <= i < vals.len() - 1 && vals.drop_last()[i] == s.min);
        let wit_min = choose|i: int| 0 <= i < vals.len() - 1 && vals.drop_last()[i] == s.min;
        assert(vals[wit_min] == s.min);
        let wit_max = choose|i: int| 0 <= i < vals.len() - 1 && vals.drop_last()[i] == s.max;
        assert(vals[wit_max] == s.max);
        assert((c + 1) * imin(s.min, v) <= s.sum + v) by (nonlinear_arith)
            requires
                c * s.min <= s.sum,
                c >= 1,
                imin(s.min, v) <= s.min,
                imin(s.min, v) <= v,
        ;
        assert(s.sum + v <= (c + 1) * imax(s.max, v)) by (nonlinear_arith)
            requires
                s.sum <= c * s.max,
                c >= 1,
                imax(s.max, v) >= s.max,
                imax(s.max, v) >= v,
        ;
    }
}

/// Executable per-key statistics. `sum` and `count` carry the mean exactly:
/// the mean in tenths is `sum / count` as a rational number.
#[derive(Clone, Copy, Debug)]
pub struct CityInfo {
    pub min: i64,
    pub max: i64,
    pub sum: i128,
    pub count: usize,
}

impl View for CityInfo {
    type V = StatModel;

    open spec fn view(&self) -> StatModel {
        StatModel {
            min: self.min as int,
            max: self.max as int,
            sum: self.sum as int,
            count: self.count as nat,
        }
    }
}

/// Well-formedness of a statistics model held in a `CityInfo`: at least one
/// observation, values within the parser's bound, the mean between the
/// minimum and the maximum, and a sum small enough never to overflow.
pub open spec fn stat_wf(s: StatModel) -> bool {
    &&& 1 <= s.count
    &&& -(VAL_BOUND as int) < s.min
    &&& s.min <= s.max
    &&& s.max < VAL_BOUND as int
    &&& s.count * s.min <= s.sum
    &&& s.sum <= s.count * s.max
}

/// The sum of a well-formed statistics record is bounded by
/// `count * VAL_BOUND` in magnitude.
pub proof fn lemma_stat_sum_bound(s: StatModel)
    requires
        stat_wf(s),
    ensures
        -((s.count * VAL_BOUND) as int) < s.sum,
        s.sum < (s.count * VAL_BOUND) as int,
{
    assert(-((s.count * VAL_BOUND) as int) < s.sum && s.sum < (s.count * VAL_BOUND) as int)
        by (nonlinear_arith)
        requires
            1 <= s.count,
            -(VAL_BOUND as int) < s.min,
            s.min <= s.max,
            s.max < VAL_BOUND as int,
            s.count * s.min <= s.sum,
            s.sum <= s.count * s.max,
    ;
}

impl CityInfo {
    pub open spec fn wf(&self) -> bool {
        stat_wf(self@)
    }

    /// Statistics of a first observation of a key.
    pub fn new(v: i64) -> (r: CityInfo)
        requires
            -VAL_BOUND < v < VAL_BOUND,
        ensures
            r.wf(),
            r@ == stat_one(v as int),
    {
        CityInfo { min: v, max: v, sum: v as i128, count: 1 }
    }

    /// The online update: fold one more observation into this record.
    pub fn add(&mut self, v: i64)
        requires
            old(self).wf(),
            -VAL_BOUND < v < VAL_BOUND,
            old(self)@.count < usize::MAX,
        ensures
            final(self).wf(),
            final(self)@ == stat_add(old(self)@, v as int),
    {
        proof {
            lemma_stat_sum_bound(self@);
            assert((self@.count * VAL_BOUND) as int + VAL_BOUND as int <= ((self@.count + 1)
                * VAL_BOUND) as int) by (nonlinear_arith);
            assert((self@.count + 1) * (VAL_BOUND as int) <= (usize::MAX as int)
                * (VAL_BOUND as int)) by (nonlinear_arith)
                requires
                    self@.count + 1 <= usize::MAX as int,
            ;
            assert((self@.count + 1) * imin(self@.min, v as int) <= self@.sum + v)
                by (nonlinear_arith)
                requires
                    self@.count * self@.min <= self@.sum,
                    self@.count >= 1,
                    imin(self@.min, v as int) <= self@.min,
                    imin(self@.min, v as int) <= v as int,
            ;
            assert(self@.sum + v <= (self@.count + 1) * imax(self@.max, v as int))
                by (nonlinear_arith)
                requires
                    self@.sum <= self@.count * self@.max,
                    self@.count >= 1,
                    imax(self@.max, v as int) >= self@.max,
                    imax(self@.max, v as int) >= v as int,
            ;
        }
        if v < self.min {
            self.min = v;
        }
        if v > self.max {
            self.max = v;
        }
        self.sum = self.sum + v as i128;
        self.count = self.count + 1;
    }

    /// The count-weighted merge of two partial records for the same key.
    pub fn join(&mut self, other: &CityInfo)
        requires
            old(self).wf(),
            other.wf(),
            old(self)@.count + other@.count <= usize::MAX,
        ensures
            final(self).wf(),
            final(self)@ == stat_join(old(self)@, other@),
    {
        proof {
            lemma_stat_sum_bound(self@);
            lemma_stat_sum_bound(other@);
            assert((self@.count * VAL_BOUND) as int + (other@.count * VAL_BOUND) as int
                <= (usize::MAX as int) * (VAL_BOUND as int)) by (nonlinear_arith)
                requires
                    self@.count + other@.count <= usize::MAX as int,
            ;
            assert((self@.count + other@.count) * imin(self@.min, other@.min) <= self@.sum
                + other@.sum) by (nonlinear_arith)
                requires
                    self@.count * self@.min <= self@.sum,
                    other@.count * other@.min <= other@.sum,
                    self@.count >= 1,
                    other@.count >= 1,
                    imin(self@.min, other@.min) <= self@.min,
                    imin(self@.min, other@.min) <= other@.min,
            ;
            assert(self@.sum + other@.sum <= (self@.count + other@.count) * imax(
                self@.max,
                other@.max,
            )) by (nonlinear_arith)
                requires
                    self@.sum <= self@.count * self@.max,
                    other@.sum <= other@.count * other@.max,
                    self@.count >= 1,
                    other@.count >= 1,
                    imax(self@.max, other@.max) >= self@.max,
                    imax(self@.max, other@.max) >= other@.max,
            ;
        }
        if other.min < self.min {
            self.min = other.min;
        }
        if other.max > self.max {
            self.max = other.max;
        }
        self.sum = self.sum + other.sum;
        self.count = self.count + other.count;
    }
}

} // verus!
