//! The aggregation bucket: running minimum, maximum, sum and count of the
//! observations folded in for one station key, in fixed-point scale (a real
//! number with one fractional digit is stored as its value times ten).

use vstd::prelude::*;

verus! {

/// Bucket model: `(minimum, maximum, sum, count)` as unbounded integers.
pub type StatsModel = (int, int, int, int);

/// Model of a bucket holding the single observation `v`.
pub open spec fn stats_one(v: int) -> StatsModel {
    (v, v, v, 1)
}

/// Model of folding one further observation `v` into bucket `t`.
pub open spec fn stats_upd(t: StatsModel, v: int) -> StatsModel {
    (if v < t.0 { v } else { t.0 }, if v > t.1 { v } else { t.1 }, t.2 + v, t.3 + 1)
}

/// Model of merging two buckets: componentwise min/max, sums of sums and counts.
pub open spec fn stats_merge(a: StatsModel, b: StatsModel) -> StatsModel {
    (
        if b.0 < a.0 { b.0 } else { a.0 },
        if b.1 > a.1 { b.1 } else { a.1 },
        a.2 + b.2,
        a.3 + b.3,
    )
}

/// The identity bucket: merging with it changes nothing. It exists only as an
/// accumulator seed, never as a materialized bucket for a key.
pub open spec fn stats_identity() -> StatsModel {
    (i64::MAX as int, i64::MIN as int, 0, 0)
}

/// Well-formedness of a bucket model: fields fit the machine integers, a
/// bucket with observations has ordered bounds, and an empty bucket is the
/// identity.
pub open spec fn stats_wf(t: StatsModel) -> bool {
    &&& i64::MIN <= t.0 <= i64::MAX
    &&& i64::MIN <= t.1 <= i64::MAX
    &&& i64::MIN <= t.2 <= i64::MAX
    &&& 0 <= t.3 <= i64::MAX
    &&& t.3 == 0 ==> t == stats_identity()
    &&& t.3 > 0 ==> t.0 <= t.1
}

/// Running statistics for one station key.
#[derive(Clone, Copy, Debug)]
pub struct Measurement {
    pub minimum: i64,
    pub maximum: i64,
    pub count: i64,
    pub sum: i64,
}

impl View for Measurement {
    type V = StatsModel;

    open spec fn view(&self) -> StatsModel {
        (self.minimum as int, self.maximum as int, self.sum as int, self.count as int)
    }
}

impl Measurement {
    /// A bucket seeded with its first observation.
    pub fn new(value: i32) -> (r: Measurement)
        ensures
            r@ == stats_one(value as int),
    {
        Measurement {
            minimum: value as i64,
            maximum: value as i64,
            count: 1,
            sum: value as i64,
        }
    }

    /// Fold one further observation into the bucket.
    pub fn update(&mut self, value: i32)
        requires
            i64::MIN <= old(self)@.2 + value <= i64::MAX,
            old(self)@.3 + 1 <= i64::MAX,
        ensures
            final(self)@ == stats_upd(old(self)@, value as int),
    {
        let v = value as i64;
        self.minimum = if v < self.minimum {
            v
        } else {
            self.minimum
        };
        self.maximum = if v > self.maximum {
            v
        } else {
            self.maximum
        };
        self.count = self.count + 1;
        self.sum = self.sum + v;
    }

    /// Merge another bucket into this one.
    pub fn merge(&mut self, other: &Measurement)
        requires
            i64::MIN <= old(self)@.2 + other@.2 <= i64::MAX,
            i64::MIN <= old(self)@.3 + other@.3 <= i64::MAX,
        ensures
            final(self)@ == stats_merge(old(self)@, other@),
    {
        self.minimum = if other.minimum < self.minimum {
            other.minimum
        } else {
            self.minimum
        };
        self.maximum = if other.maximum > self.maximum {
            other.maximum
        } else {
            self.maximum
        };
        self.count = self.count + other.count;
        self.sum = self.sum + other.sum;
    }
}

impl Default for Measurement {
    /// The identity bucket.
    fn default() -> (r: Measurement)
        ensures
            r@ == stats_identity(),
    {
        Measurement { minimum: i64::MAX, maximum: i64::MIN, count: 0, sum: 0 }
    }
}

/// Law: merging buckets is commutative.
pub proof fn lemma_stats_merge_comm(a: StatsModel, b: StatsModel)
    ensures
        stats_merge(a, b) == stats_merge(b, a),
{
}

/// Law: merging buckets is associative.
pub proof fn lemma_stats_merge_assoc(a: StatsModel, b: StatsModel, c: StatsModel)
    ensures
        stats_merge(stats_merge(a, b), c) == stats_merge(a, stats_merge(b, c)),
{
}

/// Law: merging a well-formed bucket with the identity bucket, on either
/// side, leaves it unchanged.
pub proof fn lemma_stats_merge_identity(t: StatsModel)
    requires
        stats_wf(t),
    ensures
        stats_merge(t, stats_identity()) == t,
        stats_merge(stats_identity(), t) == t,
{
}

/// Law: folding an observation into a bucket is the same as merging with the
/// bucket that holds only that observation.
pub proof fn lemma_stats_upd_is_merge_one(t: StatsModel, v: int)
    ensures
        stats_merge(t, stats_one(v)) == stats_upd(t, v),
{
}

} // verus!
