//! The mergeable running statistics for one key.
//!
//! An `Aggregate` holds the least and greatest value seen, the exact sum and
//! the number of observations; the mean is `sum / count` and is computed only
//! when a result is presented.  A ghost multiset records every value folded
//! in, so the contracts can say that an aggregate depends on nothing but the
//! collection of contributed values.

use vstd::multiset::Multiset;
use vstd::prelude::*;

use crate::stats::lemma_max_add;
use crate::stats::lemma_max_insert;
use crate::stats::lemma_max_props;
use crate::stats::lemma_min_add;
use crate::stats::lemma_min_insert;
use crate::stats::lemma_min_props;
use crate::stats::lemma_singleton_stats;
use crate::stats::lemma_sum_add;
use crate::stats::lemma_sum_insert;
use crate::stats::ms_max;
use crate::stats::ms_min;
use crate::stats::ms_sum;

verus! {

broadcast use vstd::multiset::group_multiset_axioms, vstd::multiset::group_multiset_properties;

/// Running statistics for one key.  `min`, `max` and `sum` are in tenths;
/// `count` is kept as an integer so that the mean's divisor is exact.
#[derive(Clone, Copy)]
pub struct Aggregate {
    pub min: i64,
    pub max: i64,
    pub sum: i128,
    pub count: u64,
    /// Every value that has been folded into this aggregate.
    pub vals: Ghost<Multiset<int>>,
}

impl Aggregate {
    /// The fields are exactly the statistics of the contributed values, at
    /// least one value has been contributed, and the sum is bracketed by
    /// `count` times the extreme representable values (which keeps every
    /// further `record` and `merge` free of overflow).
    pub open spec fn inv(self) -> bool {
        &&& self.count >= 1
        &&& self.count as int == self.vals@.len()
        &&& self.sum as int == ms_sum(self.vals@)
        &&& self.min as int == ms_min(self.vals@)
        &&& self.max as int == ms_max(self.vals@)
        &&& self.count as int * (i64::MIN as int) <= self.sum as int
        &&& self.sum as int <= self.count as int * (i64::MAX as int)
    }

    /// A singleton aggregate: one observation of `value`.
    pub fn new(value: i64) -> (a: Aggregate)
        ensures
            a.inv(),
            a.vals@ == Multiset::singleton(value as int),
    {
        proof {
            lemma_singleton_stats(value as int);
        }
        Aggregate {
            min: value,
            max: value,
            sum: value as i128,
            count: 1,
            vals: Ghost(Multiset::singleton(value as int)),
        }
    }

    /// Fold one more observation in: widen the bounds, add to the sum,
    /// increment the count.
    pub fn record(&mut self, value: i64)
        requires
            old(self).inv(),
            old(self).count < u64::MAX,
        ensures
            final(self).inv(),
            final(self).vals@ == old(self).vals@.insert(value as int),
    {
        proof {
            lemma_sum_insert(self.vals@, value as int);
            lemma_min_insert(self.vals@, value as int);
            lemma_max_insert(self.vals@, value as int);
        }
        self.count = self.count + 1;
        if value < self.min {
            self.min = value;
        }
        if value > self.max {
            self.max = value;
        }
        self.sum = self.sum + value as i128;
        self.vals = Ghost(self.vals@.insert(value as int));
    }

    /// Combine the statistics of two aggregates for the same key.  The
    /// result depends only on the union of the two value collections, so
    /// merging is commutative and associative and agrees with having
    /// `record`ed all values into a single aggregate.
    pub fn merge(&mut self, other: Aggregate)
        requires
            old(self).inv(),
            other.inv(),
            old(self).count + other.count <= u64::MAX,
        ensures
            final(self).inv(),
            final(self).vals@ == old(self).vals@.add(other.vals@),
    {
        proof {
            lemma_sum_add(self.vals@, other.vals@);
            lemma_min_add(self.vals@, other.vals@);
            lemma_max_add(self.vals@, other.vals@);
        }
        self.count = self.count + other.count;
        self.sum = self.sum + other.sum;
        if other.min < self.min {
            self.min = other.min;
        }
        if other.max > self.max {
            self.max = other.max;
        }
        self.vals = Ghost(self.vals@.add(other.vals@));
    }
}

/// An aggregate is a function of its contributed values alone: two
/// aggregates over the same collection of values carry identical statistics,
/// no matter how the values were split between `record` calls and `merge`d
/// singleton chains, and in what order.
pub proof fn lemma_aggregate_determined(a: Aggregate, b: Aggregate)
    requires
        a.inv(),
        b.inv(),
        a.vals@ == b.vals@,
    ensures
        a.min == b.min,
        a.max == b.max,
        a.sum == b.sum,
        a.count == b.count,
{
}

/// Value collections unite commutatively and associatively, so — together
/// with `lemma_aggregate_determined` — any order of `merge` calls over any
/// partition of the values yields the same aggregate as folding the values
/// one at a time via `record`.
pub proof fn lemma_merge_order_irrelevant(m1: Multiset<int>, m2: Multiset<int>, m3: Multiset<int>)
    ensures
        m1.add(m2) == m2.add(m1),
        m1.add(m2).add(m3) == m1.add(m2.add(m3)),
{
    assert(m1.add(m2) =~= m2.add(m1));
    assert(m1.add(m2).add(m3) =~= m1.add(m2.add(m3)));
}

/// The statistics are exact: `min` is the least contributed value and `max`
/// the greatest, both were actually contributed, `sum` is the exact total and
/// `count` the exact number of observations (so the reported mean
/// `sum / count` is the exact arithmetic mean).
pub proof fn lemma_aggregate_stats(a: Aggregate)
    requires
        a.inv(),
    ensures
        a.vals@.count(a.min as int) > 0,
        a.vals@.count(a.max as int) > 0,
        forall|x: int| a.vals@.count(x) > 0 ==> a.min as int <= x && x <= a.max as int,
        a.sum as int == ms_sum(a.vals@),
        a.count as int == a.vals@.len(),
        a.count >= 1,
{
    lemma_min_props(a.vals@);
    lemma_max_props(a.vals@);
}

} // verus!
