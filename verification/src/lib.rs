//! A fixed-bucket cumulative histogram.
//!
//! A [`Histogram`] classifies numeric samples into a caller-supplied list of
//! ordered upper-bound buckets, tracking for each bound how many samples were
//! less than or equal to it, together with running totals of sample count and
//! sample sum. Buckets are cumulative inclusion sets, not disjoint bins: a
//! sample that fits an early bound is counted by every later bound as well.
//!
//! Overflow policy: all counters are `u64`, and every recording operation
//! carries a precondition ruling out overflow of the running totals, so the
//! verified operations never wrap, saturate, or panic.

use vstd::prelude::*;

verus! {

/// True when `bounds` is sorted in ascending (non-decreasing) order.
///
/// The structure stores the bounds exactly as given and never re-sorts them;
/// the cumulative reading of the bucket counts is only meaningful for
/// ascending bounds.
pub open spec fn ascending(bounds: Seq<u64>) -> bool {
    forall|i: int, j: int| 0 <= i < j < bounds.len() ==> bounds[i] <= bounds[j]
}

/// The sum of all samples in the sequence.
pub open spec fn sum_of(samples: Seq<u64>) -> int
    decreases samples.len(),
{
    if samples.len() == 0 {
        0
    } else {
        sum_of(samples.drop_last()) + samples.last()
    }
}

/// How many samples of the sequence are at most `bound`: the amount that
/// recording each sample singly adds to the bucket with that bound.
pub open spec fn count_le(samples: Seq<u64>, bound: u64) -> int
    decreases samples.len(),
{
    if samples.len() == 0 {
        0
    } else {
        count_le(samples.drop_last(), bound) + if samples.last() <= bound {
            1int
        } else {
            0int
        }
    }
}

/// The first index at or after `at` whose bound admits `sample`, if any.
pub open spec fn first_bucket_from(bounds: Seq<u64>, sample: u64, at: int) -> Option<int>
    decreases bounds.len() - at,
{
    if at < 0 || at >= bounds.len() {
        None
    } else if sample <= bounds[at] {
        Some(at)
    } else {
        first_bucket_from(bounds, sample, at + 1)
    }
}

/// The first bucket index whose bound admits `sample`, if any: the one slot
/// the batch path assigns the sample to before cumulative propagation.
pub open spec fn first_bucket(bounds: Seq<u64>, sample: u64) -> Option<int> {
    first_bucket_from(bounds, sample, 0)
}

/// True when `sample`'s first matching bucket exists and lies at index `i` or
/// below.
pub open spec fn lands_at_or_below(bounds: Seq<u64>, sample: u64, i: int) -> bool {
    match first_bucket(bounds, sample) {
        Some(j) => 0 <= j <= i,
        None => false,
    }
}

/// Number of samples whose first matching bucket is exactly `i`: the batch
/// path's per-slot classification count before cumulative propagation.
pub open spec fn exact_count(bounds: Seq<u64>, samples: Seq<u64>, i: int) -> int
    decreases samples.len(),
{
    if samples.len() == 0 {
        0
    } else {
        exact_count(bounds, samples.drop_last(), i) + if first_bucket(bounds, samples.last())
            == Some(i) {
            1int
        } else {
            0int
        }
    }
}

/// Number of samples whose first matching bucket is at index `i` or below:
/// the amount the batch path adds to bucket `i` once the classification
/// counts have been propagated forward.
pub open spec fn batch_count(bounds: Seq<u64>, samples: Seq<u64>, i: int) -> int
    decreases samples.len(),
{
    if samples.len() == 0 {
        0
    } else {
        batch_count(bounds, samples.drop_last(), i) + if lands_at_or_below(
            bounds,
            samples.last(),
            i,
        ) {
            1int
        } else {
            0int
        }
    }
}

/// `first_bucket` returns the smallest in-range index whose bound admits the
/// sample, and `None` exactly when no bound does.
proof fn lemma_first_bucket_from_char(bounds: Seq<u64>, sample: u64, at: int)
    requires
        0 <= at <= bounds.len(),
    ensures
        match first_bucket_from(bounds, sample, at) {
            Some(j) => {
                &&& at <= j < bounds.len()
                &&& sample <= bounds[j]
                &&& forall|k: int| at <= k < j ==> sample > bounds[k]
            },
            None => forall|k: int| at <= k < bounds.len() ==> sample > bounds[k],
        },
    decreases bounds.len() - at,
{
    if at < bounds.len() && sample > bounds[at] {
        lemma_first_bucket_from_char(bounds, sample, at + 1);
    }
}

/// The characterization above, read from index 0.
proof fn lemma_first_bucket_char(bounds: Seq<u64>, sample: u64)
    ensures
        match first_bucket(bounds, sample) {
            Some(j) => {
                &&& 0 <= j < bounds.len()
                &&& sample <= bounds[j]
                &&& forall|k: int| 0 <= k < j ==> sample > bounds[k]
            },
            None => forall|k: int| 0 <= k < bounds.len() ==> sample > bounds[k],
        },
{
    lemma_first_bucket_from_char(bounds, sample, 0);
}

/// Extending a prefix of `s` by its next element extends each per-sample
/// tally by that element's contribution.
proof fn lemma_prefix_step(bounds: Seq<u64>, s: Seq<u64>, k: int)
    requires
        0 <= k < s.len(),
    ensures
        sum_of(s.take(k + 1)) == sum_of(s.take(k)) + s[k],
        forall|b: u64| #[trigger]
            count_le(s.take(k + 1), b) == count_le(s.take(k), b) + (if s[k] <= b {
                1int
            } else {
                0int
            }),
        forall|i: int| #[trigger]
            exact_count(bounds, s.take(k + 1), i) == exact_count(bounds, s.take(k), i) + (
            if first_bucket(bounds, s[k]) == Some(i) {
                1int
            } else {
                0int
            }),
        forall|i: int| #[trigger]
            batch_count(bounds, s.take(k + 1), i) == batch_count(bounds, s.take(k), i) + (
            if lands_at_or_below(bounds, s[k], i) {
                1int
            } else {
                0int
            }),
{
    assert(s.take(k + 1).drop_last() =~= s.take(k));
    assert(s.take(k + 1).last() == s[k]);
}

/// Every tally is non-negative and no larger than the number of samples, and
/// the running sum of any prefix is no larger than the sum of the whole.
proof fn lemma_tallies_bounded(bounds: Seq<u64>, s: Seq<u64>, i: int)
    ensures
        0 <= exact_count(bounds, s, i) <= s.len(),
        0 <= batch_count(bounds, s, i) <= s.len(),
        forall|b: u64| 0 <= #[trigger] count_le(s, b) <= s.len(),
        sum_of(s) >= 0,
    decreases s.len(),
{
    if s.len() > 0 {
        lemma_tallies_bounded(bounds, s.drop_last(), i);
        assert forall|b: u64| 0 <= #[trigger] count_le(s, b) <= s.len() by {
            assert(0 <= count_le(s.drop_last(), b) <= s.drop_last().len());
        }
    }
}

/// Sums of prefixes never exceed the sum of the full sequence.
proof fn lemma_sum_of_take_le(s: Seq<u64>, k: int)
    requires
        0 <= k <= s.len(),
    ensures
        sum_of(s.take(k)) <= sum_of(s),
    decreases s.len() - k,
{
    if k == s.len() {
        assert(s.take(k) =~= s);
    } else {
        assert(s.take(k + 1).drop_last() =~= s.take(k));
        lemma_sum_of_take_le(s, k + 1);
    }
}

/// Forward propagation: the cumulative tally at `i` is the cumulative tally
/// at `i - 1` plus the exact tally at `i`; at index 0 the two coincide.
proof fn lemma_batch_split(bounds: Seq<u64>, s: Seq<u64>, i: int)
    requires
        0 <= i,
    ensures
        i == 0 ==> batch_count(bounds, s, 0) == exact_count(bounds, s, 0),
        i >= 1 ==> batch_count(bounds, s, i) == batch_count(bounds, s, i - 1) + exact_count(
            bounds,
            s,
            i,
        ),
    decreases s.len(),
{
    if s.len() > 0 {
        lemma_batch_split(bounds, s.drop_last(), i);
    }
}

/// For ascending bounds, the batch path and the single-sample path agree on
/// every bucket: a sample's first matching bucket lies at index `i` or below
/// exactly when the sample is at most `bounds[i]`, so the propagated batch
/// tally for bucket `i` counts exactly the samples that are `<= bounds[i]`.
pub proof fn lemma_batch_count_matches_count_le(bounds: Seq<u64>, samples: Seq<u64>, i: int)
    requires
        ascending(bounds),
        0 <= i < bounds.len(),
    ensures
        batch_count(bounds, samples, i) == count_le(samples, bounds[i]),
    decreases samples.len(),
{
    if samples.len() > 0 {
        lemma_batch_count_matches_count_le(bounds, samples.drop_last(), i);
        lemma_first_bucket_char(bounds, samples.last());
    }
}

/// Removing the sample at index `j` takes exactly its contribution out of
/// every per-sample tally.
proof fn lemma_remove_effect(s: Seq<u64>, j: int)
    requires
        0 <= j < s.len(),
    ensures
        sum_of(s.remove(j)) == sum_of(s) - s[j],
        forall|b: u64| #[trigger]
            count_le(s.remove(j), b) == count_le(s, b) - (if s[j] <= b {
                1int
            } else {
                0int
            }),
    decreases s.len(),
{
    if j == s.len() - 1 {
        assert(s.remove(j) =~= s.drop_last());
    } else {
        assert(s.remove(j).drop_last() =~= s.drop_last().remove(j));
        assert(s.remove(j).last() == s.last());
        lemma_remove_effect(s.drop_last(), j);
        assert forall|b: u64| #[trigger]
            count_le(s.remove(j), b) == count_le(s, b) - (if s[j] <= b {
                1int
            } else {
                0int
            }) by {
            assert(count_le(s.drop_last().remove(j), b) == count_le(s.drop_last(), b) - (
            if s[j] <= b {
                1int
            } else {
                0int
            }));
        }
    }
}

/// Recording is a pure accumulation, so its effect does not depend on the
/// order of the samples: two sequences holding the same samples (as a
/// multiset) have the same length, the same sum, and the same tally of
/// samples admitted by any bound.
pub proof fn lemma_recording_order_irrelevant(s1: Seq<u64>, s2: Seq<u64>)
    requires
        s1.to_multiset() == s2.to_multiset(),
    ensures
        s1.len() == s2.len(),
        sum_of(s1) == sum_of(s2),
        forall|b: u64| #[trigger] count_le(s1, b) == count_le(s2, b),
    decreases s1.len(),
{
    broadcast use vstd::seq_lib::group_to_multiset_ensures;

    if s1.len() > 0 {
        let x = s1.last();
        let last = s1.len() - 1;
        assert(s1.to_multiset().count(x) > 0);
        assert(s2.contains(x));
        let j = choose|j: int| 0 <= j < s2.len() && s2[j] == x;
        assert(s1.drop_last() =~= s1.remove(last));
        assert(s1.remove(last).to_multiset() =~= s1.to_multiset().remove(x));
        assert(s2.remove(j).to_multiset() =~= s2.to_multiset().remove(x));
        lemma_recording_order_irrelevant(s1.drop_last(), s2.remove(j));
        lemma_remove_effect(s2, j);
        assert forall|b: u64| #[trigger] count_le(s1, b) == count_le(s2, b) by {
            assert(count_le(s1.drop_last(), b) == count_le(s2.remove(j), b));
        }
    } else {
        assert(s2.len() == s2.to_multiset().len());
    }
}

/// The law the batch path is built for: recording a batch of samples, in any
/// order, changes each bucket exactly as recording the same samples one at a
/// time would — provided the bounds are ascending.
pub proof fn lemma_batch_equals_singles(
    bounds: Seq<u64>,
    batch: Seq<u64>,
    singles: Seq<u64>,
    i: int,
)
    requires
        ascending(bounds),
        batch.to_multiset() == singles.to_multiset(),
        0 <= i < bounds.len(),
    ensures
        batch.len() == singles.len(),
        sum_of(batch) == sum_of(singles),
        batch_count(bounds, batch, i) == count_le(singles, bounds[i]),
{
    lemma_batch_count_matches_count_le(bounds, batch, i);
    lemma_recording_order_irrelevant(batch, singles);
}

/// The abstract state of a [`Histogram`]: the configured bounds, the
/// per-bucket cumulative counts, and the running totals.
pub ghost struct HistogramView {
    pub bounds: Seq<u64>,
    pub buckets: Seq<u64>,
    pub count: u64,
    pub sum: u64,
}

/// A bucketed histogram.
///
/// This histogram tracks the number of samples that fall into pre-defined
/// buckets, rather than exposing any sort of quantiles.
///
/// This type is most useful with systems that prefer bucketed data, as
/// opposed to dealing with quantiles.
#[derive(Debug, Clone)]
pub struct Histogram {
    count: u64,
    bounds: Vec<u64>,
    buckets: Vec<u64>,
    sum: u64,
}

impl View for Histogram {
    type V = HistogramView;

    closed spec fn view(&self) -> HistogramView {
        HistogramView {
            bounds: self.bounds@,
            buckets: self.buckets@,
            count: self.count,
            sum: self.sum,
        }
    }
}

impl Histogram {
    /// Well-formedness: one count per bound, at least one bound, and no
    /// bucket ever counts more samples than were recorded in total.
    pub open spec fn wf(self) -> bool {
        &&& self@.buckets.len() == self@.bounds.len()
        &&& self@.bounds.len() >= 1
        &&& forall|i: int| 0 <= i < self@.buckets.len() ==> self@.buckets[i] <= self@.count
    }

    /// Creates a new `Histogram`.
    ///
    /// If `bounds` is empty, returns `None`. Otherwise the bounds are stored
    /// exactly as given and every counter starts at zero.
    pub fn new(bounds: &[u64]) -> (r: Option<Histogram>)
        ensures
            match r {
                Some(h) => {
                    &&& bounds@.len() > 0
                    &&& h.wf()
                    &&& h@.bounds == bounds@
                    &&& h@.count == 0
                    &&& h@.sum == 0
                    &&& forall|i: int| 0 <= i < h@.buckets.len() ==> h@.buckets[i] == 0
                },
                None => bounds@.len() == 0,
            },
    {
        if bounds.len() == 0 {
            return None;
        }

        let n = bounds.len();
        let mut buckets: Vec<u64> = Vec::with_capacity(n);
        let mut k: usize = 0;
        while k < n
            invariant
                k <= n,
                buckets@.len() == k,
                forall|i: int| 0 <= i < k ==> buckets@[i] == 0,
            decreases n - k,
        {
            buckets.push(0);
            k += 1;
        }

        Some(Histogram { count: 0, bounds: vstd::slice::slice_to_vec(bounds), buckets, sum: 0 })
    }

    /// Gets the sum of all samples.
    pub fn sum(&self) -> (r: u64)
        ensures
            r == self@.sum,
    {
        self.sum
    }

    /// Gets the sample count.
    pub fn count(&self) -> (r: u64)
        ensures
            r == self@.count,
    {
        self.count
    }

    /// Gets the buckets.
    ///
    /// Buckets are tuples, where the first element is the bucket limit
    /// itself, and the second element is the count of samples in that bucket.
    /// The returned vector is a snapshot: mutating it does not touch the
    /// histogram.
    pub fn buckets(&self) -> (r: Vec<(u64, u64)>)
        requires
            self.wf(),
        ensures
            r@.len() == self@.bounds.len(),
            forall|i: int| 0 <= i < r@.len() ==> r@[i] == (self@.bounds[i], self@.buckets[i]),
    {
        let n = self.bounds.len();
        let mut r: Vec<(u64, u64)> = Vec::with_capacity(n);
        let mut k: usize = 0;
        while k < n
            invariant
                k <= n,
                n == self@.bounds.len(),
                self.wf(),
                r@.len() == k,
                forall|i: int| 0 <= i < k ==> r@[i] == (self@.bounds[i], self@.buckets[i]),
            decreases n - k,
        {
            r.push((self.bounds[k], self.buckets[k]));
            k += 1;
        }
        r
    }

    /// Records a single sample.
    ///
    /// Adds `sample` to the running sum, increments the sample count, and
    /// increments the count of every bucket whose bound admits the sample —
    /// all qualifying buckets, not just the first.
    #[verifier::loop_isolation(false)]
    pub fn record(&mut self, sample: u64)
        requires
            old(self).wf(),
            old(self)@.count < u64::MAX,
            old(self)@.sum + sample <= u64::MAX,
        ensures
            final(self).wf(),
            final(self)@.bounds == old(self)@.bounds,
            final(self)@.count == old(self)@.count + 1,
            final(self)@.sum == old(self)@.sum + sample,
            final(self)@.buckets.len() == old(self)@.buckets.len(),
            forall|i: int|
                0 <= i < old(self)@.buckets.len() ==> final(self)@.buckets[i] == old(
                    self,
                )@.buckets[i] + (if sample <= old(self)@.bounds[i] {
                    1int
                } else {
                    0int
                }),
    {
        proof {
            assert(old(self)@.bounds.len() == old(self)@.buckets.len());
        }
        self.sum = self.sum + sample;
        self.count = self.count + 1;

        let n = self.bounds.len();
        let mut idx: usize = 0;
        while idx < n
            invariant
                idx <= n,
                self.bounds@ == old(self)@.bounds,
                self.buckets@.len() == n,
                n == old(self)@.buckets.len(),
                self.count == old(self)@.count + 1,
                self.sum == old(self)@.sum + sample,
                forall|i: int|
                    0 <= i < idx ==> self.buckets@[i] == old(self)@.buckets[i] + (
                    if sample <= old(self)@.bounds[i] {
                        1int
                    } else {
                        0int
                    }),
                forall|i: int| idx <= i < n ==> self.buckets@[i] == old(self)@.buckets[i],
            decreases n - idx,
        {
            if sample <= self.bounds[idx] {
                let b = self.buckets[idx];
                self.buckets[idx] = b + 1;
            }
            idx += 1;
        }
    }

    /// Finds the first bucket whose bound admits `sample`, scanning from the
    /// smallest index, or `None` when the sample exceeds every bound.
    #[verifier::loop_isolation(false)]
    fn first_matching_bucket(bounds: &Vec<u64>, sample: u64) -> (r: Option<usize>)
        ensures
            match r {
                Some(j) => first_bucket(bounds@, sample) == Some(j as int),
                None => first_bucket(bounds@, sample) is None,
            },
    {
        let n = bounds.len();
        let mut j: usize = 0;
        while j < n
            invariant
                j <= n,
                forall|k: int| 0 <= k < j ==> sample > bounds@[k],
            decreases n - j,
        {
            if sample <= bounds[j] {
                proof {
                    lemma_first_bucket_char(bounds@, sample);
                }
                return Some(j);
            }
            j += 1;
        }
        proof {
            lemma_first_bucket_char(bounds@, sample);
        }
        None
    }

    /// Records multiple samples.
    ///
    /// Externally indistinguishable from calling [`Self::record`] once per
    /// sample when the bounds are ascending (see
    /// [`lemma_batch_count_matches_count_le`]), but classifies each sample
    /// into at most one bucket and then propagates the classification counts
    /// forward through the cumulative bucket chain.
    #[verifier::loop_isolation(false)]
    pub fn record_many(&mut self, samples: &[u64])
        requires
            old(self).wf(),
            old(self)@.count + samples@.len() <= u64::MAX,
            old(self)@.sum + sum_of(samples@) <= u64::MAX,
        ensures
            final(self).wf(),
            final(self)@.bounds == old(self)@.bounds,
            final(self)@.count == old(self)@.count + samples@.len(),
            final(self)@.sum == old(self)@.sum + sum_of(samples@),
            final(self)@.buckets.len() == old(self)@.buckets.len(),
            forall|i: int|
                0 <= i < old(self)@.buckets.len() ==> final(self)@.buckets[i] == old(
                    self,
                )@.buckets[i] + batch_count(old(self)@.bounds, samples@, i),
    {
        let ghost bs: Seq<u64> = self.bounds@;
        proof {
            lemma_tallies_bounded(bs, samples@, 0);
        }

        let nb = self.buckets.len();
        let mut bucketed: Vec<u64> = Vec::with_capacity(nb);
        let mut k: usize = 0;
        while k < nb
            invariant
                k <= nb,
                bucketed@.len() == k,
                forall|i: int| 0 <= i < k ==> bucketed@[i] == 0,
            decreases nb - k,
        {
            bucketed.push(0);
            k += 1;
        }

        let ns = samples.len();
        let mut sum: u64 = 0;
        let mut count: u64 = 0;
        let mut k: usize = 0;
        while k < ns
            invariant
                k <= ns,
                bucketed@.len() == nb,
                count == k,
                sum == sum_of(samples@.take(k as int)),
                forall|i: int|
                    0 <= i < nb ==> bucketed@[i] == exact_count(bs, samples@.take(k as int), i),
            decreases ns - k,
        {
            let sample = samples[k];
            proof {
                lemma_prefix_step(bs, samples@, k as int);
                lemma_sum_of_take_le(samples@, k + 1);
                lemma_tallies_bounded(bs, samples@.take(k as int), 0);
                lemma_tallies_bounded(bs, samples@.take(k + 1), 0);
            }
            sum = sum + sample;
            count = count + 1;

            match Self::first_matching_bucket(&self.bounds, sample) {
                Some(j) => {
                    proof {
                        lemma_first_bucket_char(bs, sample);
                        lemma_tallies_bounded(bs, samples@.take(k as int), j as int);
                    }
                    let b = bucketed[j];
                    bucketed[j] = b + 1;
                },
                None => {},
            }
            k += 1;
        }
        proof {
            assert(samples@.take(ns as int) =~= samples@);
        }

        // Add each bucket to the next bucket to satisfy the "less than or
        // equal to" behavior of the buckets.
        proof {
            lemma_batch_split(bs, samples@, 0);
        }
        if nb >= 2 {
            let mut idx: usize = 0;
            while idx < nb - 1
                invariant
                    idx <= nb - 1,
                    bucketed@.len() == nb,
                    forall|i: int| 0 <= i <= idx ==> bucketed@[i] == batch_count(bs, samples@, i),
                    forall|i: int|
                        idx < i < nb ==> bucketed@[i] == exact_count(bs, samples@, i),
                decreases nb - 1 - idx,
            {
                proof {
                    lemma_batch_split(bs, samples@, idx + 1);
                    lemma_tallies_bounded(bs, samples@, idx as int);
                    lemma_tallies_bounded(bs, samples@, idx + 1);
                }
                let a = bucketed[idx];
                let b = bucketed[idx + 1];
                bucketed[idx + 1] = a + b;
                idx += 1;
            }
        }

        // Merge the temporary buckets into the main buckets.
        let mut idx: usize = 0;
        while idx < nb
            invariant
                idx <= nb,
                self.bounds@ == bs,
                self.buckets@.len() == nb,
                self.count == old(self)@.count,
                self.sum == old(self)@.sum,
                forall|i: int|
                    0 <= i < idx ==> self.buckets@[i] == old(self)@.buckets[i] + batch_count(
                        bs,
                        samples@,
                        i,
                    ),
                forall|i: int| idx <= i < nb ==> self.buckets@[i] == old(self)@.buckets[i],
            decreases nb - idx,
        {
            proof {
                lemma_tallies_bounded(bs, samples@, idx as int);
            }
            let b = self.buckets[idx];
            let add = bucketed[idx];
            self.buckets[idx] = b + add;
            idx += 1;
        }
        self.sum = self.sum + sum;
        self.count = self.count + count;
        proof {
            assert forall|i: int| 0 <= i < nb implies self.buckets@[i] <= self.count by {
                lemma_tallies_bounded(bs, samples@, i);
            }
        }
    }
}

} // verus!
