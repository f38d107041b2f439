//! The latency histogram of a worker.
//!
//! Samples are counted in buckets. A bucket is known by its lowest value: below
//! [`EXACT_LIMIT`] every value has a bucket of its own, and above it the buckets
//! double in width each time the value doubles, which keeps three significant
//! decimal digits.

use hdrhistogram::Histogram;
use vstd::multiset::Multiset;
use vstd::prelude::*;

verus! {

/// The lowest latency, in microseconds, that is told apart from zero.
pub const LOWEST_MICROS: u64 = 1;

/// The highest latency, in microseconds, that a histogram is made for: ten minutes.
pub const HIGHEST_MICROS: u64 = 600_000_000;

/// The number of significant decimal digits that a histogram keeps.
pub const SIGNIFICANT_DIGITS: u8 = 3;

/// The first value that shares a bucket with its neighbour.
pub const EXACT_LIMIT: u64 = 2048;

/// The first value that no bucket takes. The last bucket that [`HIGHEST_MICROS`]
/// needs ends just below it.
pub const RECORD_LIMIT: u64 = 1_073_741_824;

/// A histogram of latencies in microseconds.
#[verifier::external_body]
pub struct LatencyHistogram {
    hist: Histogram<u64>,
}

/// What a histogram holds: the lowest value of a bucket, as often as samples were
/// counted in that bucket.
pub uninterp spec fn latency_counts(hist: LatencyHistogram) -> Multiset<u64>;

/// What a histogram was made with: its lowest and highest value, its significant
/// digits, and whether it grows by itself.
pub uninterp spec fn latency_layout(hist: LatencyHistogram) -> (u64, u64, u8, bool);

/// The lowest value of the bucket that counts `value`.
pub open spec fn bucket_floor(value: int) -> int
    decreases value,
{
    if value < EXACT_LIMIT {
        value
    } else {
        2 * bucket_floor(value / 2)
    }
}

/// Whether `value` is the highest value of its bucket.
pub open spec fn is_bucket_top(value: int) -> bool {
    bucket_floor(value + 1) == value + 1
}

/// The counts after one more sample of `value`. A value beyond the last bucket is
/// dropped, and a counter that is full stays full.
pub open spec fn counts_with(counts: Multiset<u64>, value: u64) -> Multiset<u64> {
    let bucket = bucket_floor(value as int) as u64;
    if value < RECORD_LIMIT && counts.count(bucket) < u64::MAX {
        counts.insert(bucket)
    } else {
        counts
    }
}

/// Whether `sum` counts in each bucket what `a` and `b` count there together, up to
/// what a counter can hold.
pub open spec fn counts_joined(a: Multiset<u64>, b: Multiset<u64>, sum: Multiset<u64>) -> bool {
    forall|bucket: u64|
        #![trigger sum.count(bucket)]
        sum.count(bucket) == if a.count(bucket) + b.count(bucket) <= u64::MAX {
            a.count(bucket) + b.count(bucket)
        } else {
            u64::MAX as nat
        }
}

/// Whether `samples` lists, in ascending order, each bucket that counts anything:
/// the bucket's highest value and its count.
pub open spec fn lists_counts(samples: Seq<(u64, u64)>, counts: Multiset<u64>) -> bool {
    &&& forall|i: int|
        #![trigger samples[i]]
        0 <= i < samples.len() ==> {
            &&& is_bucket_top(samples[i].0 as int)
            &&& samples[i].1 > 0
            &&& counts.count(bucket_floor(samples[i].0 as int) as u64) == samples[i].1
        }
    &&& forall|i: int, j: int|
        #![trigger samples[i], samples[j]]
        0 <= i < j < samples.len() ==> samples[i].0 < samples[j].0
    &&& forall|bucket: u64|
        #![trigger counts.count(bucket)]
        counts.count(bucket) > 0 ==> exists|i: int|
            0 <= i < samples.len() && bucket == bucket_floor(#[trigger] samples[i].0 as int)
}

/// Whether `value` is the lowest value of the lowest bucket that counts anything, or zero
/// where none does.
pub open spec fn is_lowest(value: u64, counts: Multiset<u64>) -> bool {
    if counts.len() == 0 {
        value == 0
    } else {
        &&& counts.count(value) > 0
        &&& forall|bucket: u64| #[trigger] counts.count(bucket) > 0 ==> value <= bucket
    }
}

/// Whether `value` is the highest value of the highest bucket that counts anything, or
/// zero where none does.
pub open spec fn is_highest(value: u64, counts: Multiset<u64>) -> bool {
    if counts.len() == 0 {
        value == 0
    } else {
        &&& is_bucket_top(value as int)
        &&& counts.count(bucket_floor(value as int) as u64) > 0
        &&& forall|bucket: u64| #[trigger] counts.count(bucket) > 0 ==> bucket <= value
    }
}

impl LatencyHistogram {
    /// Every histogram of this crate has the one layout.
    pub open spec fn wf(self) -> bool {
        latency_layout(self) == (LOWEST_MICROS, HIGHEST_MICROS, SIGNIFICANT_DIGITS, false)
    }

    /// An empty histogram.
    pub fn new() -> (hist: LatencyHistogram)
        ensures
            hist.wf(),
            latency_counts(hist) == Multiset::<u64>::empty(),
    {
        histogram_with_bounds(LOWEST_MICROS, HIGHEST_MICROS, SIGNIFICANT_DIGITS)
    }

    /// Counts one sample of `micros`, or drops it where no bucket takes it.
    pub fn record(&mut self, micros: u64)
        requires
            old(self).wf(),
        ensures
            final(self).wf(),
            latency_counts(*final(self)) == counts_with(latency_counts(*old(self)), micros),
    {
        let _ = histogram_record(self, micros);
    }

    /// Counts the samples of `other` too.
    pub fn join(&mut self, other: &LatencyHistogram)
        requires
            old(self).wf(),
            other.wf(),
        ensures
            final(self).wf(),
            counts_joined(
                latency_counts(*old(self)),
                latency_counts(*other),
                latency_counts(*final(self)),
            ),
    {
        let _ = histogram_add(self, other);
    }

    /// The buckets that count anything, as pairs of highest value and count.
    pub fn samples(&self) -> (samples: Vec<(u64, u64)>)
        requires
            self.wf(),
        ensures
            lists_counts(samples@, latency_counts(*self)),
    {
        histogram_recorded(self)
    }

    /// The lowest value of the lowest bucket that counts anything, or zero.
    pub fn min(&self) -> (value: u64)
        requires
            self.wf(),
        ensures
            is_lowest(value, latency_counts(*self)),
    {
        histogram_min(self)
    }

    /// The highest value of the highest bucket that counts anything, or zero.
    pub fn max(&self) -> (value: u64)
        requires
            self.wf(),
        ensures
            is_highest(value, latency_counts(*self)),
    {
        histogram_max(self)
    }
}

/// Calls `hdrhistogram::Histogram::new_with_bounds`. A lowest value of one, a highest
/// value of at least twice that and at most five digits are always accepted; the new
/// histogram is empty and does not grow by itself.
#[verifier::external_body]
fn histogram_with_bounds(low: u64, high: u64, digits: u8) -> (hist: LatencyHistogram)
    requires
        low == 1,
        high >= 2,
        digits <= 5,
    ensures
        latency_counts(hist) == Multiset::<u64>::empty(),
        latency_layout(hist) == (low, high, digits, false),
{
    LatencyHistogram { hist: Histogram::<u64>::new_with_bounds(low, high, digits).unwrap() }
}

/// Calls `hdrhistogram::Histogram::record` and tells whether it succeeded. With the
/// layout of this crate it succeeds just where the last bucket ends above `value`, and
/// then adds one to the counter of the bucket, which saturates; a value that is refused
/// leaves the histogram as it was.
#[verifier::external_body]
fn histogram_record(hist: &mut LatencyHistogram, value: u64) -> (recorded: bool)
    requires
        old(hist).wf(),
    ensures
        recorded == (value < RECORD_LIMIT),
        latency_counts(*final(hist)) == counts_with(latency_counts(*old(hist)), value),
        latency_layout(*final(hist)) == latency_layout(*old(hist)),
{
    hist.hist.record(value).is_ok()
}

/// Calls `hdrhistogram::Histogram::add` and tells whether it succeeded. Between two
/// histograms of one layout it always does, and adds the counters bucket by bucket,
/// saturating.
#[verifier::external_body]
fn histogram_add(hist: &mut LatencyHistogram, other: &LatencyHistogram) -> (added: bool)
    requires
        old(hist).wf(),
        other.wf(),
    ensures
        added,
        counts_joined(
            latency_counts(*old(hist)),
            latency_counts(*other),
            latency_counts(*final(hist)),
        ),
        latency_layout(*final(hist)) == latency_layout(*old(hist)),
{
    hist.hist.add(&other.hist).is_ok()
}

/// Calls `hdrhistogram::Histogram::iter_recorded`, which walks the buckets from the
/// lowest to the highest and yields those with a count, each with its highest value and
/// its count.
#[verifier::external_body]
fn histogram_recorded(hist: &LatencyHistogram) -> (samples: Vec<(u64, u64)>)
    requires
        hist.wf(),
    ensures
        lists_counts(samples@, latency_counts(*hist)),
{
    hist.hist.iter_recorded().map(|v| (v.value_iterated_to(), v.count_at_value())).collect()
}

/// Calls `hdrhistogram::Histogram::min`: the lowest value of the lowest bucket with a
/// count, and zero where the histogram is empty.
#[verifier::external_body]
fn histogram_min(hist: &LatencyHistogram) -> (value: u64)
    requires
        hist.wf(),
    ensures
        is_lowest(value, latency_counts(*hist)),
{
    hist.hist.min()
}

/// Calls `hdrhistogram::Histogram::max`: the highest value of the highest bucket with a
/// count, and zero where the histogram is empty.
#[verifier::external_body]
fn histogram_max(hist: &LatencyHistogram) -> (value: u64)
    requires
        hist.wf(),
    ensures
        is_highest(value, latency_counts(*hist)),
{
    hist.hist.max()
}

} // verus!
