//! What holds of counts that are put together from those of several workers.

use crate::latency::{
    bucket_floor, counts_joined, counts_with, is_bucket_top, is_highest, is_lowest,
    latency_layout, lists_counts, LatencyHistogram, EXACT_LIMIT,
};
use crate::stats::StatsView;
use vstd::multiset::Multiset;
use vstd::prelude::*;

verus! {

/// The lowest value of a bucket counts in that bucket, and a value differs from it by
/// no more than a thousandth of itself.
pub proof fn law_buckets_keep_three_digits(value: int)
    requires
        value >= 0,
    ensures
        bucket_floor(bucket_floor(value)) == bucket_floor(value),
        0 <= bucket_floor(value) <= value,
        value < EXACT_LIMIT ==> bucket_floor(value) == value,
        1000 * (value - bucket_floor(value)) <= value,
{
    lemma_bucket(value);
}

/// How far a value lies above the lowest value of its bucket.
proof fn lemma_bucket(value: int)
    requires
        value >= 0,
    ensures
        bucket_floor(bucket_floor(value)) == bucket_floor(value),
        0 <= bucket_floor(value) <= value,
        value < EXACT_LIMIT ==> bucket_floor(value) == value,
        value >= EXACT_LIMIT ==> bucket_floor(value) >= EXACT_LIMIT && bucket_floor(value) % 2 == 0
            && 1024 * (value - bucket_floor(value)) <= value - 1024,
    decreases value,
{
    if value >= EXACT_LIMIT {
        lemma_bucket(value / 2);
        let half = bucket_floor(value / 2);
        assert(bucket_floor(value) == 2 * half);
        assert((2 * half) / 2 == half);
        assert(bucket_floor(2 * half) == 2 * bucket_floor(half));
    }
}

/// Buckets are in the order of their values.
pub proof fn law_buckets_are_in_order(low: int, high: int)
    requires
        0 <= low <= high,
    ensures
        bucket_floor(low) <= bucket_floor(high),
    decreases high,
{
    if low >= EXACT_LIMIT {
        law_buckets_are_in_order(low / 2, high / 2);
    } else if high >= EXACT_LIMIT {
        lemma_bucket(high);
    }
}

/// A bucket has one highest value.
proof fn lemma_one_top(a: int, b: int)
    requires
        0 <= a,
        0 <= b,
        is_bucket_top(a),
        is_bucket_top(b),
        bucket_floor(a) == bucket_floor(b),
    ensures
        a == b,
{
    lemma_bucket(a);
    lemma_bucket(b);
    if a < b {
        law_buckets_are_in_order(a + 1, b);
    } else if b < a {
        law_buckets_are_in_order(b + 1, a);
    }
}

/// The lowest latency lies in the bucket of the first sample, and the highest is the last
/// sample; where there are no samples both are zero.
pub proof fn law_extremes_are_the_outer_samples(
    counts: Multiset<u64>,
    samples: Seq<(u64, u64)>,
    low: u64,
    high: u64,
)
    requires
        lists_counts(samples, counts),
        is_lowest(low, counts),
        is_highest(high, counts),
    ensures
        samples.len() == 0 ==> low == 0 && high == 0,
        samples.len() > 0 ==> low == bucket_floor(samples[0].0 as int) && high == samples.last().0,
{
    broadcast use vstd::multiset::group_multiset_axioms;

    if samples.len() == 0 {
        assert(counts =~= Multiset::empty());
    } else {
        let last = samples.len() - 1;
        let first_floor = bucket_floor(samples[0].0 as int);
        let last_floor = bucket_floor(samples[last].0 as int);
        lemma_bucket(samples[0].0 as int);
        lemma_bucket(samples[last].0 as int);
        assert(counts.count(first_floor as u64) > 0);
        assert(counts.count(last_floor as u64) > 0);
        assert(counts.len() > 0) by {
            if counts.len() == 0 {
                assert(counts =~= Multiset::empty());
            }
        }
        let i = choose|i: int|
            0 <= i < samples.len() && low == bucket_floor(#[trigger] samples[i].0 as int);
        law_buckets_are_in_order(samples[0].0 as int, samples[i].0 as int);
        lemma_bucket(high as int);
        let high_floor = bucket_floor(high as int) as u64;
        assert(counts.count(high_floor) > 0);
        let j = choose|j: int|
            0 <= j < samples.len() && high_floor == bucket_floor(#[trigger] samples[j].0 as int);
        lemma_one_top(high as int, samples[j].0 as int);
        if samples[j].0 < samples[last].0 {
            law_buckets_are_in_order(samples[j].0 + 1, samples[last].0 as int);
        }
    }
}

/// The order in which latencies are recorded does not matter.
pub proof fn law_latencies_in_any_order(counts: Multiset<u64>, first: u64, second: u64)
    ensures
        counts_with(counts_with(counts, first), second) == counts_with(
            counts_with(counts, second),
            first,
        ),
{
    broadcast use vstd::multiset::group_multiset_axioms;

    assert(counts_with(counts_with(counts, first), second) =~= counts_with(
        counts_with(counts, second),
        first,
    ));
}

/// A latency counts the same, whichever of two workers recorded it.
pub proof fn law_latency_of_any_worker(
    a: Multiset<u64>,
    b: Multiset<u64>,
    both: Multiset<u64>,
    value: u64,
)
    requires
        counts_joined(a, b, both),
    ensures
        counts_joined(counts_with(a, value), b, counts_with(both, value)),
        counts_joined(a, counts_with(b, value), counts_with(both, value)),
{
    broadcast use vstd::multiset::group_multiset_axioms;

    let bucket = bucket_floor(value as int) as u64;
    assert(both.count(bucket) == both.count(bucket));
}

/// It does not matter which of two workers is counted first.
pub proof fn law_joining_in_any_order(a: StatsView, b: StatsView, both: StatsView)
    requires
        a.balanced(),
        b.balanced(),
        a.joined(b, both),
    ensures
        b.joined(a, both),
{
}

/// It does not matter how the workers are grouped when they are counted together.
pub proof fn law_joining_in_any_group(
    a: StatsView,
    b: StatsView,
    c: StatsView,
    ab: StatsView,
    bc: StatsView,
    left: StatsView,
    right: StatsView,
)
    requires
        a.balanced(),
        b.balanced(),
        c.balanced(),
        a.joined(b, ab),
        ab.joined(c, left),
        b.joined(c, bc),
        a.joined(bc, right),
    ensures
        left == right,
{
    broadcast use vstd::multiset::group_multiset_axioms;

    assert forall|bucket: u64| #[trigger] left.latency.count(bucket) == right.latency.count(
        bucket,
    ) by {
        assert(ab.latency.count(bucket) == ab.latency.count(bucket));
        assert(bc.latency.count(bucket) == bc.latency.count(bucket));
    }
    assert(left.latency =~= right.latency);
    assert(left.status_codes =~= right.status_codes);
}

/// A worker that has counted nothing changes nothing.
pub proof fn law_joining_nothing(stats: StatsView, both: StatsView)
    requires
        stats.balanced(),
        forall|bucket: u64| #[trigger] stats.latency.count(bucket) <= u64::MAX,
        StatsView::empty().joined(stats, both),
    ensures
        both == stats,
{
    broadcast use vstd::multiset::group_multiset_axioms;

    assert forall|bucket: u64| #[trigger] both.latency.count(bucket) == stats.latency.count(
        bucket,
    ) by {
        assert(stats.latency.count(bucket) <= u64::MAX);
    }
    assert(both.latency =~= stats.latency);
    assert(both.status_codes =~= stats.status_codes);
}

/// A response, a loss, bytes and a latency count the same, whichever of two workers
/// counts them.
pub proof fn law_counting_at_any_worker(
    a: StatsView,
    b: StatsView,
    both: StatsView,
    status: u16,
    bytes: int,
    micros: u64,
)
    requires
        a.balanced(),
        b.balanced(),
        a.joined(b, both),
    ensures
        a.with_response(status).joined(b, both.with_response(status)),
        a.with_network_error().joined(b, both.with_network_error()),
        a.with_bytes(bytes).joined(b, both.with_bytes(bytes)),
        a.with_latency(micros).joined(b, both.with_latency(micros)),
{
    law_latency_of_any_worker(a.latency, b.latency, both.latency, micros);
}

/// A response counts one request, one success where its code lies from 200 to 399, and one
/// under its very code, where that is below 600; no other code and nothing else changes.
pub proof fn law_response_counts_its_code(stats: StatsView, status: u16)
    requires
        stats.status_codes.len() == 600,
    ensures
        ({
            let after = stats.with_response(status);
            &&& after.total_requests == stats.total_requests + 1
            &&& after.successful_requests == stats.successful_requests + if 200 <= status <= 399 {
                1int
            } else {
                0int
            }
            &&& after.total_bytes == stats.total_bytes
            &&& after.latency == stats.latency
            &&& after.status_codes.len() == 600
            &&& forall|code: int|
                0 <= code < 600 ==> #[trigger] after.status_codes[code] == stats.status_codes[code]
                    + if code == status {
                    1int
                } else {
                    0int
                }
        }),
{
}

/// A request without a response counts one request, and one under the code zero; no other
/// code and nothing else changes.
pub proof fn law_network_error_counts_code_zero(stats: StatsView)
    requires
        stats.status_codes.len() == 600,
    ensures
        ({
            let after = stats.with_network_error();
            &&& after.total_requests == stats.total_requests + 1
            &&& after.successful_requests == stats.successful_requests
            &&& after.total_bytes == stats.total_bytes
            &&& after.latency == stats.latency
            &&& after.status_codes.len() == 600
            &&& forall|code: int|
                0 <= code < 600 ==> #[trigger] after.status_codes[code] == stats.status_codes[code]
                    + if code == 0 {
                    1int
                } else {
                    0int
                }
        }),
{
}

/// Bytes count as many as they are, and nothing else changes.
pub proof fn law_bytes_count_as_many(stats: StatsView, bytes: int)
    ensures
        ({
            let after = stats.with_bytes(bytes);
            &&& after.total_bytes == stats.total_bytes + bytes
            &&& after.total_requests == stats.total_requests
            &&& after.successful_requests == stats.successful_requests
            &&& after.latency == stats.latency
            &&& after.status_codes == stats.status_codes
        }),
{
}

/// A latency counts one sample in its bucket, where there is one that has room, and nothing
/// else changes. There is a bucket for each value below 1073741824.
pub proof fn law_latency_counts_one_sample(stats: StatsView, micros: u64)
    ensures
        ({
            let after = stats.with_latency(micros);
            let bucket = bucket_floor(micros as int);
            &&& after.total_requests == stats.total_requests
            &&& after.successful_requests == stats.successful_requests
            &&& after.total_bytes == stats.total_bytes
            &&& after.status_codes == stats.status_codes
            &&& 0 <= bucket <= micros
            &&& forall|other: u64| #[trigger]
                after.latency.count(other) == stats.latency.count(other) + if micros < 1073741824
                    && other == bucket && stats.latency.count(other) < u64::MAX {
                    1int
                } else {
                    0int
                }
        }),
{
    broadcast use vstd::multiset::group_multiset_axioms;

    lemma_bucket(micros as int);
}

/// Nothing is counted at first.
pub proof fn law_nothing_at_first()
    ensures
        ({
            let none = StatsView::empty();
            &&& none.total_requests == 0 && none.successful_requests == 0 && none.total_bytes == 0
            &&& none.status_codes.len() == 600
            &&& forall|code: int| 0 <= code < 600 ==> #[trigger] none.status_codes[code] == 0
            &&& forall|bucket: u64| #[trigger] none.latency.count(bucket) == 0
        }),
{
    broadcast use vstd::multiset::group_multiset_axioms;

}

/// What two workers count together is the sum of what each counts: of the requests, of the
/// successes, of the bytes, of each code and, as far as a counter can hold it, of the
/// samples in each bucket. And there is one such count only.
pub proof fn law_joined_counts_are_sums(a: StatsView, b: StatsView, both: StatsView)
    requires
        a.status_codes.len() == 600,
        b.status_codes.len() == 600,
    ensures
        a.joined(b, both) <==> {
            &&& both.total_requests == a.total_requests + b.total_requests
            &&& both.successful_requests == a.successful_requests + b.successful_requests
            &&& both.total_bytes == a.total_bytes + b.total_bytes
            &&& both.status_codes.len() == 600
            &&& forall|code: int|
                0 <= code < 600 ==> #[trigger] both.status_codes[code] == a.status_codes[code]
                    + b.status_codes[code]
            &&& forall|bucket: u64| #[trigger]
                both.latency.count(bucket) == if a.latency.count(bucket) + b.latency.count(bucket)
                    <= u64::MAX {
                    a.latency.count(bucket) + b.latency.count(bucket)
                } else {
                    u64::MAX as nat
                }
        },
{
}

/// Two to the power of `k`.
pub open spec fn doubled(k: nat) -> int
    decreases k,
{
    if k == 0 {
        1
    } else {
        2 * doubled((k - 1) as nat)
    }
}

/// From 2048 on the buckets are twice as wide each time the values double: between 1024 and
/// 2048 times a power of two each is as wide as that power, and begins at a multiple of it.
pub proof fn law_buckets_double(value: int, k: nat)
    requires
        k > 0,
        1024 * doubled(k) <= value < 2048 * doubled(k),
    ensures
        bucket_floor(value) == value - value % doubled(k),
        bucket_floor(value) <= value < bucket_floor(value) + doubled(k),
    decreases k,
{
    let half = doubled((k - 1) as nat);
    lemma_doubled((k - 1) as nat);
    assert(doubled(k) == 2 * half);
    assert(bucket_floor(value) == 2 * bucket_floor(value / 2));
    if k > 1 {
        law_buckets_double(value / 2, (k - 1) as nat);
    } else {
        assert(half == 1);
        assert((value / 2) % 1 == 0);
    }
    let q = (value / 2) / half;
    let r = (value / 2) % half;
    vstd::arithmetic::div_mod::lemma_fundamental_div_mod(value / 2, half);
    vstd::arithmetic::div_mod::lemma_mod_bound(value / 2, half);
    let left = 2 * r + value % 2;
    assert(value == q * (2 * half) + left) by (nonlinear_arith)
        requires
            value / 2 == half * q + r,
            value == 2 * (value / 2) + value % 2,
            left == 2 * r + value % 2,
    ;
    vstd::arithmetic::div_mod::lemma_fundamental_div_mod_converse(value, 2 * half, q, left);
}

/// A power of two is positive.
proof fn lemma_doubled(k: nat)
    ensures
        doubled(k) > 0,
    decreases k,
{
    if k > 0 {
        lemma_doubled((k - 1) as nat);
    }
}

/// A histogram is made for latencies from one microsecond to ten minutes, with three
/// significant digits, and does not grow.
pub proof fn law_histogram_layout(hist: LatencyHistogram)
    ensures
        hist.wf() <==> latency_layout(hist) == (1u64, 600_000_000u64, 3u8, false),
{
}

/// There is room for what the counters can hold.
pub proof fn law_room_is_what_counters_hold(stats: StatsView, requests: int, bytes: int)
    ensures
        stats.has_room(requests, bytes) <==> stats.total_requests + requests
            <= 18446744073709551615 && stats.total_bytes + bytes <= 18446744073709551615,
{
}

/// The samples list every bucket that counts anything once, with its highest value and its
/// count, and nothing else.
pub proof fn law_samples_list_every_bucket(
    samples: Seq<(u64, u64)>,
    counts: Multiset<u64>,
    value: u64,
)
    requires
        lists_counts(samples, counts),
        counts.count(bucket_floor(value as int) as u64) > 0,
    ensures
        exists|i: int|
            #![trigger samples[i]]
            {
                &&& 0 <= i < samples.len()
                &&& bucket_floor(samples[i].0 as int) == bucket_floor(value as int)
                &&& value <= samples[i].0
                &&& samples[i].1 == counts.count(bucket_floor(value as int) as u64)
                &&& forall|j: int|
                    0 <= j < samples.len() && bucket_floor(#[trigger] samples[j].0 as int)
                        == bucket_floor(value as int) ==> j == i
            },
{
    lemma_bucket(value as int);
    let bucket = bucket_floor(value as int) as u64;
    let i = choose|i: int|
        0 <= i < samples.len() && bucket == bucket_floor(#[trigger] samples[i].0 as int);
    let top = samples[i].0 as int;
    lemma_bucket(top);
    if value > top {
        law_buckets_are_in_order(top + 1, value as int);
    }
    assert forall|j: int|
        0 <= j < samples.len() && bucket_floor(#[trigger] samples[j].0 as int)
            == bucket_floor(value as int) implies j == i by {
        lemma_one_top(samples[j].0 as int, top);
        if j < i {
            assert(samples[j].0 < samples[i].0);
        } else if i < j {
            assert(samples[i].0 < samples[j].0);
        }
    }
}

} // verus!
