//! What a worker counts.

use crate::latency::{counts_joined, counts_with, latency_counts, LatencyHistogram};
use vstd::multiset::Multiset;
use vstd::prelude::*;

verus! {

/// The status codes that are counted one by one run from zero up to this. A request
/// without a response is counted under the code zero.
pub const STATUS_SLOTS: usize = 600;

/// The first status code of a successful request.
pub const FIRST_SUCCESS: u16 = 200;

/// The first status code behind those of a successful request.
pub const FIRST_FAILURE: u16 = 400;

/// What a worker counts.
pub struct WorkerStats {
    pub total_requests: u64,
    pub successful_requests: u64,
    pub total_bytes: u64,
    pub latency_hist: LatencyHistogram,
    pub status_codes: [u64; STATUS_SLOTS],
}

/// What a worker counts, as numbers of any size.
#[verifier::ext_equal]
pub struct StatsView {
    pub total_requests: int,
    pub successful_requests: int,
    pub total_bytes: int,
    pub latency: Multiset<u64>,
    pub status_codes: Seq<int>,
}

impl View for WorkerStats {
    type V = StatsView;

    open spec fn view(&self) -> StatsView {
        StatsView {
            total_requests: self.total_requests as int,
            successful_requests: self.successful_requests as int,
            total_bytes: self.total_bytes as int,
            latency: latency_counts(self.latency_hist),
            status_codes: self.status_codes@.map_values(|count: u64| count as int),
        }
    }
}

/// The sum of `counts[from..to]`.
pub open spec fn span_sum(counts: Seq<int>, from: int, to: int) -> int
    decreases to - from,
{
    if from >= to {
        0
    } else {
        span_sum(counts, from, to - 1) + counts[to - 1]
    }
}

/// Whether a status code is that of a successful request.
pub open spec fn is_success(status: u16) -> bool {
    FIRST_SUCCESS <= status < FIRST_FAILURE
}

impl StatsView {
    /// Nothing counted.
    pub open spec fn empty() -> StatsView {
        StatsView {
            total_requests: 0,
            successful_requests: 0,
            total_bytes: 0,
            latency: Multiset::empty(),
            status_codes: Seq::new(STATUS_SLOTS as nat, |i: int| 0int),
        }
    }

    /// The counts agree with each other: the successful requests are those with a
    /// successful status code, and no more codes are counted than requests.
    pub open spec fn balanced(self) -> bool {
        &&& self.status_codes.len() == STATUS_SLOTS
        &&& forall|i: int| 0 <= i < STATUS_SLOTS ==> 0 <= #[trigger] self.status_codes[i]
        &&& self.total_bytes >= 0
        &&& self.successful_requests == span_sum(
            self.status_codes,
            FIRST_SUCCESS as int,
            FIRST_FAILURE as int,
        )
        &&& span_sum(self.status_codes, 0, STATUS_SLOTS as int) <= self.total_requests
    }

    /// The counts after a request that got no response.
    pub open spec fn with_network_error(self) -> StatsView {
        StatsView {
            total_requests: self.total_requests + 1,
            status_codes: self.status_codes.update(0, self.status_codes[0] + 1),
            ..self
        }
    }

    /// The counts after a response with the status code `status`.
    pub open spec fn with_response(self, status: u16) -> StatsView {
        StatsView {
            total_requests: self.total_requests + 1,
            successful_requests: self.successful_requests + if is_success(status) {
                1int
            } else {
                0int
            },
            status_codes: if status < STATUS_SLOTS {
                self.status_codes.update(status as int, self.status_codes[status as int] + 1)
            } else {
                self.status_codes
            },
            ..self
        }
    }

    /// The counts after `bytes` more bytes.
    pub open spec fn with_bytes(self, bytes: int) -> StatsView {
        StatsView { total_bytes: self.total_bytes + bytes, ..self }
    }

    /// The counts after a request that took `micros` microseconds.
    pub open spec fn with_latency(self, micros: u64) -> StatsView {
        StatsView { latency: counts_with(self.latency, micros), ..self }
    }

    /// Whether `requests` more requests and `bytes` more bytes can be counted.
    pub open spec fn has_room(self, requests: int, bytes: int) -> bool {
        self.total_requests + requests <= u64::MAX && self.total_bytes + bytes <= u64::MAX
    }

    /// Whether `both` counts what `self` and `other` count together.
    pub open spec fn joined(self, other: StatsView, both: StatsView) -> bool {
        &&& both.total_requests == self.total_requests + other.total_requests
        &&& both.successful_requests == self.successful_requests + other.successful_requests
        &&& both.total_bytes == self.total_bytes + other.total_bytes
        &&& counts_joined(self.latency, other.latency, both.latency)
        &&& both.status_codes.len() == self.status_codes.len()
        &&& forall|i: int|
            #![trigger both.status_codes[i]]
            0 <= i < both.status_codes.len() ==> both.status_codes[i] == self.status_codes[i]
                + other.status_codes[i]
    }
}

/// No count is larger than a sum that it is part of.
pub proof fn lemma_part_of_sum(counts: Seq<int>, from: int, to: int, at: int)
    requires
        0 <= from <= at < to <= counts.len(),
        forall|i: int| 0 <= i < counts.len() ==> 0 <= #[trigger] counts[i],
    ensures
        counts[at] <= span_sum(counts, from, to),
        0 <= span_sum(counts, from, to),
    decreases to,
{
    if at < to - 1 {
        lemma_part_of_sum(counts, from, to - 1, at);
    } else {
        lemma_sum_not_negative(counts, from, to - 1);
    }
}

/// A sum of counts is not negative.
pub proof fn lemma_sum_not_negative(counts: Seq<int>, from: int, to: int)
    requires
        0 <= from,
        to <= counts.len(),
        forall|i: int| 0 <= i < counts.len() ==> 0 <= #[trigger] counts[i],
    ensures
        0 <= span_sum(counts, from, to),
    decreases to - from,
{
    if from < to {
        lemma_sum_not_negative(counts, from, to - 1);
    }
}

/// A part of a span sums up to no more than the span.
pub proof fn lemma_sum_of_part(counts: Seq<int>, from: int, to: int, end: int)
    requires
        0 <= from <= to <= end <= counts.len(),
        forall|i: int| 0 <= i < counts.len() ==> 0 <= #[trigger] counts[i],
    ensures
        span_sum(counts, from, to) <= span_sum(counts, 0, end),
    decreases end,
{
    if to < end {
        lemma_sum_of_part(counts, from, to, end - 1);
    } else if from < to {
        lemma_sum_of_part(counts, from, to - 1, end - 1);
    } else {
        lemma_sum_not_negative(counts, 0, end);
    }
}

/// One more in a place is one more in each span with that place.
pub proof fn lemma_sum_after_update(counts: Seq<int>, from: int, to: int, at: int)
    requires
        0 <= from,
        to <= counts.len(),
        0 <= at < counts.len(),
    ensures
        span_sum(counts.update(at, counts[at] + 1), from, to) == span_sum(counts, from, to) + if from
            <= at < to {
            1int
        } else {
            0int
        },
    decreases to - from,
{
    if from < to {
        lemma_sum_after_update(counts, from, to - 1, at);
    }
}

/// The sum of sums.
pub proof fn lemma_sum_of_sums(a: Seq<int>, b: Seq<int>, c: Seq<int>, from: int, to: int)
    requires
        0 <= from,
        to <= a.len() == b.len() == c.len(),
        forall|i: int| 0 <= i < c.len() ==> #[trigger] c[i] == a[i] + b[i],
    ensures
        span_sum(c, from, to) == span_sum(a, from, to) + span_sum(b, from, to),
    decreases to - from,
{
    if from < to {
        lemma_sum_of_sums(a, b, c, from, to - 1);
    }
}

/// A worker's counts agree with each other before and after whatever it counts.
pub proof fn law_counts_stay_balanced(stats: StatsView, status: u16, bytes: int, micros: u64)
    requires
        stats.balanced(),
        bytes >= 0,
    ensures
        StatsView::empty().balanced(),
        stats.with_network_error().balanced(),
        stats.with_response(status).balanced(),
        stats.with_bytes(bytes).balanced(),
        stats.with_latency(micros).balanced(),
{
    let codes = stats.status_codes;
    let (low, high) = (FIRST_SUCCESS as int, FIRST_FAILURE as int);
    lemma_sum_after_update(codes, low, high, 0);
    lemma_sum_after_update(codes, 0, STATUS_SLOTS as int, 0);
    if status < STATUS_SLOTS {
        lemma_sum_after_update(codes, low, high, status as int);
        lemma_sum_after_update(codes, 0, STATUS_SLOTS as int, status as int);
    }
    lemma_empty_is_balanced();
}

/// Zeros sum up to zero.
pub proof fn lemma_sum_of_zeros(counts: Seq<int>, from: int, to: int)
    requires
        0 <= from,
        to <= counts.len(),
        forall|i: int| 0 <= i < counts.len() ==> #[trigger] counts[i] == 0,
    ensures
        span_sum(counts, from, to) == 0,
    decreases to - from,
{
    if from < to {
        lemma_sum_of_zeros(counts, from, to - 1);
    }
}

/// What two workers count together agrees with itself where their counts do.
pub proof fn law_joined_counts_are_balanced(a: StatsView, b: StatsView, both: StatsView)
    requires
        a.balanced(),
        b.balanced(),
        a.joined(b, both),
    ensures
        both.balanced(),
{
    let (low, high) = (FIRST_SUCCESS as int, FIRST_FAILURE as int);
    let (x, y, z) = (a.status_codes, b.status_codes, both.status_codes);
    lemma_sum_of_sums(x, y, z, low, high);
    lemma_sum_of_sums(x, y, z, 0, STATUS_SLOTS as int);
}

impl WorkerStats {
    /// The counts agree with each other.
    pub open spec fn wf(self) -> bool {
        &&& self@.balanced()
        &&& self.latency_hist.wf()
    }

    /// Whether what `other` counts can be counted too.
    pub fn can_merge(&self, other: &WorkerStats) -> (can: bool)
        ensures
            can == self@.has_room(other@.total_requests, other@.total_bytes),
    {
        self.total_requests <= u64::MAX - other.total_requests && self.total_bytes <= u64::MAX
            - other.total_bytes
    }

    /// Counts a request that got no response.
    pub fn count_network_error(&mut self)
        requires
            old(self).wf(),
            old(self)@.has_room(1, 0),
        ensures
            final(self).wf(),
            final(self)@ == old(self)@.with_network_error(),
    {
        proof {
            law_counts_stay_balanced(self@, 0, 0, 0);
            lemma_part_of_sum(self@.status_codes, 0, STATUS_SLOTS as int, 0);
        }
        self.total_requests += 1;
        self.status_codes[0] += 1;
        assert(self@ =~= old(self)@.with_network_error());
    }

    /// Counts a response with the status code `status`.
    pub fn count_response(&mut self, status: u16)
        requires
            old(self).wf(),
            old(self)@.has_room(1, 0),
        ensures
            final(self).wf(),
            final(self)@ == old(self)@.with_response(status),
    {
        proof {
            law_counts_stay_balanced(self@, status, 0, 0);
            lemma_sum_of_part(
                self@.status_codes,
                FIRST_SUCCESS as int,
                FIRST_FAILURE as int,
                STATUS_SLOTS as int,
            );
            if status < STATUS_SLOTS {
                lemma_part_of_sum(self@.status_codes, 0, STATUS_SLOTS as int, status as int);
            }
        }
        self.total_requests += 1;
        if status >= FIRST_SUCCESS && status < FIRST_FAILURE {
            self.successful_requests += 1;
        }
        let slot: usize = status as usize;
        if slot < STATUS_SLOTS {
            self.status_codes[slot] += 1;
        }
        assert(self@ =~= old(self)@.with_response(status));
    }

    /// Counts `bytes` more bytes.
    pub fn count_bytes(&mut self, bytes: usize)
        requires
            old(self).wf(),
            old(self)@.has_room(0, bytes as int),
        ensures
            final(self).wf(),
            final(self)@ == old(self)@.with_bytes(bytes as int),
    {
        proof {
            law_counts_stay_balanced(self@, 0, bytes as int, 0);
        }
        self.total_bytes += bytes as u64;
        assert(self@ =~= old(self)@.with_bytes(bytes as int));
    }

    /// Counts a request that took `micros` microseconds.
    pub fn record_latency(&mut self, micros: u64)
        requires
            old(self).wf(),
        ensures
            final(self).wf(),
            final(self)@ == old(self)@.with_latency(micros),
    {
        proof {
            law_counts_stay_balanced(self@, 0, 0, micros);
        }
        self.latency_hist.record(micros);
        assert(self@ =~= old(self)@.with_latency(micros));
    }

    /// Counts what `other` counts too.
    pub fn merge(&mut self, other: WorkerStats)
        requires
            old(self).wf(),
            other.wf(),
            old(self)@.has_room(other@.total_requests, other@.total_bytes),
        ensures
            final(self).wf(),
            old(self)@.joined(other@, final(self)@),
    {
        let ghost mine = self@;
        proof {
            let (low, high) = (FIRST_SUCCESS as int, FIRST_FAILURE as int);
            lemma_sum_of_part(mine.status_codes, low, high, STATUS_SLOTS as int);
            lemma_sum_of_part(other@.status_codes, low, high, STATUS_SLOTS as int);
        }
        self.total_requests += other.total_requests;
        self.successful_requests += other.successful_requests;
        self.total_bytes += other.total_bytes;
        self.latency_hist.join(&other.latency_hist);
        let mut i: usize = 0;
        while i < STATUS_SLOTS
            invariant
                i <= STATUS_SLOTS,
                mine.balanced(),
                other@.balanced(),
                mine.total_requests + other.total_requests <= u64::MAX,
                self.total_requests == mine.total_requests + other.total_requests,
                self.successful_requests == mine.successful_requests + other.successful_requests,
                self.total_bytes == mine.total_bytes + other.total_bytes,
                self.latency_hist.wf(),
                counts_joined(
                    mine.latency,
                    other@.latency,
                    latency_counts(self.latency_hist),
                ),
                forall|j: int|
                    0 <= j < i ==> #[trigger] self.status_codes@[j] == mine.status_codes[j]
                        + other.status_codes@[j],
                forall|j: int|
                    i <= j < STATUS_SLOTS ==> #[trigger] self.status_codes@[j]
                        == mine.status_codes[j],
            decreases STATUS_SLOTS - i,
        {
            proof {
                lemma_part_of_sum(mine.status_codes, 0, STATUS_SLOTS as int, i as int);
                lemma_part_of_sum(other@.status_codes, 0, STATUS_SLOTS as int, i as int);
            }
            self.status_codes[i] += other.status_codes[i];
            i += 1;
        }
        proof {
            law_joined_counts_are_balanced(mine, other@, self@);
        }
    }
}

impl Default for WorkerStats {
    /// Nothing counted.
    fn default() -> (stats: WorkerStats)
        ensures
            stats.wf(),
            stats@ == StatsView::empty(),
    {
        let stats = WorkerStats {
            total_requests: 0,
            successful_requests: 0,
            total_bytes: 0,
            latency_hist: LatencyHistogram::new(),
            status_codes: [0; STATUS_SLOTS],
        };
        proof {
            lemma_empty_is_balanced();
            assert(stats@ =~= StatsView::empty());
        }
        stats
    }
}

/// Nothing counted agrees with itself.
proof fn lemma_empty_is_balanced()
    ensures
        StatsView::empty().balanced(),
{
    let codes = StatsView::empty().status_codes;
    lemma_sum_of_zeros(codes, FIRST_SUCCESS as int, FIRST_FAILURE as int);
    lemma_sum_of_zeros(codes, 0, STATUS_SLOTS as int);
}

} // verus!
