use ruk::latency::{LatencyHistogram, RECORD_LIMIT};
use ruk::plan::{
    note_failed_attempt, phase_after, worker_connections, worker_count, Phase,
};
use ruk::report::{failed_requests, status_line, status_lines};
use ruk::stats::WorkerStats;

#[test]
fn nothing_is_counted_at_first() {
    let stats = WorkerStats::default();
    assert_eq!(stats.total_requests, 0);
    assert_eq!(stats.successful_requests, 0);
    assert_eq!(stats.total_bytes, 0);
    assert!(stats.latency_hist.samples().is_empty());
    assert!(stats.status_codes.iter().all(|&count| count == 0));
}

#[test]
fn responses_are_counted_by_code() {
    let mut stats = WorkerStats::default();
    for status in [199u16, 200, 301, 399, 400, 500, 599, 600, 999] {
        stats.count_response(status);
    }
    stats.count_network_error();
    stats.count_bytes(77);
    assert_eq!(stats.total_requests, 10);
    assert_eq!(stats.successful_requests, 3);
    assert_eq!(stats.total_bytes, 77);
    assert_eq!(stats.status_codes[200], 1);
    assert_eq!(stats.status_codes[599], 1);
    assert_eq!(stats.status_codes[0], 1);
    assert_eq!(stats.status_codes.iter().sum::<u64>(), 8);
    assert_eq!(stats.status_codes[200..400].iter().sum::<u64>(), stats.successful_requests);
    assert_eq!(failed_requests(&stats), 7);
}

#[test]
fn small_latencies_are_exact() {
    let mut hist = LatencyHistogram::new();
    for micros in [5u64, 0, 2047, 5] {
        hist.record(micros);
    }
    assert_eq!(hist.samples(), vec![(0, 1), (5, 2), (2047, 1)]);
}

#[test]
fn large_latencies_share_buckets() {
    let mut hist = LatencyHistogram::new();
    for micros in [2048u64, 2049, 2050, 1_000_000] {
        hist.record(micros);
    }
    assert_eq!(hist.samples(), vec![(2049, 2), (2051, 1), (1_000_447, 1)]);
}

#[test]
fn latencies_beyond_the_last_bucket_are_dropped() {
    let mut hist = LatencyHistogram::new();
    hist.record(RECORD_LIMIT);
    hist.record(u64::MAX);
    assert!(hist.samples().is_empty());
    hist.record(600_000_001);
    hist.record(RECORD_LIMIT - 1);
    let samples = hist.samples();
    assert_eq!(samples.len(), 2);
    assert_eq!(samples[1], (RECORD_LIMIT - 1, 1));
}

#[test]
fn order_of_latencies_does_not_matter() {
    let mut one = LatencyHistogram::new();
    let mut two = LatencyHistogram::new();
    for micros in [3u64, 5000, 70] {
        one.record(micros);
    }
    for micros in [70u64, 3, 5000] {
        two.record(micros);
    }
    assert_eq!(one.samples(), two.samples());
}

#[test]
fn samples_rebuild_the_histogram() {
    let mut hist = LatencyHistogram::new();
    let mut plain = hdrhistogram::Histogram::<u64>::new_with_bounds(1, 600_000_000, 3).unwrap();
    for micros in [12u64, 900, 4097, 4098, 123_456, 99_999_999] {
        hist.record(micros);
        plain.record(micros).unwrap();
    }
    let mut rebuilt = hdrhistogram::Histogram::<u64>::new_with_bounds(1, 600_000_000, 3).unwrap();
    for (value, count) in hist.samples() {
        rebuilt.record_n(value, count).unwrap();
    }
    assert!(rebuilt == plain);
    assert_eq!(rebuilt.mean(), plain.mean());
    assert_eq!(rebuilt.value_at_quantile(0.9), plain.value_at_quantile(0.9));
    assert_eq!(rebuilt.min(), plain.min());
    assert_eq!(rebuilt.max(), plain.max());
}

fn worker(statuses: &[u16], micros: &[u64]) -> WorkerStats {
    let mut stats = WorkerStats::default();
    for &status in statuses {
        stats.count_response(status);
        stats.count_bytes(10);
    }
    for &value in micros {
        stats.record_latency(value);
    }
    stats
}

fn summary(stats: &WorkerStats) -> (u64, u64, u64, Vec<(u64, u64)>, Vec<String>) {
    (
        stats.total_requests,
        stats.successful_requests,
        stats.total_bytes,
        stats.latency_hist.samples(),
        status_lines(stats),
    )
}

#[test]
fn workers_are_counted_together() {
    let mut total = WorkerStats::default();
    total.merge(worker(&[200, 404], &[7, 9]));
    total.merge(worker(&[200, 500, 700], &[7]));
    assert_eq!(
        summary(&total),
        (
            5,
            2,
            50,
            vec![(7, 2), (9, 1)],
            vec![
                "  [HTTP 200]:           2".to_string(),
                "  [HTTP 404]:           1".to_string(),
                "  [HTTP 500]:           1".to_string(),
            ]
        )
    );
}

#[test]
fn workers_are_counted_in_any_order_and_group() {
    let mut left = worker(&[200], &[1]);
    left.merge(worker(&[301, 302], &[2, 3]));
    left.merge(worker(&[500], &[]));
    let mut right = worker(&[500], &[]);
    let mut group = worker(&[301, 302], &[2, 3]);
    group.merge(worker(&[200], &[1]));
    right.merge(group);
    assert_eq!(summary(&left), summary(&right));
}

#[test]
fn nothing_added_changes_nothing() {
    let mut stats = worker(&[200, 204], &[11]);
    let before = summary(&stats);
    stats.merge(WorkerStats::default());
    assert_eq!(summary(&stats), before);
}

#[test]
fn counting_at_any_worker_is_the_same() {
    let mut before = worker(&[200], &[4]);
    before.count_response(404);
    before.merge(worker(&[201], &[5]));
    let mut after = worker(&[200], &[4]);
    after.merge(worker(&[201], &[5]));
    after.count_response(404);
    assert_eq!(summary(&before), summary(&after));
}

#[test]
fn merging_needs_room() {
    let mut stats = WorkerStats::default();
    let mut other = worker(&[500, 500], &[]);
    assert!(stats.can_merge(&other));
    stats.total_requests = u64::MAX - 2;
    assert!(stats.can_merge(&other));
    stats.total_requests = u64::MAX - 1;
    assert!(!stats.can_merge(&other));
    stats.total_requests = 0;
    stats.total_bytes = u64::MAX - 20;
    assert!(stats.can_merge(&other));
    other.count_bytes(1);
    assert!(!stats.can_merge(&other));
}

#[test]
fn extremes_are_the_outer_samples() {
    let mut hist = LatencyHistogram::new();
    assert_eq!((hist.min(), hist.max()), (0, 0));
    for micros in [5000u64, 4099, 1_000_000] {
        hist.record(micros);
    }
    let samples = hist.samples();
    assert_eq!(samples, vec![(4099, 1), (5003, 1), (1_000_447, 1)]);
    assert_eq!((hist.min(), hist.max()), (4096, 1_000_447));
    hist.record(0);
    assert_eq!((hist.min(), hist.max()), (0, 1_000_447));
}

#[test]
fn extremes_of_two_histograms() {
    let mut one = LatencyHistogram::new();
    one.record(0);
    let mut two = LatencyHistogram::new();
    two.record(30);
    two.record(40);
    two.join(&one);
    assert_eq!((two.min(), two.max()), (0, 40));
    let mut three = LatencyHistogram::new();
    three.record(70);
    three.join(&LatencyHistogram::new());
    assert_eq!((three.min(), three.max()), (70, 70));
    let mut zeros = LatencyHistogram::new();
    zeros.record(0);
    assert_eq!((zeros.min(), zeros.max()), (0, 0));
    assert_eq!(zeros.samples(), vec![(0, 1)]);
}

#[test]
fn status_lines_are_formed() {
    assert_eq!(status_line(0, 3), "  [Network Error]:     3");
    assert_eq!(status_line(200, 12345), "  [HTTP 200]:           12345");
    let mut stats = WorkerStats::default();
    stats.count_response(503);
    stats.count_network_error();
    assert_eq!(
        status_lines(&stats),
        vec!["  [Network Error]:     1".to_string(), "  [HTTP 503]:           1".to_string()]
    );
    assert!(status_lines(&WorkerStats::default()).is_empty());
}

#[test]
fn connections_are_shared_out() {
    assert_eq!(worker_connections(50, 8, 0), 7);
    assert_eq!(worker_connections(50, 8, 1), 7);
    assert_eq!(worker_connections(50, 8, 2), 6);
    assert_eq!(worker_connections(3, 8, 3), 0);
    assert_eq!(worker_connections(usize::MAX, 1, 0), usize::MAX);
    for (connections, workers) in [(50usize, 8usize), (0, 3), (7, 7), (5, 9)] {
        let total: usize = (0..workers).map(|w| worker_connections(connections, workers, w)).sum();
        assert_eq!(total, connections);
    }
}

#[test]
fn workers_are_planned() {
    assert_eq!(worker_count(4, Some(16)), 4);
    assert_eq!(worker_count(0, Some(16)), 16);
    assert_eq!(worker_count(0, None), 1);
}

#[test]
fn failed_attempts_are_reported_after_five() {
    let mut attempts = 0;
    for _ in 0..5 {
        assert!(!note_failed_attempt(&mut attempts));
    }
    assert!(note_failed_attempt(&mut attempts));
    assert_eq!(attempts, 6);
}

#[test]
fn phases_end() {
    assert_eq!(phase_after(0, 0, true), Phase::Over);
    assert_eq!(phase_after(1, 2, true), Phase::Running);
    assert_eq!(phase_after(1, 2, false), Phase::Interrupted);
    assert_eq!(phase_after(2, 2, false), Phase::Over);
}
