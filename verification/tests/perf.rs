use fraud_index::perf::{
    Metric, PerfCollector, PerfConfig, Report, RequestPerf, SearchTrace,
};
use fraud_index::stats::{percentile, sorted, stats, sum, window_stats};
use fraud_index::trace::{elapsed_us, micros_to_u64, NoopTrace, SearchTraceSink};
use std::time::Instant;

fn record(request_id: u64, handler_total_us: u64) -> RequestPerf {
    RequestPerf {
        request_id,
        in_flight_at_start: 1,
        max_in_flight_seen: 1,
        handler_total_us,
        json_parse_us: 2,
        search_total_us: 3,
        response_build_us: 4,
        search: SearchTrace::default(),
    }
}

#[test]
fn settings_of_the_environment() {
    assert!(PerfConfig::from_env(None, None, None, None).is_none());
    assert!(PerfConfig::from_env(Some("0"), Some("5"), None, None).is_none());
    assert!(PerfConfig::from_env(Some("1 "), None, None, None).is_none());
    let c = PerfConfig::from_env(Some("1"), None, None, None).unwrap();
    assert_eq!((c.every, c.slow_us, c.sample), (10_000, 1_000, 0));
    let c = PerfConfig::from_env(Some("1"), Some("0"), Some("20"), Some("x")).unwrap();
    assert_eq!((c.every, c.slow_us, c.sample), (1, 20, 0));
    let c = PerfConfig::from_env(Some("1"), Some("-3"), Some("+7"), Some("9")).unwrap();
    assert_eq!((c.every, c.slow_us, c.sample), (10_000, 7, 9));
}

#[test]
fn requests_are_numbered_and_counted() {
    let config = PerfConfig {
        every: 3,
        slow_us: 100,
        sample: 2,
    };
    let mut perf = PerfCollector::new(config);
    let a = perf.begin_request();
    let b = perf.begin_request();
    assert_eq!((a.request_id(), a.in_flight_at_start()), (1, 1));
    assert_eq!((b.request_id(), b.in_flight_at_start()), (2, 2));
    perf.end_request();
    assert_eq!(perf.current_in_flight(), 1);
    let c = perf.begin_request();
    assert_eq!((c.request_id(), c.in_flight_at_start()), (3, 2));
    perf.end_request();
    perf.end_request();
    assert_eq!(perf.current_in_flight(), 0);
    assert_eq!(perf.max_in_flight_seen(), 2);
    assert_eq!(perf.request_count(), 3);
}

#[test]
fn a_run_of_requests_is_counted() {
    let mut perf = PerfCollector::new(PerfConfig {
        every: 1,
        slow_us: 0,
        sample: 0,
    });
    let mut begun = 0;
    let mut alive = 0;
    let mut peak = 0;
    for begins in [true, true, false, true, true, false, false, true, false, false, true] {
        if begins {
            begun += 1;
            alive += 1;
            if alive > peak {
                peak = alive;
            }
            let guard = perf.begin_request();
            assert_eq!((guard.request_id(), guard.in_flight_at_start()), (begun, alive));
        } else {
            alive -= 1;
            perf.end_request();
        }
        assert_eq!(perf.request_count(), begun);
        assert_eq!(perf.current_in_flight(), alive);
        assert_eq!(perf.max_in_flight_seen(), peak);
    }
    assert_eq!(peak, 3);
}

#[test]
fn windows_are_handed_out_when_complete() {
    let config = PerfConfig {
        every: 3,
        slow_us: 100,
        sample: 2,
    };
    let mut perf = PerfCollector::new(config);
    let r = perf.record_request(record(1, 99));
    assert_eq!(r.report, None);
    assert!(r.flush.is_none());
    let r = perf.record_request(record(2, 99));
    assert_eq!(r.report, Some(Report::Sample));
    assert!(r.flush.is_none());
    let r = perf.record_request(record(4, 100));
    assert_eq!(r.report, Some(Report::Slow));
    let window = r.flush.unwrap();
    assert_eq!(
        window.iter().map(|r| r.request_id).collect::<Vec<_>>(),
        vec![1, 2, 4]
    );
    let s = window_stats(&window, Metric::HandlerTotal);
    assert_eq!((s.count, s.sum, s.p50, s.max), (3, 298, 99, 100));
    assert_eq!(window_stats(&window, Metric::JsonParse).sum, 6);
    assert_eq!(window_stats(&window, Metric::PrunedNodes).max, 0);
    assert!(perf.record_request(record(5, 0)).flush.is_none());
}

#[test]
fn a_trace_adds_up() {
    let mut t = SearchTrace::default();
    assert!(t.enabled());
    t.record_vectorize_us(5);
    t.record_vectorize_us(6);
    t.set_home_cell_count(7);
    t.add_home_scan_us(8, 9);
    t.record_neighbor_seed_us(10);
    t.record_branch_bound_us(11);
    t.record_label_score_us(12);
    t.set_query_key(13);
    t.set_stop_reason("exact");
    t.record_topk([1, 2, 3, 4, 5], 5);
    t.add_branch_scan(14);
    t.inc_visited_cells();
    t.inc_pq_pushes();
    t.inc_pq_pops();
    t.inc_nodes_visited();
    t.inc_leaves_scanned();
    t.inc_pruned_nodes();
    assert_eq!((t.vectorize_us, t.home_cell_count, t.home_scan_us), (11, 7, 8));
    assert_eq!((t.scanned_vectors, t.scanned_cells), (23, 2));
    assert_eq!(
        (t.neighbor_seed_us, t.branch_bound_us, t.label_score_us, t.query_key),
        (10, 11, 12, 13)
    );
    assert_eq!((t.visited_cells, t.pq_pushes, t.pq_pops), (1, 1, 1));
    assert_eq!((t.nodes_visited, t.leaves_scanned, t.pruned_nodes), (1, 1, 1));
    assert_eq!(t.topk_distances, [1, 2, 3, 4, 5]);
    assert_eq!((t.worst_topk_dist, t.stop_reason), (5, "exact"));
    t.pq_pops = u64::MAX;
    t.inc_pq_pops();
    assert_eq!(t.pq_pops, 0);
    assert!(!NoopTrace.enabled());
}

#[test]
fn percentiles_round_up() {
    let values: Vec<u64> = (0..10).map(|i| i * 10).collect();
    assert_eq!(percentile(&values, 50), 50);
    assert_eq!(percentile(&values, 90), 90);
    assert_eq!(percentile(&values, 0), 0);
    assert_eq!(percentile(&values, 100), 90);
    assert_eq!(percentile(&[], 50), 0);
    assert_eq!(percentile(&[7], 99), 7);
}

#[test]
fn a_summary_of_values() {
    let s = stats(vec![5, 1, 4, 2, 3]);
    assert_eq!((s.count, s.sum), (5, 15));
    assert_eq!((s.p50, s.p90, s.p99, s.max), (3, 5, 5, 5));
    let s = stats(vec![]);
    assert_eq!((s.count, s.sum, s.p50, s.p90, s.p99, s.max), (0, 0, 0, 0, 0, 0));
    assert_eq!(sum(&vec![u64::MAX, u64::MAX]), 2 * (u64::MAX as u128));
    assert_eq!(sorted(&vec![3, 1, 2, 1]), vec![1, 1, 2, 3]);
}

#[test]
fn elapsed_time_is_in_microseconds() {
    let start = Instant::now();
    while start.elapsed().as_micros() < 2000 {}
    assert!(elapsed_us(start) >= 2000);
    assert_eq!(micros_to_u64((1u128 << 64) + 5), 5);
}
