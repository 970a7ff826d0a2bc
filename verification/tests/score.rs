use fraud_index::score::Score;

#[test]
fn answers_are_counted_once() {
    let mut s = Score::new(6);
    s.record_response(false, false, 30);
    s.record_response(true, true, 10);
    s.record_response(true, false, 20);
    s.record_response(false, true, 40);
    s.record_response(true, true, 50);
    s.record_error();
    assert_eq!((s.tp, s.tn, s.fp, s.fn_, s.err), (1, 2, 1, 1, 1));
    assert_eq!(s.latencies_us, vec![30, 10, 20, 40, 50]);
    assert_eq!(s.matches(), 3);
    assert_eq!(s.fraud_total(), 2);
    assert_eq!(s.legit_total(), 3);
    assert_eq!(s.failures(), 3);
    assert_eq!(s.weighted_errors(), 9);
    assert_eq!(s.median_us(), Some(30));
    assert_eq!(s.latency_at(4), Some(50));
    assert_eq!(s.latency_at(99), Some(50));
    assert_eq!(s.total_us(), 150);
}

#[test]
fn no_answers_no_latencies() {
    let s = Score::new(0);
    assert_eq!(s.median_us(), None);
    assert_eq!(s.latency_at(0), None);
    assert_eq!(s.total_us(), 0);
}
