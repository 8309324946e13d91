use iracing_teleport::stats::{StatisticsPrinter, STATS_INTERVAL_US};

#[test]
fn test_counters_accumulate_and_reset() {
    let mut s = StatisticsPrinter::new("source", 1_000);
    s.add_update();
    s.add_update();
    s.add_bytes(100);
    s.add_bytes(23);
    s.add_protocol_bytes(143);
    s.add_latency(50);
    s.add_latency(70);
    assert_eq!(s.updates, 2);
    assert_eq!(s.bytes, 123);
    assert_eq!(s.protocol_bytes, 143);
    assert_eq!(s.total_latency_us, 120);
    assert_eq!(s.name, "source");

    s.reset(2_000);
    assert_eq!(s.updates, 0);
    assert_eq!(s.bytes, 0);
    assert_eq!(s.protocol_bytes, 0);
    assert_eq!(s.total_latency_us, 0);
    assert_eq!(s.start_time_us, 2_000);
}

#[test]
fn test_should_print_interval_boundary() {
    let s = StatisticsPrinter::new("target", 10_000);
    assert!(!s.should_print(10_000));
    assert!(!s.should_print(10_000 + STATS_INTERVAL_US - 1));
    assert!(s.should_print(10_000 + STATS_INTERVAL_US));
    // A reading older than the interval start never triggers a report.
    assert!(!s.should_print(9_999));
}

#[test]
fn test_counters_wrap() {
    let mut s = StatisticsPrinter::new("source", 0);
    s.add_latency(u64::MAX);
    s.add_latency(3);
    assert_eq!(s.total_latency_us, 2);
    for _ in 0..3 {
        s.add_update();
    }
    assert_eq!(s.updates, 3);
}
