use iracing_teleport::protocol::{Receiver, Sender};
use iracing_teleport::source::{connection_lost, encode_snapshot, EncodeOutcome};
use iracing_teleport::stats::StatisticsPrinter;
use iracing_teleport::target::{decode_snapshot, telemetry_expired, total_latency_us};

fn snapshot(size: usize) -> Vec<u8> {
    // Compressible but non-trivial content.
    (0..size).map(|i| ((i / 7) % 251) as u8).collect()
}

#[test]
fn test_compress_fragment_reassemble_decompress() {
    let region = snapshot(40_000);
    let mut sender = Sender::new();
    let outcome = encode_snapshot(&mut sender, &region, 17, region.len());
    let datagrams = match outcome {
        EncodeOutcome::Datagrams(d) => d,
        _ => panic!("encoding a compressible snapshot must succeed"),
    };
    // The encoding is a real LZ4 block: smaller than the input here, and not
    // the input itself.
    let wire_payload: usize = datagrams.iter().map(|d| d.len() - 20).sum();
    assert!(wire_payload < region.len());

    let mut receiver = Receiver::new(region.len());
    let mut completed = None;
    for (i, dg) in datagrams.iter().enumerate() {
        let (r, changed) = receiver.process_datagram(dg);
        assert_eq!(changed, i == 0);
        if let Some(p) = r {
            assert_eq!(i, datagrams.len() - 1);
            completed = Some(p);
        }
    }
    let payload = completed.expect("all fragments delivered");
    assert_eq!(receiver.last_source_time_us(), 17);

    let decoded = decode_snapshot(&payload, region.len()).expect("valid block");
    assert_eq!(decoded, region);
}

#[test]
fn test_compression_failure_skips_update() {
    // A scratch buffer far too small for the encoding: the update is skipped
    // and the sequence number stays put.
    let region = snapshot(40_000);
    let mut sender = Sender::new();
    match encode_snapshot(&mut sender, &region, 0, 16) {
        EncodeOutcome::CompressionFailed => {}
        _ => panic!("encoding cannot fit in 16 bytes"),
    }
    assert_eq!(sender.sequence, 0);
}

#[test]
fn test_decode_rejects_garbage() {
    let garbage = vec![0xFFu8; 100];
    assert!(decode_snapshot(&garbage, 1000).is_none());
}

#[test]
fn test_timeout_decisions() {
    assert!(!connection_lost(1_000_000, 10_999_999));
    assert!(connection_lost(1_000_000, 11_000_000));
    assert!(!telemetry_expired(5, 9_999_999));
    assert!(telemetry_expired(5, 10_000_005));
    // A clock reading older than the reference never trips a timeout.
    assert!(!connection_lost(2_000_000, 1_000_000));
}

#[test]
fn test_total_latency_saturates() {
    assert_eq!(total_latency_us(100, 50, 70), 120);
    assert_eq!(total_latency_us(u64::MAX - 5, 0, 10), u64::MAX);
}

#[test]
fn test_stats_flow_over_one_interval() {
    let mut stats = StatisticsPrinter::new("source", 0);
    let region = snapshot(40_000);
    let mut sender = Sender::new();
    if let EncodeOutcome::Datagrams(dgs) = encode_snapshot(&mut sender, &region, 250, region.len())
    {
        for d in &dgs {
            stats.add_protocol_bytes(d.len());
        }
        stats.add_bytes(region.len());
        stats.add_update();
        stats.add_latency(250);
    }
    assert_eq!(stats.updates, 1);
    assert_eq!(stats.bytes, 40_000);
    assert!(stats.protocol_bytes > 0);
    assert!(stats.should_print(5_000_000));
    stats.reset(5_000_000);
    assert_eq!(stats.protocol_bytes, 0);
}
