use iracing_teleport::protocol::{
    parse_header, DatagramHeader, Receiver, SendError, Sender, HEADER_SIZE, MAX_DATAGRAM_SIZE,
    MAX_PAYLOAD_SIZE,
};

// Helper function to create test data
fn create_test_data(size: usize) -> Vec<u8> {
    (0..size).map(|i| (i % 256) as u8).collect()
}

fn send_all(sender: &mut Sender, data: &[u8], t: u64) -> Vec<Vec<u8>> {
    let mut out = Vec::new();
    sender.send(data, t, &mut out).unwrap();
    out
}

#[test]
fn test_single_fragment_send_receive() {
    let data = create_test_data(1000);
    let mut sender = Sender::new();
    let sent_datagrams = send_all(&mut sender, &data, 0);

    // Verify we got exactly one datagram
    assert_eq!(sent_datagrams.len(), 1);

    // Receive the data
    let mut receiver = Receiver::new(MAX_DATAGRAM_SIZE);
    let (received, sequence_changed) = receiver.process_datagram(&sent_datagrams[0]);
    assert!(
        sequence_changed,
        "First datagram should indicate sequence change"
    );
    let received = received.unwrap();

    // Verify the received data matches the original
    assert_eq!(received, data);
}

#[test]
fn test_multi_fragment_send_receive() {
    let data = create_test_data(MAX_PAYLOAD_SIZE * 3 + 1000); // Will require 4 fragments
    let mut sender = Sender::new();
    let sent_datagrams = send_all(&mut sender, &data, 0);

    // Verify we got 4 datagrams
    assert_eq!(sent_datagrams.len(), 4);

    // Receive the data in order
    let mut receiver = Receiver::new(data.len());
    for (i, datagram) in sent_datagrams.iter().take(3).enumerate() {
        let (received, sequence_changed) = receiver.process_datagram(datagram);
        assert!(
            received.is_none(),
            "Fragment {} should not complete sequence",
            i
        );
        assert_eq!(
            sequence_changed,
            i == 0,
            "Only first fragment should indicate sequence change"
        );
    }
    let (received, sequence_changed) = receiver.process_datagram(&sent_datagrams[3]);
    assert!(
        !sequence_changed,
        "Last fragment should not indicate sequence change"
    );
    let received = received.unwrap();

    // Verify the received data matches the original
    assert_eq!(received, data);
}

#[test]
fn test_out_of_order_fragments() {
    let data = create_test_data(MAX_PAYLOAD_SIZE * 2 + 1000); // Will require 3 fragments
    let mut sender = Sender::new();
    let sent_datagrams = send_all(&mut sender, &data, 0);

    // Receive the data out of order
    let mut receiver = Receiver::new(data.len());
    let (received, sequence_changed) = receiver.process_datagram(&sent_datagrams[2]);
    assert!(received.is_none());
    assert!(
        !sequence_changed,
        "Last fragment should not indicate sequence change"
    );

    let (received, sequence_changed) = receiver.process_datagram(&sent_datagrams[0]);
    assert!(received.is_none());
    assert!(
        sequence_changed,
        "First fragment should indicate sequence change"
    );

    let (received, sequence_changed) = receiver.process_datagram(&sent_datagrams[1]);
    assert!(
        !sequence_changed,
        "Middle fragment should not indicate sequence change"
    );
    let received = received.unwrap();

    // Verify the received data matches the original
    assert_eq!(received, data);
}

#[test]
fn test_sequence_numbers() {
    let data = create_test_data(1000);
    let mut sender = Sender::new();
    let mut last_sequence: Option<u32> = None;

    // Send the data multiple times
    for _ in 0..3 {
        let datagrams = send_all(&mut sender, &data, 0);
        let header = parse_header(&datagrams[0]);
        let current_sequence = Some(header.sequence);

        if let Some(last) = last_sequence {
            assert_eq!(current_sequence.unwrap(), last.wrapping_add(1));
        }
        last_sequence = current_sequence;
    }
}

#[test]
fn test_duplicate_fragment_handling() {
    let data = create_test_data(MAX_PAYLOAD_SIZE * 2); // Will require 2 fragments
    let mut sender = Sender::new();
    let sent_datagrams = send_all(&mut sender, &data, 0);

    // Receive with duplicate fragments
    let mut receiver = Receiver::new(data.len());
    let (received, sequence_changed) = receiver.process_datagram(&sent_datagrams[0]);
    assert!(received.is_none());
    assert!(
        sequence_changed,
        "First fragment should indicate sequence change"
    );

    let (received, sequence_changed) = receiver.process_datagram(&sent_datagrams[0]);
    assert!(received.is_none());
    assert!(
        sequence_changed,
        "Duplicate fragment may indicate sequence change if we get the first fragment twice"
    );

    let (received, sequence_changed) = receiver.process_datagram(&sent_datagrams[1]);
    assert!(
        !sequence_changed,
        "Second fragment should not indicate sequence change"
    );
    let received = received.unwrap();

    // Verify the received data matches the original
    assert_eq!(received, data);
}

#[test]
fn test_invalid_fragment_number() {
    let data = create_test_data(1000);
    let mut sender = Sender::new();
    let sent_datagrams = send_all(&mut sender, &data, 0);

    // Corrupt the fragment number in the header (bytes 4..6, little-endian)
    let mut corrupted = sent_datagrams[0].clone();
    corrupted[4] = 99;
    corrupted[5] = 0;

    // Attempt to receive corrupted datagram
    let mut receiver = Receiver::new(data.len());
    let (received, sequence_changed) = receiver.process_datagram(&corrupted);
    assert!(received.is_none());
    assert!(
        !sequence_changed,
        "we can't make sense of a random fragment number showing up"
    );
}

#[test]
fn test_header_wire_layout() {
    let h = DatagramHeader {
        sequence: 0x0403_0201,
        fragment: 0x0605,
        fragments: 0x0807,
        payload_size: 0x0C0B_0A09,
        source_time_us: 0x1413_1211_100F_0E0D,
    };
    let mut sender = Sender::new();
    // Round-trip through the public parser on bytes we lay out by hand.
    let bytes: Vec<u8> = (1..=20).collect();
    assert_eq!(bytes.len(), HEADER_SIZE);
    let parsed = parse_header(&bytes);
    assert_eq!(parsed, h);
    // A real datagram of a 1000-byte payload carries the same layout.
    let data = create_test_data(1000);
    let dgs = send_all(&mut sender, &data, 7);
    let ph = parse_header(&dgs[0]);
    assert_eq!(ph.sequence, 0);
    assert_eq!(ph.fragment, 0);
    assert_eq!(ph.fragments, 1);
    assert_eq!(ph.payload_size, 1000);
    assert_eq!(ph.source_time_us, 7);
    assert_eq!(dgs[0].len(), HEADER_SIZE + 1000);
}

#[test]
fn test_source_time_latched_from_fragment_zero() {
    let data = create_test_data(1000);
    let mut sender = Sender::new();
    let dgs = send_all(&mut sender, &data, 123_456);
    let mut receiver = Receiver::new(MAX_DATAGRAM_SIZE);
    let (received, _) = receiver.process_datagram(&dgs[0]);
    assert!(received.is_some());
    assert_eq!(receiver.last_source_time_us(), 123_456);
}

#[test]
fn test_oversized_payload_rejected() {
    // One byte more than 65535 full fragments: must be refused, and the
    // sequence number must not advance.
    let data = vec![0u8; MAX_PAYLOAD_SIZE * 65535 + 1];
    let mut sender = Sender::new();
    let mut out: Vec<Vec<u8>> = Vec::new();
    let r = sender.send(&data, 0, &mut out);
    assert_eq!(r, Err(SendError::InvalidData));
    assert!(out.is_empty());

    // The next send is still stamped with sequence 0.
    let small = create_test_data(10);
    let dgs = send_all(&mut sender, &small, 0);
    assert_eq!(parse_header(&dgs[0]).sequence, 0);
}

#[test]
fn test_empty_payload_sends_nothing() {
    let mut sender = Sender::new();
    let mut out: Vec<Vec<u8>> = Vec::new();
    let n = sender.send(&[], 0, &mut out).unwrap();
    assert_eq!(n, 0);
    assert!(out.is_empty());
    // The sequence still advances: the empty send succeeded.
    let dgs = send_all(&mut sender, &create_test_data(10), 0);
    assert_eq!(parse_header(&dgs[0]).sequence, 1);
}

#[test]
fn test_short_datagram_dropped() {
    let data = create_test_data(MAX_PAYLOAD_SIZE + 100); // 2 fragments
    let mut sender = Sender::new();
    let dgs = send_all(&mut sender, &data, 0);
    let mut receiver = Receiver::new(data.len());

    let (received, changed) = receiver.process_datagram(&dgs[0]);
    assert!(received.is_none());
    assert!(changed);

    // A runt datagram (shorter than the header) is dropped without touching
    // the reassembly in progress.
    let (received, changed) = receiver.process_datagram(&dgs[1][..HEADER_SIZE - 1]);
    assert!(received.is_none());
    assert!(!changed);

    let (received, changed) = receiver.process_datagram(&dgs[1]);
    assert!(!changed);
    assert_eq!(received.unwrap(), data);
}

#[test]
fn test_back_to_back_sequences_with_loss() {
    let b1 = create_test_data(MAX_PAYLOAD_SIZE * 2 + 1000); // 3 fragments
    let b2 = create_test_data(MAX_PAYLOAD_SIZE + 500); // 2 fragments
    let mut sender = Sender::new();
    let dgs1 = send_all(&mut sender, &b1, 0);
    let dgs2 = send_all(&mut sender, &b2, 0);
    assert_eq!(dgs1.len(), 3);
    assert_eq!(dgs2.len(), 2);

    let mut receiver = Receiver::new(b1.len());
    // Deliver only fragments 0 and 1 of the first sequence.
    let (r, c) = receiver.process_datagram(&dgs1[0]);
    assert!(r.is_none() && c);
    let (r, c) = receiver.process_datagram(&dgs1[1]);
    assert!(r.is_none() && !c);
    // The second sequence arrives complete; the stale reassembly is abandoned.
    let (r, c) = receiver.process_datagram(&dgs2[0]);
    assert!(r.is_none() && c);
    let (r, c) = receiver.process_datagram(&dgs2[1]);
    assert!(!c);
    assert_eq!(r.unwrap(), b2);
}

#[test]
fn test_permutations_of_three_fragments() {
    let data = create_test_data(MAX_PAYLOAD_SIZE * 2 + 17);
    let mut sender = Sender::new();
    let dgs = send_all(&mut sender, &data, 9);
    assert_eq!(dgs.len(), 3);
    let orders: [[usize; 3]; 6] = [
        [0, 1, 2],
        [0, 2, 1],
        [1, 0, 2],
        [1, 2, 0],
        [2, 0, 1],
        [2, 1, 0],
    ];
    for order in orders {
        let mut receiver = Receiver::new(data.len());
        for (step, &i) in order.iter().enumerate() {
            let (r, c) = receiver.process_datagram(&dgs[i]);
            assert_eq!(c, i == 0, "sequence change only on fragment 0");
            if step == 2 {
                assert_eq!(r.unwrap(), data, "order {:?}", order);
            } else {
                assert!(r.is_none());
            }
        }
        assert_eq!(receiver.last_source_time_us(), 9);
    }
}

#[test]
fn test_duplicates_before_completion() {
    let data = create_test_data(MAX_PAYLOAD_SIZE * 2 + 17);
    let mut sender = Sender::new();
    let dgs = send_all(&mut sender, &data, 0);
    // Duplicate every fragment before the last missing one arrives.
    let delivery = [0usize, 0, 1, 1, 0, 2];
    let mut receiver = Receiver::new(data.len());
    for (step, &i) in delivery.iter().enumerate() {
        let (r, c) = receiver.process_datagram(&dgs[i]);
        assert_eq!(c, i == 0);
        if step == delivery.len() - 1 {
            assert_eq!(r.unwrap(), data);
        } else {
            assert!(r.is_none(), "duplicates must contribute nothing");
        }
    }
}
