use soe_protocol::receive_channel::ReceiveChannel;
use soe_protocol::receive_channel::ReceiveFeedback;

#[test]
fn in_order_packets_are_delivered_at_once() {
    let mut channel = ReceiveChannel::new(256);
    let (delivered, feedback) = channel.receive_data(0, b"alpha".to_vec());
    assert_eq!(delivered, vec![b"alpha".to_vec()]);
    assert_eq!(feedback, None);
    assert_eq!(channel.take_pending_ack(), Some(0));

    let (delivered, feedback) = channel.receive_data(1, b"beta".to_vec());
    assert_eq!(delivered, vec![b"beta".to_vec()]);
    assert_eq!(feedback, None);
    assert_eq!(channel.take_pending_ack(), Some(1));
    assert_eq!(channel.take_pending_ack(), None);
    assert_eq!(channel.expected_sequence(), 2);
}

#[test]
fn out_of_order_packets_wait_for_the_gap_to_fill() {
    let mut channel = ReceiveChannel::new(256);
    let (delivered, feedback) = channel.receive_data(1, b"beta".to_vec());
    assert!(delivered.is_empty());
    assert_eq!(feedback, Some(ReceiveFeedback::OutOfOrder(1)));
    assert_eq!(channel.expected_sequence(), 0);

    let (delivered, feedback) = channel.receive_data(0, b"alpha".to_vec());
    assert_eq!(delivered, vec![b"alpha".to_vec(), b"beta".to_vec()]);
    assert_eq!(feedback, None);
    assert_eq!(channel.take_pending_ack(), Some(1));
    assert_eq!(channel.expected_sequence(), 2);
}

#[test]
fn a_shuffled_duplicated_stream_is_delivered_exactly_once_in_order() {
    let sent: Vec<Vec<u8>> = vec![
        b"one".to_vec(),
        b"two".to_vec(),
        b"three".to_vec(),
        b"four".to_vec(),
    ];
    let arrivals: [u16; 8] = [2, 0, 2, 1, 0, 3, 1, 3];

    let mut channel = ReceiveChannel::new(64);
    let mut received: Vec<Vec<u8>> = Vec::new();
    for wire_sequence in arrivals {
        let (delivered, _) = channel.receive_data(wire_sequence, sent[wire_sequence as usize].clone());
        received.extend(delivered);
    }
    assert_eq!(received, sent);
    assert_eq!(channel.expected_sequence(), 4);
}

#[test]
fn duplicates_are_dropped_and_the_ack_is_repeated() {
    let mut channel = ReceiveChannel::new(256);
    let (_, _) = channel.receive_data(0, b"alpha".to_vec());
    let _ = channel.take_pending_ack();

    let (delivered, feedback) = channel.receive_data(0, b"alpha".to_vec());
    assert!(delivered.is_empty());
    assert_eq!(feedback, Some(ReceiveFeedback::Acknowledge(0)));
    assert_eq!(channel.expected_sequence(), 1);
}

#[test]
fn a_buffered_sequence_is_not_buffered_twice() {
    let mut channel = ReceiveChannel::new(256);
    let (_, feedback) = channel.receive_data(2, b"gamma".to_vec());
    assert_eq!(feedback, Some(ReceiveFeedback::OutOfOrder(2)));
    let (delivered, feedback) = channel.receive_data(2, b"gamma".to_vec());
    assert!(delivered.is_empty());
    assert_eq!(feedback, Some(ReceiveFeedback::OutOfOrder(2)));

    let (delivered, _) = channel.receive_data(0, b"alpha".to_vec());
    assert_eq!(delivered, vec![b"alpha".to_vec()]);
    let (delivered, _) = channel.receive_data(1, b"beta".to_vec());
    assert_eq!(delivered, vec![b"beta".to_vec(), b"gamma".to_vec()]);
    assert_eq!(channel.expected_sequence(), 3);
}

#[test]
fn packets_beyond_the_window_are_dropped() {
    let mut channel = ReceiveChannel::new(8);
    let (delivered, feedback) = channel.receive_data(9, b"far".to_vec());
    assert!(delivered.is_empty());
    assert_eq!(feedback, Some(ReceiveFeedback::OutOfOrder(0)));
    assert_eq!(channel.expected_sequence(), 0);

    let (delivered, feedback) = channel.receive_data(0xFFF0, b"wrapped".to_vec());
    assert!(delivered.is_empty());
    assert_eq!(feedback, Some(ReceiveFeedback::OutOfOrder(0)));
    assert_eq!(channel.expected_sequence(), 0);
}

#[test]
fn the_window_edge_is_buffered_and_one_past_it_is_dropped() {
    let mut channel = ReceiveChannel::new(8);
    let (delivered, feedback) = channel.receive_data(8, b"edge".to_vec());
    assert!(delivered.is_empty());
    assert_eq!(feedback, Some(ReceiveFeedback::OutOfOrder(8)));

    let (delivered, feedback) = channel.receive_data(9, b"past".to_vec());
    assert!(delivered.is_empty());
    assert_eq!(feedback, Some(ReceiveFeedback::OutOfOrder(0)));
}

#[test]
fn acknowledgements_are_coalesced_per_delivered_run() {
    let mut channel = ReceiveChannel::new(256);
    let (_, _) = channel.receive_data(0, b"alpha".to_vec());
    let (_, _) = channel.receive_data(1, b"beta".to_vec());
    assert_eq!(channel.take_pending_ack(), Some(1));
    assert_eq!(channel.take_pending_ack(), None);
}

#[test]
fn the_window_follows_the_expected_sequence_across_blocks() {
    let mut channel = ReceiveChannel::new(256);
    for sequence in 0u32..0x10002 {
        let (delivered, _) = channel.receive_data((sequence & 0xFFFF) as u16, vec![sequence as u8]);
        assert_eq!(delivered, vec![vec![sequence as u8]]);
    }
    assert_eq!(channel.expected_sequence(), 0x10002);

    let (delivered, feedback) = channel.receive_data(0x0003, b"next-block".to_vec());
    assert!(delivered.is_empty());
    assert_eq!(feedback, Some(ReceiveFeedback::OutOfOrder(0x10003)));
}
