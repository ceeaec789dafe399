use soe_protocol::send_channel::SendChannel;
use soe_protocol::send_channel::SendError;

#[test]
fn submissions_are_numbered_in_order() {
    let mut channel = SendChannel::new(8);
    assert_eq!(channel.submit(b"a".to_vec(), 100), Ok(0));
    assert_eq!(channel.submit(b"b".to_vec(), 101), Ok(1));
    assert_eq!(channel.submit(b"c".to_vec(), 102), Ok(2));
    assert_eq!(channel.in_flight(), 3);
    assert_eq!(channel.next_sequence(), 3);
}

#[test]
fn a_full_window_refuses_with_backpressure() {
    let mut channel = SendChannel::new(2);
    assert_eq!(channel.submit(b"a".to_vec(), 0), Ok(0));
    assert_eq!(channel.submit(b"b".to_vec(), 0), Ok(1));
    assert_eq!(channel.submit(b"c".to_vec(), 0), Err(SendError::Backpressure));
    assert_eq!(channel.in_flight(), 2);

    channel.acknowledge(0);
    assert_eq!(channel.submit(b"c".to_vec(), 1), Ok(2));
}

#[test]
fn an_acknowledgement_is_a_high_water_mark() {
    let mut channel = SendChannel::new(8);
    for k in 0u8..5 {
        channel.submit(vec![k], 0).unwrap();
    }
    channel.acknowledge(2);
    assert_eq!(channel.in_flight(), 2);
    channel.acknowledge(1);
    assert_eq!(channel.in_flight(), 2);
    channel.acknowledge(4);
    assert_eq!(channel.in_flight(), 0);
}

#[test]
fn out_of_order_feedback_retransmits_from_the_gap() {
    let mut channel = SendChannel::new(8);
    for k in 0u8..4 {
        channel.submit(vec![k], 0).unwrap();
    }
    let retransmit = channel.on_out_of_order(2, 50);
    assert_eq!(retransmit, vec![2, 3]);
    assert_eq!(channel.in_flight(), 4);
}

#[test]
fn stale_entries_are_retransmitted_on_tick() {
    let mut channel = SendChannel::new(8);
    channel.submit(b"a".to_vec(), 100).unwrap();
    channel.submit(b"b".to_vec(), 150).unwrap();

    // only the first entry is older than the retransmission timeout
    let (retransmit, dead) = channel.tick(180, 50, 3);
    assert_eq!(retransmit, vec![0]);
    assert!(!dead);

    // nothing is stale right after
    let (retransmit, dead) = channel.tick(181, 50, 3);
    assert!(retransmit.is_empty());
    assert!(!dead);
}

#[test]
fn exhausted_retries_signal_a_dead_peer() {
    let mut channel = SendChannel::new(8);
    channel.submit(b"a".to_vec(), 0).unwrap();
    let mut dead = false;
    for round in 1u64..=3 {
        let (retransmit, now_dead) = channel.tick(round * 100, 50, 2);
        assert_eq!(retransmit, vec![0]);
        dead = now_dead;
    }
    assert!(dead);
}
