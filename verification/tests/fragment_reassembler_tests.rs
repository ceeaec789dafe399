use soe_protocol::fragment_reassembler::split_into_fragments;
use soe_protocol::fragment_reassembler::FragmentError;
use soe_protocol::fragment_reassembler::FragmentReassembler;

fn first_fragment(total: u32, bytes: &[u8]) -> Vec<u8> {
    let mut payload = total.to_be_bytes().to_vec();
    payload.extend_from_slice(bytes);
    payload
}

#[test]
fn a_train_is_reassembled_in_order() {
    let mut reassembler = FragmentReassembler::new();
    assert_eq!(
        reassembler.receive_fragment(first_fragment(11, b"hell")),
        Ok(None)
    );
    assert!(reassembler.is_in_progress());
    assert_eq!(reassembler.receive_fragment(b"o wo".to_vec()), Ok(None));
    assert_eq!(
        reassembler.receive_fragment(b"rld".to_vec()),
        Ok(Some(b"hello world".to_vec()))
    );
    assert!(!reassembler.is_in_progress());
}

#[test]
fn a_payload_that_fits_one_fragment_is_delivered_at_once() {
    let mut reassembler = FragmentReassembler::new();
    assert_eq!(
        reassembler.receive_fragment(first_fragment(5, b"whole")),
        Ok(Some(b"whole".to_vec()))
    );
    assert!(!reassembler.is_in_progress());
}

#[test]
fn a_first_fragment_without_its_length_prefix_is_malformed() {
    let mut reassembler = FragmentReassembler::new();
    assert_eq!(
        reassembler.receive_fragment(vec![0x00, 0x00, 0x01]),
        Err(FragmentError::MalformedFragment)
    );
}

#[test]
fn bytes_beyond_the_declared_total_overflow() {
    let mut reassembler = FragmentReassembler::new();
    assert_eq!(
        reassembler.receive_fragment(first_fragment(6, b"hell")),
        Ok(None)
    );
    assert_eq!(
        reassembler.receive_fragment(b"o world".to_vec()),
        Err(FragmentError::FragmentOverflow)
    );
    assert!(!reassembler.is_in_progress());
}

#[test]
fn an_oversized_first_fragment_overflows() {
    let mut reassembler = FragmentReassembler::new();
    assert_eq!(
        reassembler.receive_fragment(first_fragment(2, b"toolong")),
        Err(FragmentError::FragmentOverflow)
    );
}

#[test]
fn a_non_fragment_packet_abandons_the_train() {
    let mut reassembler = FragmentReassembler::new();
    assert_eq!(
        reassembler.receive_fragment(first_fragment(8, b"hal")),
        Ok(None)
    );
    assert_eq!(
        reassembler.receive_non_fragment(),
        Err(FragmentError::FragmentAbandoned)
    );
    assert!(!reassembler.is_in_progress());

    // idle again: a non-fragment packet is no error
    assert_eq!(reassembler.receive_non_fragment(), Ok(()));
}

#[test]
fn splitting_prefixes_the_total_and_bounds_each_fragment() {
    let payload: Vec<u8> = (0u16..20).map(|v| v as u8).collect();
    let fragments = split_into_fragments(&payload, 8);
    assert_eq!(
        fragments[0],
        vec![0x00, 0x00, 0x00, 20, 0, 1, 2, 3]
    );
    assert_eq!(fragments.len(), 3);
    assert!(fragments.iter().all(|fragment| fragment.len() <= 8));
}

#[test]
fn a_small_payload_fits_one_fragment() {
    let fragments = split_into_fragments(b"tiny", 100);
    assert_eq!(fragments, vec![vec![0x00, 0x00, 0x00, 4, b't', b'i', b'n', b'y']]);
}

#[test]
fn splitting_then_reassembling_returns_the_payload() {
    let payload: Vec<u8> = (0u32..1000).map(|v| (v % 251) as u8).collect();
    let fragments = split_into_fragments(&payload, 128);

    let mut reassembler = FragmentReassembler::new();
    let mut delivered: Option<Vec<u8>> = None;
    for (index, fragment) in fragments.iter().enumerate() {
        let result = reassembler.receive_fragment(fragment.clone()).unwrap();
        if index + 1 < fragments.len() {
            assert!(result.is_none());
        } else {
            delivered = result;
        }
    }
    assert_eq!(delivered, Some(payload));
    assert!(!reassembler.is_in_progress());
}

#[test]
fn an_abandoned_train_starts_over() {
    let mut reassembler = FragmentReassembler::new();
    assert_eq!(
        reassembler.receive_fragment(first_fragment(9, b"stale")),
        Ok(None)
    );
    reassembler.abandon();
    assert!(!reassembler.is_in_progress());
    assert_eq!(
        reassembler.receive_fragment(first_fragment(5, b"fresh")),
        Ok(Some(b"fresh".to_vec()))
    );
}
