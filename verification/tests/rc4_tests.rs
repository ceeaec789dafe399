use soe_protocol::rc4::Rc4;

#[test]
fn test_vector_1() {
    let mut state = Rc4::new(b"Key");
    let mut buffer: Vec<u8> = String::from("Plaintext").into_bytes();
    let cipher: [u8; 9] = [0xBB, 0xF3, 0x16, 0xE8, 0xD9, 0x40, 0xAF, 0x0A, 0xD3];

    state.transform(&mut buffer);

    assert!(buffer.iter().zip(cipher.iter()).all(|(a, b)| a == b))
}

#[test]
fn test_vector_2() {
    let mut state = Rc4::new(b"Wiki");
    let mut buffer: Vec<u8> = String::from("pedia").into_bytes();
    let cipher: [u8; 5] = [0x10, 0x21, 0xBF, 0x04, 0x20];

    state.transform(&mut buffer);

    assert!(buffer.iter().zip(cipher.iter()).all(|(a, b)| a == b))
}

#[test]
fn test_vector_3() {
    let mut state = Rc4::new(b"Secret");
    let mut buffer: Vec<u8> = String::from("Attack at dawn").into_bytes();
    let cipher: [u8; 14] = [
        0x45, 0xA0, 0x1F, 0x64, 0x5F, 0xC3, 0x5B, 0x38, 0x35, 0x52, 0x54, 0x4B, 0x9B, 0xF5,
    ];

    state.transform(&mut buffer);

    assert!(buffer.iter().zip(cipher.iter()).all(|(a, b)| a == b))
}

#[test]
fn transform_twice_restores_plaintext() {
    let mut encrypting = Rc4::new(b"Key");
    let mut decrypting = Rc4::new(b"Key");
    let mut buffer: Vec<u8> = String::from("Plaintext").into_bytes();

    encrypting.transform(&mut buffer);
    assert_ne!(buffer, b"Plaintext".to_vec());
    decrypting.transform(&mut buffer);
    assert_eq!(buffer, b"Plaintext".to_vec());
}

#[test]
fn keystream_has_no_block_boundary() {
    let mut split_state = Rc4::new(b"Wiki");
    let mut first: Vec<u8> = b"pe".to_vec();
    let mut second: Vec<u8> = b"dia".to_vec();
    split_state.transform(&mut first);
    split_state.transform(&mut second);

    let mut whole_state = Rc4::new(b"Wiki");
    let mut whole: Vec<u8> = b"pedia".to_vec();
    whole_state.transform(&mut whole);

    first.extend_from_slice(&second);
    assert_eq!(first, whole);
}

#[test]
fn single_byte_key_and_long_key_seed_distinct_streams() {
    let mut short_key = Rc4::new(&[0x01]);
    let long_key: Vec<u8> = (0u16..=255u16).map(|v| v as u8).collect();
    let mut long_key_state = Rc4::new(&long_key);

    let mut a: Vec<u8> = vec![0x00, 0x00, 0x00, 0x00];
    let mut b: Vec<u8> = vec![0x00, 0x00, 0x00, 0x00];
    short_key.transform(&mut a);
    long_key_state.transform(&mut b);
    assert_ne!(a, b);
}
