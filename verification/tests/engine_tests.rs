use stego::engine::{confirm_passphrase, decode, encode};
use stego::errors::StegoError;

fn zeros(n: usize) -> Vec<u8> {
    let mut v = Vec::new();
    let mut k = 0;
    while k < n {
        v.push(0u8);
        k += 1;
    }
    v
}

fn patterned(n: usize) -> Vec<u8> {
    let mut v = Vec::new();
    let mut k = 0;
    while k < n {
        v.push((k % 251) as u8);
        k += 1;
    }
    v
}

#[test]
fn round_trip_basic() {
    let payload = vec![0x00u8, 0x7F, 0x80, 0xFF, 0x55, 0xAA];
    let password = String::from("hunter2");
    let before = patterned(200);
    let mut container = before.clone();
    let r = encode(&payload, &password, &mut container);
    assert!(r.is_ok());
    // Only the lowest bit of any container byte may change.
    for (after, orig) in container.iter().zip(before.iter()) {
        assert_eq!(after & 0xFE, orig & 0xFE);
    }
    let recovered = decode(&password, &mut container).unwrap();
    assert_eq!(recovered, payload);
}

#[test]
fn round_trip_empty_payload() {
    let payload: Vec<u8> = Vec::new();
    let password = String::from("empty");
    let mut container = patterned(32);
    let r = encode(&payload, &password, &mut container);
    assert!(r.is_ok());
    let recovered = decode(&password, &mut container).unwrap();
    assert_eq!(recovered, payload);
}

#[test]
fn example_single_byte() {
    // Container of 64 zero bytes, passphrase "test", payload 0xAB:
    // 40 bit slots are needed; the header 00 00 00 01 carries one set bit
    // and 0xAB carries five, so exactly six container bytes become 1 and
    // every other byte stays 0.
    let payload = vec![0xABu8];
    let password = String::from("test");
    let mut container = zeros(64);
    let r = encode(&payload, &password, &mut container);
    assert!(r.is_ok());
    assert_eq!(container.len(), 64);
    let mut ones = 0;
    for b in &container {
        assert!(*b == 0 || *b == 1);
        if *b == 1 {
            ones += 1;
        }
    }
    assert_eq!(ones, 6);
    let recovered = decode(&password, &mut container).unwrap();
    assert_eq!(recovered, vec![0xABu8]);
}

#[test]
fn encode_is_deterministic() {
    let payload = vec![1u8, 2, 3, 4, 5];
    let password = String::from("same inputs");
    let mut c1 = patterned(100);
    let mut c2 = patterned(100);
    encode(&payload, &password, &mut c1).unwrap();
    encode(&payload, &password, &mut c2).unwrap();
    assert_eq!(c1, c2);
}

#[test]
fn capacity_exact_fit() {
    // One payload byte needs 32 + 8 = 40 bit slots: a 40-byte container
    // is exactly enough.
    let payload = vec![0x5Au8];
    let password = String::from("fit");
    let mut container = patterned(40);
    let r = encode(&payload, &password, &mut container);
    assert!(r.is_ok());
    let recovered = decode(&password, &mut container).unwrap();
    assert_eq!(recovered, payload);
}

#[test]
fn capacity_one_short() {
    let payload = vec![0x5Au8];
    let password = String::from("no fit");
    let before = patterned(39);
    let mut container = before.clone();
    let r = encode(&payload, &password, &mut container);
    assert_eq!(
        r,
        Err(StegoError::Capacity { required_bits: 40, available_bits: 39 })
    );
    assert_eq!(container, before);
}

#[test]
fn header_lengths_round_trip() {
    for &n in &[0usize, 1, 255, 256, 65536] {
        let payload = patterned(n);
        let password = String::from("sizes");
        let mut container = patterned(32 + 8 * n + 13);
        let r = encode(&payload, &password, &mut container);
        assert!(r.is_ok());
        let recovered = decode(&password, &mut container).unwrap();
        assert_eq!(recovered.len(), n);
        assert_eq!(recovered, payload);
    }
}

#[test]
fn decode_does_not_mutate_container() {
    let payload = vec![9u8, 8, 7];
    let password = String::from("look only");
    let mut container = patterned(120);
    encode(&payload, &password, &mut container).unwrap();
    let before = container.clone();
    let _ = decode(&password, &mut container).unwrap();
    assert_eq!(container, before);
}

#[test]
fn wrong_passphrase_terminates_normally() {
    let payload = vec![42u8; 10];
    let password = String::from("right horse");
    let mut container = patterned(200);
    encode(&payload, &password, &mut container).unwrap();
    let before = container.clone();
    let wrong = String::from("wrong horse");
    // No correctness guarantee: the result may be garbage bytes or a
    // capacity error from a garbage header, but never a crash.
    match decode(&wrong, &mut container) {
        Ok(_) => {}
        Err(StegoError::Capacity { .. }) => {}
        Err(e) => panic!("unexpected error: {:?}", e),
    }
    assert_eq!(container, before);
}

#[test]
fn decode_container_shorter_than_header() {
    let password = String::from("tiny");
    let mut container = patterned(31);
    let r = decode(&password, &mut container);
    assert_eq!(
        r,
        Err(StegoError::Capacity { required_bits: 32, available_bits: 31 })
    );
}

#[test]
fn decode_all_zero_container() {
    // Every low bit is 0, so the header reads a zero byte count and the
    // payload is empty, whatever the passphrase.
    let password = String::from("anything");
    let mut container = zeros(40);
    let r = decode(&password, &mut container);
    assert_eq!(r, Ok(Vec::new()));
}

#[test]
fn passphrase_confirmation() {
    let a = String::from("secret");
    let b = String::from("secret");
    let c = String::from("Secret");
    assert!(confirm_passphrase(&a, &b).is_ok());
    assert_eq!(confirm_passphrase(&a, &c), Err(StegoError::PassphraseMismatch));
}
