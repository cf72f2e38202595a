use stego::codec::{decode_bytes, encode_bytes};
use stego::errors::StegoError;
use stego::framer::{decode_length_header, encode_length_header};

#[test]
fn header_exact_bytes() {
    assert_eq!(encode_length_header(0), vec![0, 0, 0, 0]);
    assert_eq!(encode_length_header(1), vec![0, 0, 0, 1]);
    assert_eq!(encode_length_header(255), vec![0, 0, 0, 255]);
    assert_eq!(encode_length_header(256), vec![0, 0, 1, 0]);
    assert_eq!(encode_length_header(65536), vec![0, 1, 0, 0]);
    assert_eq!(encode_length_header(0x01020304), vec![1, 2, 3, 4]);
    assert_eq!(encode_length_header(0xFFFFFFFF), vec![255, 255, 255, 255]);
}

#[test]
fn header_round_trips() {
    for &n in &[0usize, 1, 255, 256, 65535, 65536, 0x01020304, 0xFFFFFFFF] {
        assert_eq!(decode_length_header(encode_length_header(n)), n);
    }
}

#[test]
fn header_drops_upper_bits() {
    if usize::BITS == 64 {
        let n: usize = (1usize << 32) + 5;
        assert_eq!(encode_length_header(n), vec![0, 0, 0, 5]);
    }
}

#[test]
fn write_then_read_one_byte() {
    let positions: Vec<usize> = vec![3, 1, 4, 11, 5, 9, 2, 6];
    let mut container = vec![0xF0u8; 12];
    let mut cursor = 0usize;
    let payload = vec![0b1010_0110u8];
    encode_bytes(&payload, &positions, &mut cursor, &mut container).unwrap();
    assert_eq!(cursor, 8);
    // Bit s of the payload byte landed in the lowest bit of
    // container[positions[s]]; all upper bits are untouched.
    for (s, p) in positions.iter().enumerate() {
        let expected = (0b1010_0110u8 >> s) & 1;
        assert_eq!(container[*p] & 1, expected);
        assert_eq!(container[*p] & 0xFE, 0xF0);
    }
    let mut read_cursor = 0usize;
    let out = decode_bytes(1, &positions, &mut read_cursor, &container).unwrap();
    assert_eq!(out, payload);
    assert_eq!(read_cursor, 8);
}

#[test]
fn write_exhausts_sequence() {
    let positions: Vec<usize> = vec![0, 1, 2, 3, 4];
    let mut container = vec![0u8; 8];
    let mut cursor = 0usize;
    let payload = vec![0xFFu8];
    let r = encode_bytes(&payload, &positions, &mut cursor, &mut container);
    assert_eq!(r, Err(StegoError::SequenceExhausted));
    assert_eq!(cursor, 5);
    // The five bits that fit were already written before the failure.
    assert_eq!(&container[..5], &[1u8, 1, 1, 1, 1]);
}

#[test]
fn read_exhausts_sequence() {
    let positions: Vec<usize> = vec![0, 1, 2];
    let container = vec![0u8; 8];
    let mut cursor = 0usize;
    let r = decode_bytes(1, &positions, &mut cursor, &container);
    assert_eq!(r, Err(StegoError::SequenceExhausted));
    assert_eq!(cursor, 3);
}

#[test]
fn embedding_matches_directly_derived_key() {
    // Derive the key with the scrypt crate directly, reproduce the
    // position sequence, and predict the whole encoded container: this
    // fails if the library's key derivation disagrees with scrypt under
    // the fixed parameters (cost exponent 12, block size 8, parallelism
    // 1, empty salt).
    let password = String::from("abc");
    let mut key = [0u8; 32];
    let params = scrypt::ScryptParams::new(12, 8, 1).unwrap();
    scrypt::scrypt(password.as_bytes(), &[], &params, &mut key).unwrap();

    let payload = vec![0xABu8];
    let mut container = vec![0u8; 64];
    stego::engine::encode(&payload, &password, &mut container).unwrap();

    let positions = stego::sampler::create_sequence(key, 40, 64);
    let mut expected = vec![0u8; 64];
    let message = [0u8, 0, 0, 1, 0xAB];
    for (byte_idx, byte) in message.iter().enumerate() {
        for s in 0..8 {
            let bit = (byte >> s) & 1;
            expected[positions[8 * byte_idx + s]] = bit;
        }
    }
    assert_eq!(container, expected);
}
