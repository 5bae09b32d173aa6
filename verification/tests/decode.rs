use rda::decode::{cipher_transform, decode_payload, BlockFlags, DecodeError};

#[test]
fn cipher_is_an_involution() {
    let data: Vec<u8> = (0u8..=255).collect();
    let once = cipher_transform(&data);
    assert_ne!(once, data);
    let twice = cipher_transform(&once);
    assert_eq!(twice, data);
}

#[test]
fn decode_payload_plain_checks_size() {
    let flags = BlockFlags { bits: 0 };
    assert_eq!(decode_payload(b"abc", flags, 3), Ok(b"abc".to_vec()));
    assert_eq!(
        decode_payload(b"abc", flags, 4),
        Err(DecodeError::SizeMismatch)
    );
}

#[test]
fn flag_bits_read_independently() {
    let flags = BlockFlags { bits: 5 };
    assert!(flags.is_compressed());
    assert!(!flags.is_encrypted());
    assert!(flags.is_contiguous());
    assert!(!flags.is_deleted());
}
