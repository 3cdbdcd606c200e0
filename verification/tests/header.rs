use miso::errors::{CodecError, Malformed};
use miso::freq_map::FreqMap;
use miso::header::Header;

#[test]
fn header_round_trip_manual_tokens() {
    let tokens = vec![10, 20, -5, 42];
    let header = Header {
        tokens: tokens.clone(),
        len: tokens.len(),
    };

    let bytes = header.encode();
    let decoded = Header::decode(&bytes).unwrap();

    assert_eq!(decoded.tokens, tokens);
    assert_eq!(decoded.len, tokens.len());
}

#[test]
fn header_handles_empty() {
    let header = Header {
        tokens: Vec::new(),
        len: 0,
    };

    let bytes = header.encode();
    let decoded = Header::decode(&bytes).unwrap();

    assert!(decoded.tokens.is_empty());
    assert_eq!(decoded.len, 0);
}

#[test]
fn header_from_freq_map_round_trip() {
    let freq = FreqMap::from_token_ids(&[1, 1, 2, 3, 3, 3]);

    let header = Header::from_freq_map(&freq);
    let bytes = header.encode();
    let decoded = Header::decode(&bytes).unwrap();

    assert_eq!(decoded.tokens, header.tokens);
    assert_eq!(decoded.len, header.len);
}

#[test]
fn header_from_freq_map_takes_rank_order() {
    let freq = FreqMap::from_token_ids(&[1, 1, 2, 3, 3, 3]);
    let header = Header::from_freq_map(&freq);
    assert_eq!(header.tokens, vec![3, 1, 2]);
    assert_eq!(header.len, 3);
}

#[test]
fn header_bytes_are_little_endian() {
    let header = Header {
        tokens: vec![10, -5, 0x0102_0304],
        len: 3,
    };
    assert_eq!(
        header.encode(),
        vec![3, 0, 0, 0, 10, 0, 0, 0, 0xFB, 0xFF, 0xFF, 0xFF, 0x04, 0x03, 0x02, 0x01]
    );
}

#[test]
fn header_of_nothing_is_four_zero_bytes() {
    let header = Header {
        tokens: Vec::new(),
        len: 0,
    };
    assert_eq!(header.encode(), vec![0, 0, 0, 0]);
}

#[test]
fn header_extreme_tokens_round_trip() {
    let tokens = vec![i32::MIN, i32::MAX, -1, 0, 1];
    let header = Header {
        tokens: tokens.clone(),
        len: tokens.len(),
    };
    let decoded = Header::decode(&header.encode()).unwrap();
    assert_eq!(decoded, header);
}

#[test]
fn header_decode_rejects_short_buffers() {
    for len in 0..4 {
        let bytes = vec![0u8; len];
        assert_eq!(
            Header::decode(&bytes),
            Err(CodecError::Malformed(Malformed::MissingLength))
        );
    }
}

#[test]
fn header_decode_rejects_length_mismatch() {
    let bytes = [2, 0, 0, 0, 7, 0, 0, 0];
    assert_eq!(
        Header::decode(&bytes),
        Err(CodecError::Malformed(Malformed::SizeMismatch {
            expected: 8,
            actual: 4
        }))
    );
    let bytes = [1, 0, 0, 0, 7, 0, 0, 0, 9];
    assert_eq!(
        Header::decode(&bytes),
        Err(CodecError::Malformed(Malformed::SizeMismatch {
            expected: 4,
            actual: 5
        }))
    );
    let bytes = [0, 0, 0, 0, 1];
    assert_eq!(
        Header::decode(&bytes),
        Err(CodecError::Malformed(Malformed::SizeMismatch {
            expected: 0,
            actual: 1
        }))
    );
}

#[test]
fn header_decode_reports_the_counts() {
    let bytes = [2, 0, 0, 0, 7, 0, 0, 0];
    let message = Header::decode(&bytes).unwrap_err().to_string();
    assert_eq!(
        message,
        "header size mismatch: expected 8 bytes for tokens, got 4"
    );
    let message = Header::decode(&[1, 2]).unwrap_err().to_string();
    assert_eq!(message, "header too short: missing length prefix");
}

#[test]
fn header_decode_huge_count() {
    let bytes = [0xFF, 0xFF, 0xFF, 0xFF, 1, 2, 3, 4];
    let err = Header::decode(&bytes).unwrap_err();
    assert!(matches!(err, CodecError::Malformed(_)));
}

#[test]
fn header_without_its_last_byte_is_rejected() {
    let header = Header {
        tokens: vec![1, 2],
        len: 2,
    };
    let bytes = header.encode();
    assert_eq!(
        Header::decode(&bytes[..bytes.len() - 1]),
        Err(CodecError::Malformed(Malformed::SizeMismatch {
            expected: 8,
            actual: 7
        }))
    );
    let empty = Header {
        tokens: Vec::new(),
        len: 0,
    };
    let bytes = empty.encode();
    assert_eq!(
        Header::decode(&bytes[..bytes.len() - 1]),
        Err(CodecError::Malformed(Malformed::MissingLength))
    );
}

#[test]
fn header_decode_prefix_leaves_the_rest() {
    let bytes = [2, 0, 0, 0, 7, 0, 0, 0, 0xFF, 0xFF, 0xFF, 0xFF, 0xAA, 0xBB];
    let (header, used) = Header::decode_prefix(&bytes).unwrap();
    assert_eq!(header.tokens, vec![7, -1]);
    assert_eq!(header.len, 2);
    assert_eq!(used, 12);
    assert_eq!(
        Header::decode_prefix(&bytes[..11]),
        Err(CodecError::Malformed(Malformed::SizeMismatch {
            expected: 8,
            actual: 7
        }))
    );
    assert_eq!(
        Header::decode_prefix(&bytes[..3]),
        Err(CodecError::Malformed(Malformed::MissingLength))
    );
}
