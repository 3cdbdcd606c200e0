use miso::errors::{CodecError, Malformed};

#[test]
fn stream_fault_messages() {
    assert_eq!(
        CodecError::Truncated.to_string(),
        "incomplete varint at end of stream"
    );
    assert_eq!(
        CodecError::Overflow.to_string(),
        "varint overflow while decoding u32"
    );
}

#[test]
fn header_fault_messages() {
    assert_eq!(
        CodecError::Malformed(Malformed::MissingLength).to_string(),
        "header too short: missing length prefix"
    );
    assert_eq!(
        CodecError::Malformed(Malformed::LengthOverflow).to_string(),
        "header length overflow"
    );
    assert_eq!(
        Malformed::SizeMismatch {
            expected: 1234567890,
            actual: 0
        }
        .to_string(),
        "header size mismatch: expected 1234567890 bytes for tokens, got 0"
    );
    assert_eq!(
        Malformed::SizeMismatch {
            expected: 10,
            actual: 9
        }
        .to_string(),
        "header size mismatch: expected 10 bytes for tokens, got 9"
    );
}

#[test]
fn body_fault_messages() {
    assert_eq!(
        Malformed::BodyTruncated.to_string(),
        "malformed body: incomplete varint at end of stream"
    );
    assert_eq!(
        Malformed::BodyOverflow.to_string(),
        "malformed body: varint overflow while decoding u32"
    );
    assert_eq!(
        Malformed::RankOutOfRange { position: 407 }.to_string(),
        "rank out of range at body position 407"
    );
    assert_eq!(
        Malformed::Compression.to_string(),
        "secondary compression stage rejected the payload"
    );
}

#[test]
fn largest_count_in_a_message() {
    let text = Malformed::RankOutOfRange {
        position: usize::MAX,
    }
    .to_string();
    assert_eq!(
        text,
        format!("rank out of range at body position {}", usize::MAX)
    );
}
