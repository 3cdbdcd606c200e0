use miso::errors::CodecError;
use miso::varint::{decode, encode};

#[test]
fn round_trip_basic_values() {
    let cases: &[u32] = &[
        0, 1, 2, 3, 4, 5, 10, 63, 64, 127, 128, 300, 16384, u32::MAX,
    ];
    let enc = encode(cases);
    let dec = decode(&enc).expect("decode ok");
    assert_eq!(dec, cases);
}

#[test]
fn encodings_match_known_pairs() {
    let pairs: &[(&[u8], u32)] = &[
        (&[0x00], 0),
        (&[0x7F], 127),
        (&[0x80, 0x01], 128),
        (&[0xAC, 0x02], 300),
    ];

    for (bytes, value) in pairs {
        assert_eq!(decode(bytes).unwrap(), vec![*value]);
        assert_eq!(encode(&[*value]), *bytes);
    }
}

#[test]
fn error_on_truncated_stream() {
    let truncated = [0x80u8];
    let err = decode(&truncated).unwrap_err().to_string();
    assert!(err.contains("incomplete varint"));
}

#[test]
fn many_values_roundtrip() {
    let mut vals = Vec::new();
    for i in 0..50_000u32 {
        vals.push((i.wrapping_mul(2654435761u32)) ^ 0xDEADBEEF);
    }
    let enc = encode(&vals);
    let dec = decode(&enc).unwrap();
    assert_eq!(dec, vals);
}

#[test]
fn truncated_stream_is_truncated() {
    assert_eq!(decode(&[0x80]), Err(CodecError::Truncated));
    assert_eq!(decode(&[0x01, 0xFF]), Err(CodecError::Truncated));
    assert_eq!(decode(&[0x80, 0x80, 0x80, 0x80, 0x80]), Err(CodecError::Truncated));
}

#[test]
fn sixth_byte_is_overflow() {
    let mut stream = vec![0xFFu8; 10];
    stream.push(0x01);
    assert_eq!(decode(&stream), Err(CodecError::Overflow));
    assert_eq!(decode(&[0x80, 0x80, 0x80, 0x80, 0x80, 0x00]), Err(CodecError::Overflow));
    assert_eq!(decode(&[0x80, 0x80, 0x80, 0x80, 0x80, 0x80]), Err(CodecError::Overflow));
    assert_eq!(
        decode(&[0x05, 0x80, 0x80, 0x80, 0x80, 0x80, 0x80]),
        Err(CodecError::Overflow)
    );
}

#[test]
fn overflow_message() {
    let mut stream = vec![0xFFu8; 10];
    stream.push(0x01);
    let err = decode(&stream).unwrap_err().to_string();
    assert_eq!(err, "varint overflow while decoding u32");
}

#[test]
fn empty_stream_is_no_values() {
    assert_eq!(encode(&[]), Vec::<u8>::new());
    assert_eq!(decode(&[]), Ok(Vec::new()));
}

#[test]
fn largest_value_takes_five_bytes() {
    assert_eq!(encode(&[u32::MAX]), vec![0xFF, 0xFF, 0xFF, 0xFF, 0x0F]);
    assert_eq!(decode(&[0xFF, 0xFF, 0xFF, 0xFF, 0x0F]), Ok(vec![u32::MAX]));
    assert_eq!(encode(&[1 << 28]), vec![0x80, 0x80, 0x80, 0x80, 0x01]);
}

#[test]
fn fifth_byte_loses_bits_beyond_the_32nd() {
    assert_eq!(decode(&[0xFF, 0xFF, 0xFF, 0xFF, 0x7F]), Ok(vec![u32::MAX]));
    assert_eq!(decode(&[0x80, 0x80, 0x80, 0x80, 0x10]), Ok(vec![0]));
    assert_eq!(decode(&[0x80, 0x80, 0x80, 0x80, 0x11]), Ok(vec![1 << 28]));
}

#[test]
fn byte_counts_by_size() {
    assert_eq!(encode(&[127]).len(), 1);
    assert_eq!(encode(&[128]).len(), 2);
    assert_eq!(encode(&[16383]).len(), 2);
    assert_eq!(encode(&[16384]).len(), 3);
    assert_eq!(encode(&[(1 << 21) - 1]).len(), 3);
    assert_eq!(encode(&[1 << 21]).len(), 4);
    assert_eq!(encode(&[(1 << 28) - 1]).len(), 4);
}

#[test]
fn values_come_in_order() {
    assert_eq!(encode(&[1, 128, 2]), vec![0x01, 0x80, 0x01, 0x02]);
    assert_eq!(decode(&[0x01, 0x80, 0x01, 0x02]), Ok(vec![1, 128, 2]));
}

#[test]
fn padded_zero_groups_are_accepted() {
    assert_eq!(decode(&[0x80, 0x00]), Ok(vec![0]));
    assert_eq!(decode(&[0x81, 0x80, 0x00]), Ok(vec![1]));
}

#[test]
fn encoding_without_its_last_byte() {
    let full = encode(&[7, 300]);
    assert_eq!(decode(&full[..full.len() - 1]), Err(CodecError::Truncated));
    let full = encode(&[300, 7]);
    assert_eq!(decode(&full[..full.len() - 1]), Ok(vec![300]));
}
