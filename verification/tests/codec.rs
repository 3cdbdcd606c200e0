use miso::codec_core::{decode_payload, decode_unpacked, encode_payload};
use miso::errors::{CodecError, Malformed};
use miso::Codec;

fn same(payload: Vec<u8>) -> Vec<u8> {
    payload
}

fn some(payload: Vec<u8>) -> Option<Vec<u8>> {
    Some(payload)
}

fn pack(mut payload: Vec<u8>) -> Vec<u8> {
    payload.reverse();
    payload.push(0x5A);
    payload
}

fn unpack(mut packed: Vec<u8>) -> Option<Vec<u8>> {
    if packed.pop() != Some(0x5A) {
        return None;
    }
    packed.reverse();
    Some(packed)
}

#[test]
fn ping_answers_pong() {
    assert_eq!(Codec::new().ping(), "pong");
}

#[test]
fn example_payload_bytes() {
    let payload = encode_payload(&[5, 5, 5, 7, 7, 9]);
    assert_eq!(
        payload,
        vec![3, 0, 0, 0, 5, 0, 0, 0, 7, 0, 0, 0, 9, 0, 0, 0, 0, 0, 0, 2, 0, 2]
    );
}

#[test]
fn example_round_trip_without_stage() {
    let codec = Codec::new();
    let ids = vec![5, 5, 5, 7, 7, 9];
    let payload = codec.encode_token_ids(ids.clone(), false, same);
    assert_eq!(payload, encode_payload(&ids));
    assert_eq!(codec.decode_token_ids(payload, false, some), Ok(ids));
}

#[test]
fn example_round_trip_with_stage() {
    let codec = Codec::new();
    let ids = vec![5, 5, 5, 7, 7, 9];
    let packed = codec.encode_token_ids(ids.clone(), true, pack);
    assert_eq!(packed, pack(encode_payload(&ids)));
    assert_eq!(codec.decode_token_ids(packed, true, unpack), Ok(ids));
}

#[test]
fn flag_off_leaves_the_stage_alone() {
    let codec = Codec::new();
    let ids = vec![1, 2, 3];
    let payload = codec.encode_token_ids(ids.clone(), false, pack);
    assert_eq!(payload, encode_payload(&ids));
    assert_eq!(codec.decode_token_ids(payload, false, unpack), Ok(ids));
}

#[test]
fn stage_rejection_is_malformed() {
    let codec = Codec::new();
    let payload = encode_payload(&[1, 2, 3]);
    assert_eq!(
        codec.decode_token_ids(payload, true, unpack),
        Err(CodecError::Malformed(Malformed::Compression))
    );
    assert_eq!(
        decode_unpacked(None),
        Err(CodecError::Malformed(Malformed::Compression))
    );
    assert_eq!(decode_unpacked(Some(vec![0, 0, 0, 0])), Ok(Vec::new()));
}

#[test]
fn empty_sequence_is_four_zero_bytes() {
    let payload = encode_payload(&[]);
    assert_eq!(payload, vec![0, 0, 0, 0]);
    assert_eq!(decode_payload(&payload), Ok(Vec::new()));
}

#[test]
fn negative_and_extreme_tokens_round_trip() {
    let ids = vec![i32::MIN, i32::MAX, -1, 0, i32::MIN, 1, -1, i32::MAX, i32::MAX];
    let payload = encode_payload(&ids);
    assert_eq!(decode_payload(&payload), Ok(ids));
}

#[test]
fn negative_deltas_in_the_body() {
    let payload = encode_payload(&[1, 2, 3, 1]);
    assert_eq!(
        payload,
        vec![3, 0, 0, 0, 1, 0, 0, 0, 2, 0, 0, 0, 3, 0, 0, 0, 0, 2, 2, 3]
    );
    assert_eq!(decode_payload(&payload), Ok(vec![1, 2, 3, 1]));
}

#[test]
fn many_tokens_round_trip() {
    let ids: Vec<i32> = (0..20_000)
        .map(|i: i32| (i.wrapping_mul(7919) % 1000) - 500)
        .collect();
    let payload = encode_payload(&ids);
    assert_eq!(decode_payload(&payload), Ok(ids.clone()));
    let codec = Codec::new();
    let packed = codec.encode_token_ids(ids.clone(), true, pack);
    assert_eq!(codec.decode_token_ids(packed, true, unpack), Ok(ids));
}

#[test]
fn payload_cut_within_a_value_is_rejected() {
    let mut ids: Vec<i32> = (1..100).collect();
    ids.push(0);
    let payload = encode_payload(&ids);
    assert_eq!(decode_payload(&payload), Ok(ids));
    assert_eq!(
        decode_payload(&payload[..payload.len() - 1]),
        Err(CodecError::Malformed(Malformed::BodyTruncated))
    );
}

#[test]
fn payload_cut_behind_a_value_is_a_shorter_sequence() {
    let payload = encode_payload(&[5, 5]);
    assert_eq!(decode_payload(&payload[..payload.len() - 1]), Ok(vec![5]));
}

#[test]
fn empty_payload_cut_is_rejected() {
    let payload = encode_payload(&[]);
    assert_eq!(
        decode_payload(&payload[..payload.len() - 1]),
        Err(CodecError::Malformed(Malformed::MissingLength))
    );
}

#[test]
fn payload_cut_in_the_header_is_rejected() {
    let payload = encode_payload(&[5]);
    assert_eq!(payload, vec![1, 0, 0, 0, 5, 0, 0, 0, 0]);
    assert_eq!(
        decode_payload(&payload[..7]),
        Err(CodecError::Malformed(Malformed::SizeMismatch {
            expected: 4,
            actual: 3
        }))
    );
}

#[test]
fn rank_without_token_is_rejected() {
    let payload = [1, 0, 0, 0, 5, 0, 0, 0, 0x00, 0x02];
    assert_eq!(
        decode_payload(&payload),
        Err(CodecError::Malformed(Malformed::RankOutOfRange { position: 1 }))
    );
    let payload = [1, 0, 0, 0, 5, 0, 0, 0, 0x01];
    assert_eq!(
        decode_payload(&payload),
        Err(CodecError::Malformed(Malformed::RankOutOfRange { position: 0 }))
    );
    let payload = [0, 0, 0, 0, 0x00];
    assert_eq!(
        decode_payload(&payload),
        Err(CodecError::Malformed(Malformed::RankOutOfRange { position: 0 }))
    );
    let payload = [1, 0, 0, 0, 5, 0, 0, 0, 0xFF, 0xFF, 0xFF, 0xFF, 0x0F];
    assert_eq!(
        decode_payload(&payload),
        Err(CodecError::Malformed(Malformed::RankOutOfRange { position: 0 }))
    );
}

#[test]
fn body_faults_are_malformed() {
    let payload = [1, 0, 0, 0, 5, 0, 0, 0, 0x80];
    assert_eq!(
        decode_payload(&payload),
        Err(CodecError::Malformed(Malformed::BodyTruncated))
    );
    let payload = [1, 0, 0, 0, 5, 0, 0, 0, 0x80, 0x80, 0x80, 0x80, 0x80, 0x00];
    assert_eq!(
        decode_payload(&payload),
        Err(CodecError::Malformed(Malformed::BodyOverflow))
    );
}

#[test]
fn header_only_payload_is_no_tokens() {
    let payload = [2, 0, 0, 0, 5, 0, 0, 0, 6, 0, 0, 0];
    assert_eq!(decode_payload(&payload), Ok(Vec::new()));
}

#[test]
fn hand_made_payload_decodes() {
    let payload = [2, 0, 0, 0, 9, 0, 0, 0, 0xFE, 0xFF, 0xFF, 0xFF, 0x02, 0x01, 0x00];
    assert_eq!(decode_payload(&payload), Ok(vec![-2, 9, 9]));
}
