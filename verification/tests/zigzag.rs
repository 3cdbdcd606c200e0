use miso::zigzag::{decode, encode};

#[test]
fn round_trip_small_values() {
    let cases = [-2, -1, 0, 1, 2, 17, -17, 123456, -123456];
    for &x in &cases {
        let z = encode(x);
        let y = decode(z);
        assert_eq!(y, x, "failed round-trip for {x} -> {z}");
    }
}

#[test]
fn exact_known_mappings() {
    assert_eq!(encode(0), 0);
    assert_eq!(encode(-1), 1);
    assert_eq!(encode(1), 2);
    assert_eq!(encode(-2), 3);
    assert_eq!(encode(2), 4);
}

#[test]
fn extremes_round_trip() {
    assert_eq!(decode(encode(i32::MIN)), i32::MIN);
    assert_eq!(decode(encode(i32::MAX)), i32::MAX);
}

#[test]
fn extremes_have_the_largest_images() {
    assert_eq!(encode(i32::MIN), u32::MAX);
    assert_eq!(encode(i32::MAX), u32::MAX - 1);
    assert_eq!(decode(u32::MAX), i32::MIN);
    assert_eq!(decode(u32::MAX - 1), i32::MAX);
}

#[test]
fn decode_known_mappings() {
    assert_eq!(decode(0), 0);
    assert_eq!(decode(1), -1);
    assert_eq!(decode(2), 1);
    assert_eq!(decode(3), -2);
    assert_eq!(decode(4), 2);
    assert_eq!(decode(127), -64);
    assert_eq!(decode(128), 64);
}

#[test]
fn even_images_for_non_negative_odd_for_negative() {
    for x in -1000..1000 {
        let z = encode(x);
        assert_eq!(z % 2 == 0, x >= 0);
        assert_eq!(decode(z), x);
    }
}

#[test]
fn encode_undoes_decode() {
    let cases = [0u32, 1, 2, 3, 255, 256, 0x7FFF_FFFF, 0x8000_0000, u32::MAX - 1, u32::MAX];
    for &u in &cases {
        assert_eq!(encode(decode(u)), u);
    }
}
