use headpack::{sint_from_bytes, sint_to_bytes, uint_from_bytes, uint_to_bytes};

#[test]
fn uint_zero_encodes_empty() {
    assert_eq!(uint_to_bytes(0), Vec::<u8>::new());
}

#[test]
fn sint_zero_encodes_empty() {
    assert_eq!(sint_to_bytes(0), Vec::<u8>::new());
}

#[test]
fn uint_small_values() {
    assert_eq!(uint_to_bytes(1), vec![1]);
    assert_eq!(uint_to_bytes(255), vec![255]);
    assert_eq!(uint_to_bytes(256), vec![1, 0]);
    assert_eq!(uint_to_bytes(0x1234), vec![0x12, 0x34]);
}

#[test]
fn uint_round_trip_samples() {
    let samples: Vec<u128> = vec![
        0,
        1,
        255,
        256,
        0xDEAD_BEEF,
        u64::MAX as u128,
        u128::MAX - 1,
        u128::MAX,
    ];
    for u in samples {
        assert_eq!(uint_from_bytes(&uint_to_bytes(u)), u);
    }
}

#[test]
fn uint_from_bytes_empty_is_zero() {
    assert_eq!(uint_from_bytes(&[]), 0);
}

#[test]
fn uint_from_bytes_wraps_past_sixteen_bytes() {
    // a 17-byte input shifts the leading byte out of the 128-bit accumulator
    let mut long = vec![1u8];
    long.extend(std::iter::repeat(0u8).take(16));
    assert_eq!(uint_from_bytes(&long), 0);
}

#[test]
fn sint_sign_in_low_bit() {
    assert_eq!(sint_to_bytes(1), vec![2]);
    assert_eq!(sint_to_bytes(-1), vec![3]);
    assert_eq!(sint_to_bytes(64), vec![128]);
    assert_eq!(sint_to_bytes(-64), vec![129]);
    assert_eq!(sint_to_bytes(128), vec![1, 0]);
}

#[test]
fn sint_min_encodes_as_one() {
    // |i128::MIN| wraps in 128 bits; the encoding is the single byte 1
    assert_eq!(sint_to_bytes(i128::MIN), vec![1]);
    assert_eq!(sint_from_bytes(&[1]), i128::MIN);
}

#[test]
fn sint_round_trip_samples() {
    let samples: Vec<i128> = vec![
        0,
        1,
        -1,
        127,
        -128,
        i64::MAX as i128,
        i64::MIN as i128,
        i128::MAX,
        i128::MIN,
        i128::MIN + 1,
    ];
    for i in samples {
        assert_eq!(sint_from_bytes(&sint_to_bytes(i)), i);
    }
}

#[test]
fn integer_payload_byte_counts() {
    // per-value payload sizes for the list [1, -1, 0, 127, -128]:
    // the sign bit doubles the magnitude, so -128 spills into a second byte
    assert_eq!(sint_to_bytes(1).len(), 1);
    assert_eq!(sint_to_bytes(-1).len(), 1);
    assert_eq!(sint_to_bytes(0).len(), 0);
    assert_eq!(sint_to_bytes(127).len(), 1);
    assert_eq!(sint_to_bytes(-128).len(), 2);
}
