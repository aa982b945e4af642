use headpack::{headpack_decode, headpack_encode, Error, Object, Value};

fn key(s: &str) -> Object {
    Object::string(s.as_bytes().to_vec())
}

fn encode_ok(o: Object) -> Vec<u8> {
    match headpack_encode(o) {
        Ok(buf) => buf,
        Err(e) => panic!("encode failed: {:?}", e),
    }
}

fn decode_ok(buf: Vec<u8>) -> Object {
    match headpack_decode(buf) {
        Ok(v) => v,
        Err(e) => panic!("decode failed: {:?}", e),
    }
}

#[test]
fn empty_map_encodes_to_marker() {
    assert_eq!(encode_ok(Object::map(Vec::new())), vec![0x4c]);
}

#[test]
fn empty_list_encodes_to_marker() {
    assert_eq!(encode_ok(Object::list(Vec::new())), vec![0x0c]);
}

#[test]
fn marker_decodes_to_empty_map() {
    assert_eq!(decode_ok(vec![0x4c]), Object::map(Vec::new()));
}

#[test]
fn marker_decodes_to_empty_list() {
    assert_eq!(decode_ok(vec![0x0c]), Object::list(Vec::new()));
}

#[test]
fn easy_as_pi_round_trips() {
    let pi_bits = 3.1415927f32.to_bits();
    let inner = Object::map(vec![(key("pi"), Object::float32(pi_bits))]);
    let root = Object::map(vec![(key("easy"), Object::bool(true)), (key("as"), inner)]);
    let rebuilt = || {
        let inner = Object::map(vec![(key("pi"), Object::float32(pi_bits))]);
        Object::map(vec![(key("easy"), Object::bool(true)), (key("as"), inner)])
    };
    let decoded = decode_ok(encode_ok(root));
    assert_eq!(decoded, rebuilt());
    // the nested field comes back as a 32-bit float holding the same bits
    match &decoded.value {
        Value::Dict(pairs) => match &pairs[1].1.value {
            Value::Dict(inner_pairs) => match &inner_pairs[0].1.value {
                Value::Float32(bits) => {
                    assert_eq!(f32::from_bits(*bits), 3.1415927f32);
                }
                other => panic!("expected Float32, got {:?}", other),
            },
            other => panic!("expected nested map, got {:?}", other),
        },
        other => panic!("expected map root, got {:?}", other),
    }
}

#[test]
fn int_list_round_trips() {
    let ints: Vec<i128> = vec![1, -1, 0, 127, -128];
    let root = Object::list(ints.iter().map(|i| Object::sint(*i)).collect());
    let decoded = decode_ok(encode_ok(root));
    match &decoded.value {
        Value::List(elements) => {
            assert_eq!(elements.len(), 5);
            for (element, expected) in elements.iter().zip(ints.iter()) {
                match &element.value {
                    Value::SInt(i) => assert_eq!(i, expected),
                    other => panic!("expected SInt, got {:?}", other),
                }
            }
        }
        other => panic!("expected list root, got {:?}", other),
    }
}

#[test]
fn single_string_entry_sections() {
    // {"k": "hello"}: one visible object (class String) with is_root_map set,
    // lengths 1 (key) and 5 (value), then the payload bytes
    let root = Object::map(vec![(key("k"), key("hello"))]);
    let encoded = encode_ok(root);
    let mut expected = vec![0x40, 0x2a];
    expected.extend(b"khello");
    assert_eq!(encoded, expected);
}

#[test]
fn id_and_id_str_keep_key_order() {
    let root = Object::map(vec![
        (key("id"), Object::sint(1186275104)),
        (key("id_str"), key("1186275104")),
    ]);
    let decoded = decode_ok(encode_ok(root));
    match &decoded.value {
        Value::Dict(pairs) => {
            assert_eq!(pairs.len(), 2);
            assert_eq!(pairs[0].0, key("id"));
            assert_eq!(pairs[0].1, Object::sint(1186275104));
            assert_eq!(pairs[1].0, key("id_str"));
            assert_eq!(pairs[1].1, key("1186275104"));
        }
        other => panic!("expected map root, got {:?}", other),
    }
}

#[test]
fn every_scalar_kind_round_trips() {
    let blob: Vec<u8> = (0..40).collect();
    let root = Object::map(vec![
        (key("s"), key("text")),
        (key("b"), Object::bytes(vec![0, 255, 7])),
        (key("t"), Object::bool(true)),
        (key("f"), Object::bool(false)),
        (key("n"), Object::null()),
        (key("i"), Object::sint(-123456789)),
        (key("u"), Object::uint(123456789012345678901234567890)),
        (key("f32"), Object::float32(1.5f32.to_bits())),
        (key("f64"), Object::float64(2.25f64.to_bits())),
        (key("ts"), Object::timestamp32(1700000000)),
        (key("x"), Object::user_defined(40, blob.clone())),
    ]);
    let again = Object::map(vec![
        (key("s"), key("text")),
        (key("b"), Object::bytes(vec![0, 255, 7])),
        (key("t"), Object::bool(true)),
        (key("f"), Object::bool(false)),
        (key("n"), Object::null()),
        (key("i"), Object::sint(-123456789)),
        (key("u"), Object::uint(123456789012345678901234567890)),
        (key("f32"), Object::float32(1.5f32.to_bits())),
        (key("f64"), Object::float64(2.25f64.to_bits())),
        (key("ts"), Object::timestamp32(1700000000)),
        (key("x"), Object::user_defined(40, blob)),
    ]);
    assert_eq!(decode_ok(encode_ok(root)), again);
}

#[test]
fn nested_collections_round_trip() {
    let root = Object::list(vec![
        Object::list(Vec::new()),
        Object::map(Vec::new()),
        Object::list(vec![Object::sint(7), Object::list(vec![key("deep")])]),
        Object::map(vec![(key("inner"), Object::list(vec![Object::null()]))]),
    ]);
    let again = Object::list(vec![
        Object::list(Vec::new()),
        Object::map(Vec::new()),
        Object::list(vec![Object::sint(7), Object::list(vec![key("deep")])]),
        Object::map(vec![(key("inner"), Object::list(vec![Object::null()]))]),
    ]);
    assert_eq!(decode_ok(encode_ok(root)), again);
}

#[test]
fn adding_an_entry_grows_the_encoding() {
    let smaller = Object::map(vec![(key("a"), Object::sint(1))]);
    let larger = Object::map(vec![(key("a"), Object::sint(1)), (key(""), Object::null())]);
    assert!(encode_ok(larger).len() > encode_ok(smaller).len());
}

#[test]
fn scalar_root_is_rejected() {
    assert_eq!(headpack_encode(Object::null()), Err(Error::StructuralError));
    assert_eq!(headpack_encode(Object::sint(5)), Err(Error::StructuralError));
}

#[test]
fn non_string_key_is_rejected() {
    let root = Object::map(vec![(Object::sint(1), Object::null())]);
    assert_eq!(headpack_encode(root), Err(Error::StructuralError));
}

#[test]
fn unsigned_zero_is_rejected() {
    // length field 16 would collide with the signed-integer discriminators
    let root = Object::list(vec![Object::uint(0)]);
    assert_eq!(headpack_encode(root), Err(Error::StructuralError));
}

#[test]
fn user_defined_id_below_window_is_rejected() {
    let root = Object::list(vec![Object::user_defined(10, vec![0; 10])]);
    assert_eq!(headpack_encode(root), Err(Error::InvalidDiscriminator));
}

#[test]
fn user_defined_payload_must_match_id() {
    let root = Object::list(vec![Object::user_defined(40, vec![0; 3])]);
    assert_eq!(headpack_encode(root), Err(Error::StructuralError));
}

#[test]
fn empty_input_is_truncated() {
    assert_eq!(headpack_decode(Vec::new()), Err(Error::TruncatedInput));
}

#[test]
fn missing_lengths_section_is_truncated() {
    // classes promise one string object, but the stream ends there
    assert_eq!(headpack_decode(vec![0x40]), Err(Error::TruncatedInput));
}

#[test]
fn missing_payload_is_truncated() {
    // {"k": "hello"} with the payload cut off
    assert_eq!(headpack_decode(vec![0x40, 0x2a, b'k']), Err(Error::TruncatedInput));
}

#[test]
fn fixed_discriminator_above_window_is_invalid() {
    // one fixed-class object whose length value 256 names no sub-type:
    // atoms 4,0,0 pack as 0x91 0x00
    assert_eq!(
        headpack_decode(vec![0x30, 0x91, 0x00]),
        Err(Error::InvalidDiscriminator)
    );
}

#[test]
fn collection_without_records_is_structural() {
    // a nested list claims one element, but no class follows
    assert_eq!(headpack_decode(vec![0x20, 0x60]), Err(Error::StructuralError));
}

#[test]
fn long_list_spills_classes_continuation() {
    // eleven booleans force continued classes bytes (2 + 3·3 per byte)
    let root = Object::list((0..11).map(|i| Object::bool(i % 2 == 0)).collect());
    let again = Object::list((0..11).map(|i| Object::bool(i % 2 == 0)).collect());
    assert_eq!(decode_ok(encode_ok(root)), again);
}

#[test]
fn long_string_uses_multi_atom_length() {
    // a 100-byte string needs a three-atom length (100 = 0o144)
    let s: Vec<u8> = std::iter::repeat(b'a').take(100).collect();
    let root = Object::list(vec![Object::string(s.clone())]);
    let again = Object::list(vec![Object::string(s)]);
    assert_eq!(decode_ok(encode_ok(root)), again);
}

#[test]
fn int_list_exact_bytes() {
    // [1, -1, 0, 127, -128]: two classes bytes (five fixed-class objects),
    // three lengths bytes (atom nibbles 2,2,0,2,4), then the payloads
    let ints: Vec<i128> = vec![1, -1, 0, 127, -128];
    let root = Object::list(ints.iter().map(|i| Object::sint(*i)).collect());
    assert_eq!(
        encode_ok(root),
        vec![0xbf, 0xfc, 0x22, 0x02, 0x40, 0x02, 0x03, 0xfe, 0x01, 0x01]
    );
}

#[test]
fn trailing_bytes_are_ignored() {
    // the sections are self-delimiting; bytes past the payload do not matter
    assert_eq!(decode_ok(vec![0x4c, 0xff]), Object::map(Vec::new()));
}

#[test]
fn sixteen_byte_integers_round_trip() {
    // i128::MAX needs the full 16 payload bytes (length value 16), and
    // u128::MAX the full 16 as well (length value 32): both window edges
    let root = Object::list(vec![
        Object::sint(i128::MAX),
        Object::sint(i128::MIN + 1),
        Object::uint(u128::MAX),
    ]);
    let again = Object::list(vec![
        Object::sint(i128::MAX),
        Object::sint(i128::MIN + 1),
        Object::uint(u128::MAX),
    ]);
    assert_eq!(decode_ok(encode_ok(root)), again);
}

#[test]
fn multibyte_utf8_round_trips() {
    let root = Object::map(vec![(key("greeting"), key("héllo, wörld — 你好 🦀"))]);
    let again = Object::map(vec![(key("greeting"), key("héllo, wörld — 你好 🦀"))]);
    assert_eq!(decode_ok(encode_ok(root)), again);
}

#[test]
fn non_utf8_string_is_rejected_on_encode() {
    let root = Object::list(vec![Object::string(vec![0xff])]);
    assert_eq!(headpack_encode(root), Err(Error::InvalidUtf8));
}

#[test]
fn non_utf8_key_is_rejected_on_encode() {
    let root = Object::map(vec![(Object::string(vec![0xc0, 0x80]), Object::null())]);
    assert_eq!(headpack_encode(root), Err(Error::InvalidUtf8));
}

#[test]
fn non_utf8_string_payload_is_rejected_on_decode() {
    // {"k": <0xff>}: a well-formed message whose string payload is not UTF-8
    assert_eq!(
        headpack_decode(vec![0x40, 0x22, b'k', 0xff]),
        Err(Error::InvalidUtf8)
    );
}

#[test]
fn non_utf8_key_payload_is_rejected_on_decode() {
    // the key bytes are the lone continuation byte 0xff
    assert_eq!(
        headpack_decode(vec![0x40, 0x22, 0xff, b'a']),
        Err(Error::InvalidUtf8)
    );
}

#[test]
fn surrogate_encoding_is_rejected_on_decode() {
    // a 3-byte sequence in the surrogate range U+D800..U+DFFF is not UTF-8
    assert_eq!(
        headpack_decode(vec![0x40, 0x26, b'k', 0xed, 0xa0, 0x80]),
        Err(Error::InvalidUtf8)
    );
}

#[test]
fn first_failure_decides_the_encode_error() {
    // the bad user-defined id comes before the non-string key, so the
    // discriminator error wins
    let root = Object::map(vec![
        (key("a"), Object::user_defined(10, Vec::new())),
        (Object::null(), Object::null()),
    ]);
    assert_eq!(headpack_encode(root), Err(Error::InvalidDiscriminator));
}
