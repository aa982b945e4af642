use headpack::{Object, ValueClass};

#[test]
fn class_codes_round_trip() {
    let classes = [
        ValueClass::String,
        ValueClass::Bytes,
        ValueClass::Collection,
        ValueClass::Fixed,
    ];
    for (code, class) in classes.iter().enumerate() {
        assert_eq!(class.code(), code as u8);
        assert_eq!(ValueClass::from_code(code as u8), *class);
    }
}

#[test]
fn object_classes_match_their_kind() {
    assert_eq!(Object::string(b"x".to_vec()).class(), 0);
    assert_eq!(Object::bytes(vec![1]).class(), 1);
    assert_eq!(Object::map(Vec::new()).class(), 2);
    assert_eq!(Object::list(Vec::new()).class(), 2);
    assert_eq!(Object::null().class(), 3);
    assert_eq!(Object::sint(-5).class(), 3);
    assert_eq!(Object::uint(5).class(), 3);
    assert_eq!(Object::bool(true).class(), 3);
    assert_eq!(Object::float32(0).class(), 3);
    assert_eq!(Object::float64(0).class(), 3);
    assert_eq!(Object::timestamp32(0).class(), 3);
    assert_eq!(Object::user_defined(40, vec![0; 40]).class(), 3);
}
