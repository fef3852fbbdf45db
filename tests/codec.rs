use lru_bytes_cache::{CacheError, Person, TryFromBytes, TryIntoBytes};

#[test]
fn string_encodes_as_utf8() {
    assert_eq!("hi".to_string().try_into_bytes(), Ok(vec![104, 105]));
    assert_eq!("é".to_string().try_into_bytes(), Ok(vec![0xC3, 0xA9]));
}

#[test]
fn string_decodes_from_utf8() {
    assert_eq!(String::try_from_bytes(vec![104, 105]), Ok("hi".to_string()));
    assert_eq!(String::try_from_bytes(vec![0xC3, 0xA9]), Ok("é".to_string()));
    assert_eq!(String::try_from_bytes(vec![]), Ok(String::new()));
}

#[test]
fn string_rejects_invalid_utf8() {
    let r = String::try_from_bytes(vec![0xFF, 0xFE]);
    assert!(matches!(r, Err(CacheError::ConversionFailed(_))));
}

#[test]
fn string_round_trip() {
    for s in ["", "value1", "héllo wörld", "日本", "🦀"] {
        let s = s.to_string();
        let b = s.try_into_bytes().unwrap();
        assert_eq!(String::try_from_bytes(b), Ok(s));
    }
}

#[test]
fn i32_encodes_big_endian() {
    assert_eq!(1i32.try_into_bytes(), Ok(vec![0, 0, 0, 1]));
    assert_eq!(0x01020304i32.try_into_bytes(), Ok(vec![1, 2, 3, 4]));
    assert_eq!((-2i32).try_into_bytes(), Ok(vec![0xFF, 0xFF, 0xFF, 0xFE]));
}

#[test]
fn i32_decodes_big_endian() {
    assert_eq!(i32::try_from_bytes(vec![0, 0, 1, 0]), Ok(256));
    assert_eq!(i32::try_from_bytes(vec![0x80, 0, 0, 0]), Ok(i32::MIN));
}

#[test]
fn i32_rejects_wrong_width() {
    for b in [vec![], vec![1], vec![1, 2, 3], vec![1, 2, 3, 4, 5]] {
        assert!(matches!(i32::try_from_bytes(b), Err(CacheError::ConversionFailed(_))));
    }
}

#[test]
fn i32_round_trip() {
    for v in [0, 1, -1, 42, i32::MIN, i32::MAX, 123456789] {
        let b = v.try_into_bytes().unwrap();
        assert_eq!(i32::try_from_bytes(b), Ok(v));
    }
}

#[test]
fn person_encoding_is_length_prefixed() {
    let p = Person { name: "Jo".to_string(), age: 20 };
    assert_eq!(p.try_into_bytes(), Ok(vec![0, 0, 0, 2, b'J', b'o', 0, 0, 0, 20]));
}

#[test]
fn person_round_trip() {
    for (name, age) in [("John", 20), ("", -5), ("Zoë", i32::MAX), ("a\u{0}b", 0)] {
        let p = Person { name: name.to_string(), age };
        let b = p.try_into_bytes().unwrap();
        assert_eq!(Person::try_from_bytes(b), Ok(p));
    }
}

#[test]
fn person_rejects_malformed_bytes() {
    let bad = [
        vec![],
        vec![0, 0, 0, 0, 0, 0, 0],
        vec![0, 0, 0, 3, b'J', b'o', 0, 0, 0, 20],
        vec![0, 0, 0, 1, b'J', b'o', 0, 0, 0, 20],
        vec![0, 0, 0, 2, 0xFF, 0xFE, 0, 0, 0, 20],
    ];
    for b in bad {
        assert!(matches!(Person::try_from_bytes(b), Err(CacheError::ConversionFailed(_))));
    }
}

#[test]
fn bytes_round_trip() {
    let v: Vec<u8> = vec![0xFF, 0, 7];
    assert_eq!(v.try_into_bytes(), Ok(vec![0xFF, 0, 7]));
    assert_eq!(Vec::<u8>::try_from_bytes(v.clone()), Ok(v));
}

#[test]
fn error_carries_detail() {
    let e = CacheError::conversion("bad width");
    assert_eq!(e.detail(), "bad width");
    assert_eq!(e, CacheError::ConversionFailed("bad width".to_string()));
}
