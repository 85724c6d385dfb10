use dbus_wire::type_system::{
    ObjectPath, ObjectPathError, Signature, SignatureError, ToTypeCode, UnixFd, Variant,
};
use std::collections::HashMap;

#[test]
fn object_path_grammar() {
    assert!(ObjectPath::from_str("/").is_ok());
    assert!(ObjectPath::from_str("/org/freedesktop/DBus").is_ok());
    assert!(ObjectPath::from_str("/a_b/c9").is_ok());
    assert_eq!(Err(ObjectPathError::Empty), ObjectPath::from_str(""));
    assert_eq!(Err(ObjectPathError::MustBeginWithSlash), ObjectPath::from_str("org/x"));
    assert_eq!(Err(ObjectPathError::InvalidCharacter('-')), ObjectPath::from_str("/a-b"));
    assert_eq!(Err(ObjectPathError::ElementsMustContainChars), ObjectPath::from_str("//a"));
    assert_eq!(Err(ObjectPathError::ElementsMustContainChars), ObjectPath::from_str("/a/"));
}

#[test]
fn signature_grammar() {
    assert!(Signature::from_str("").is_ok());
    assert!(Signature::from_str("ybnqiuxtdsogh").is_ok());
    assert!(Signature::from_str("v").is_ok());
    assert!(Signature::from_str("aai").is_ok());
    assert!(Signature::from_str("a{sv}").is_ok());
    assert!(Signature::from_str("(ii)").is_ok());
    assert!(Signature::from_str("(i(ss)ay)u").is_ok());
    assert_eq!(Err(SignatureError::InvalidTypeCodes), Signature::from_str("a"));
    assert_eq!(Err(SignatureError::InvalidTypeCodes), Signature::from_str("z"));
    assert_eq!(Err(SignatureError::InvalidTypeCodes), Signature::from_str("()"));
    assert_eq!(Err(SignatureError::InvalidTypeCodes), Signature::from_str("(i"));
    assert_eq!(Err(SignatureError::InvalidTypeCodes), Signature::from_str("{vs}"));
    assert_eq!(Err(SignatureError::InvalidTypeCodes), Signature::from_str("{si"));
}

#[test]
fn signature_longer_than_255_bytes_fails_to_encode() {
    let long = String::from_utf8(vec![b'i'; 256]).unwrap();
    assert_eq!(Err(SignatureError::ExceedsMaxSize), Signature::from_str(long.as_str()));
    let ok = String::from_utf8(vec![b'i'; 255]).unwrap();
    assert!(Signature::from_str(ok.as_str()).is_ok());
}

#[test]
fn basic_type_codes() {
    assert_eq!(7u8.to_type_code(), "y".to_string());
    assert_eq!(true.to_type_code(), "b".to_string());
    assert_eq!(1i16.to_type_code(), "n".to_string());
    assert_eq!(1u16.to_type_code(), "q".to_string());
    assert_eq!(1i32.to_type_code(), "i".to_string());
    assert_eq!(1u32.to_type_code(), "u".to_string());
    assert_eq!(1i64.to_type_code(), "x".to_string());
    assert_eq!(1u64.to_type_code(), "t".to_string());
    assert_eq!("s".to_string().to_type_code(), "s".to_string());
    assert_eq!("str slices too".to_type_code(), "s".to_string());
    assert_eq!(ObjectPath::from_str("/").unwrap().to_type_code(), "o".to_string());
    assert_eq!(Signature::from_str("i").unwrap().to_type_code(), "g".to_string());
    assert_eq!(UnixFd(3).to_type_code(), "h".to_string());
    assert_eq!(Variant.to_type_code(), "v".to_string());
}

#[test]
fn container_codes_come_from_the_declared_element_type() {
    // an empty array still knows its signature
    let empty: Vec<u32> = vec![];
    assert_eq!(empty.to_type_code(), "au".to_string());
    assert_eq!(vec![vec![1u8]].to_type_code(), "aay".to_string());
    let empty_map: HashMap<String, Vec<u8>> = HashMap::new();
    assert_eq!(empty_map.to_type_code(), "{say}".to_string());
    assert_eq!(Vec::<u32>::static_type_code(), "au".to_string());
}
