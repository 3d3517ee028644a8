use plenty_of_fluids::codec::{Dict, ParseError, Value};
use plenty_of_fluids::decoder::{
    get_field, get_field_as_bencoded_bytes, get_number_from_bencode, get_string_from_bencode,
};

#[test]
fn get_correct_number_from_bencode_dict() {
    let num = 13i64;
    let mut dict = Dict::new();
    dict.insert(b"test".to_vec(), Value::Integer(num));

    assert_eq!(get_number_from_bencode(&dict, "test"), Ok(num))
}

#[test]
fn get_correct_string_from_bencode_dict() {
    let string = "test string";
    let string_bytes = string.as_bytes().to_vec();
    let mut dict = Dict::new();
    dict.insert(b"test".to_vec(), Value::ByteString(string_bytes));

    assert_eq!(get_string_from_bencode(&dict, "test"), Ok("test string".to_string()))
}

#[test]
fn get_correct_field() {
    let mut dict = Dict::new();
    dict.insert(b"test".to_vec(), Value::Integer(13i64));

    let field = get_field(&dict, "test").unwrap();
    assert_eq!(field.as_integer(), Ok(13));
    assert!(matches!(field, Value::Integer(13)));
}

#[test]
fn get_correct_field_as_bencoded_bytes() {
    let mut dict = Dict::new();
    let bytes = Value::ByteString(vec![0u8; 20]);
    dict.insert(b"test".to_vec(), bytes);

    assert_eq!(get_field_as_bencoded_bytes(&dict, "test").is_ok(), true)
}

#[test]
fn field_as_bencoded_bytes_is_the_encoding() {
    let mut dict = Dict::new();
    dict.insert(b"test".to_vec(), Value::ByteString(vec![0u8; 20]));
    let mut expected = b"20:".to_vec();
    expected.extend_from_slice(&[0u8; 20]);
    assert_eq!(get_field_as_bencoded_bytes(&dict, "test"), Ok(expected));
}

#[test]
fn missing_field_is_reported() {
    let dict = Dict::new();
    assert_eq!(get_field(&dict, "test").err(), Some(ParseError::FieldMissing));
    assert_eq!(get_number_from_bencode(&dict, "test"), Err(ParseError::FieldMissing));
    assert_eq!(get_string_from_bencode(&dict, "test"), Err(ParseError::FieldMissing));
    assert_eq!(get_field_as_bencoded_bytes(&dict, "test"), Err(ParseError::FieldMissing));
    assert_eq!(ParseError::FieldMissing.message(), "Could not find field");
}

#[test]
fn mistyped_field_is_reported() {
    let mut dict = Dict::new();
    dict.insert(b"n".to_vec(), Value::Integer(1));
    dict.insert(b"s".to_vec(), Value::ByteString(b"x".to_vec()));
    assert_eq!(get_number_from_bencode(&dict, "s"), Err(ParseError::TypeMismatch));
    assert_eq!(get_string_from_bencode(&dict, "n"), Err(ParseError::TypeMismatch));
}

#[test]
fn text_that_is_not_utf8_is_a_type_mismatch() {
    let mut dict = Dict::new();
    dict.insert(b"s".to_vec(), Value::ByteString(vec![0xff, 0xfe]));
    assert_eq!(get_string_from_bencode(&dict, "s"), Err(ParseError::TypeMismatch));
}

#[test]
fn text_keeps_characters_beyond_ascii() {
    let mut dict = Dict::new();
    dict.insert(b"s".to_vec(), Value::ByteString("été".as_bytes().to_vec()));
    assert_eq!(get_string_from_bencode(&dict, "s"), Ok("été".to_string()));
}
