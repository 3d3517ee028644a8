//! Typed access to the fields of a dictionary.

use crate::codec::model::{encode_value, lookup, ValueView};
use crate::codec::{Dict, ParseError, Value};
use vstd::prelude::*;
use vstd::string::StringSliceAdditionalSpecFns;
use vstd::utf8::{decode_utf8, valid_utf8};

verus! {

/// The value under `key`, or `FieldMissing`.
pub open spec fn field_of(entries: Seq<(Seq<u8>, ValueView)>, key: Seq<u8>) -> Result<
    ValueView,
    ParseError,
> {
    match lookup(entries, key) {
        Some(v) => Ok(v),
        None => Err(ParseError::FieldMissing),
    }
}

/// The integer under `key`; `FieldMissing` without the key, `TypeMismatch`
/// where the value is no integer.
pub open spec fn integer_field(entries: Seq<(Seq<u8>, ValueView)>, key: Seq<u8>) -> Result<
    i64,
    ParseError,
> {
    match field_of(entries, key) {
        Ok(ValueView::Integer(n)) => Ok(n),
        Ok(_) => Err(ParseError::TypeMismatch),
        Err(e) => Err(e),
    }
}

/// The byte string under `key`; `FieldMissing` without the key,
/// `TypeMismatch` where the value is no byte string.
pub open spec fn bytes_field(entries: Seq<(Seq<u8>, ValueView)>, key: Seq<u8>) -> Result<
    Seq<u8>,
    ParseError,
> {
    match field_of(entries, key) {
        Ok(ValueView::ByteString(b)) => Ok(b),
        Ok(_) => Err(ParseError::TypeMismatch),
        Err(e) => Err(e),
    }
}

/// The text under `key`; `FieldMissing` without the key, `TypeMismatch`
/// where the value is no byte string or holds no UTF-8.
pub open spec fn text_field(entries: Seq<(Seq<u8>, ValueView)>, key: Seq<u8>) -> Result<
    Seq<char>,
    ParseError,
> {
    match bytes_field(entries, key) {
        Ok(b) => if valid_utf8(b) {
            Ok(decode_utf8(b))
        } else {
            Err(ParseError::TypeMismatch)
        },
        Err(e) => Err(e),
    }
}

/// The entries of the dictionary under `key`; `FieldMissing` without the
/// key, `TypeMismatch` where the value is no dictionary.
pub open spec fn dict_field(entries: Seq<(Seq<u8>, ValueView)>, key: Seq<u8>) -> Result<
    Seq<(Seq<u8>, ValueView)>,
    ParseError,
> {
    match field_of(entries, key) {
        Ok(ValueView::Dict(inner)) => Ok(inner),
        Ok(_) => Err(ParseError::TypeMismatch),
        Err(e) => Err(e),
    }
}

/// The value that `dict` holds under the bytes `key`.
pub fn get_field_by_key<'a>(dict: &'a Dict, key: &[u8]) -> (r: Result<&'a Value, ParseError>)
    ensures
        match field_of(dict@, key@) {
            Ok(v) => r is Ok && r->Ok_0@ == v,
            Err(e) => r == Err::<&Value, ParseError>(e),
        },
{
    match dict.get(key) {
        Some(v) => Ok(v),
        None => Err(ParseError::FieldMissing),
    }
}

/// The value that `dict` holds under the name `field`.
pub fn get_field<'a>(dict: &'a Dict, field: &str) -> (r: Result<&'a Value, ParseError>)
    ensures
        match field_of(dict@, field.spec_bytes()) {
            Ok(v) => r is Ok && r->Ok_0@ == v,
            Err(e) => r == Err::<&Value, ParseError>(e),
        },
{
    get_field_by_key(dict, field.as_bytes())
}

/// The integer that `dict` holds under the name `field`.
pub fn get_number_from_bencode(dict: &Dict, field: &str) -> (r: Result<i64, ParseError>)
    ensures
        r == integer_field(dict@, field.spec_bytes()),
{
    match get_field(dict, field) {
        Ok(v) => v.as_integer(),
        Err(e) => Err(e),
    }
}

/// The text that `dict` holds under the name `field`.
pub fn get_string_from_bencode(dict: &Dict, field: &str) -> (r: Result<String, ParseError>)
    ensures
        match text_field(dict@, field.spec_bytes()) {
            Ok(t) => r is Ok && r->Ok_0@ == t,
            Err(e) => r == Err::<String, ParseError>(e),
        },
{
    match get_field(dict, field) {
        Ok(v) => v.as_text(),
        Err(e) => Err(e),
    }
}

/// The canonical encoding of the value that `dict` holds under the name
/// `field`.
pub fn get_field_as_bencoded_bytes(dict: &Dict, field: &str) -> (r: Result<Vec<u8>, ParseError>)
    ensures
        match field_of(dict@, field.spec_bytes()) {
            Ok(v) => r is Ok && r->Ok_0@ == encode_value(v),
            Err(e) => r == Err::<Vec<u8>, ParseError>(e),
        },
{
    match get_field(dict, field) {
        Ok(v) => Ok(v.encode()),
        Err(e) => Err(e),
    }
}

} // verus!
