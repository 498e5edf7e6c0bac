//! Text on the wire: UTF-8 bytes to `String` and back.

use crate::error::DecodeError;
use vstd::prelude::*;
use vstd::slice::slice_to_vec;
use vstd::utf8::*;

verus! {

/// The error of `String::from_utf8`. Nothing is read from it.
#[verifier::external_type_specification]
#[verifier::external_body]
pub struct ExFromUtf8Error(std::string::FromUtf8Error);

/// `String::from_utf8` of std: it succeeds exactly on well-formed UTF-8, and
/// the string then holds the characters that the bytes encode.
pub assume_specification[ std::string::String::from_utf8 ](vec: std::vec::Vec<u8>) -> (res: Result<
    std::string::String,
    std::string::FromUtf8Error,
>)
    ensures
        res is Ok <==> valid_utf8(vec@),
        res matches Ok(s) ==> s@ == decode_utf8(vec@),
;

/// The bytes that `text` is written as.
pub open spec fn utf8(text: Seq<char>) -> Seq<u8> {
    encode_utf8(text)
}

/// Reads `bytes` as text. Bytes that are not UTF-8 are a decode error.
pub fn parse_string(bytes: &[u8]) -> (res: Result<String, DecodeError>)
    ensures
        res is Ok <==> valid_utf8(bytes@),
        res matches Ok(s) ==> s@ == decode_utf8(bytes@),
        res matches Err(e) ==> e == DecodeError::Utf8,
{
    match String::from_utf8(slice_to_vec(bytes)) {
        Ok(s) => Ok(s),
        Err(_) => Err(DecodeError::Utf8),
    }
}

} // verus!
