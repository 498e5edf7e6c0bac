//! Frames: what a header line announces, and what a bulk payload holds.

use crate::decimal::{number_of, parse_integer};
use crate::error::DecodeError;
use crate::text::parse_string;
use crate::value::{Resp, Value};
use vstd::prelude::*;
use vstd::slice::slice_subrange;
use vstd::utf8::*;

verus! {

/// The ceiling on a declared bulk or array length: 512 MiB. A length at or
/// above it is refused before anything is allocated.
pub const RESP_MAX_SIZE: i64 = 536870912;

/// What a header line announces.
#[derive(Debug)]
pub enum Header {
    /// The line is a whole value: a simple string, an error, an integer or one
    /// of the two nulls.
    Value(Value),
    /// A bulk payload of this many bytes follows, and CR LF after it.
    Bulk(usize),
    /// This many values follow as the items of an array.
    Array(usize),
}

/// The model of a [`Header`].
pub enum HeaderView {
    Value(Resp),
    Bulk(nat),
    Array(nat),
}

impl View for Header {
    type V = HeaderView;

    open spec fn view(&self) -> HeaderView {
        match self {
            Header::Value(v) => HeaderView::Value(v@),
            Header::Bulk(n) => HeaderView::Bulk(*n as nat),
            Header::Array(n) => HeaderView::Array(*n as nat),
        }
    }
}

/// Whether `a` and `b` are CR and LF.
pub open spec fn crlf_pair(a: u8, b: u8) -> bool {
    a == 13 && b == 10
}

/// The length that the digits of a `$` or `*` header declare: -1 for the
/// null sentinel, else a count below the ceiling. Digits that are no number
/// are a format error; a number below -1 or at or above the ceiling is an invalid
/// length.
pub open spec fn length_of(digits: Seq<u8>) -> Result<int, DecodeError> {
    match number_of(digits) {
        None => Err(DecodeError::Format),
        Some(n) => if n < -1 || n >= RESP_MAX_SIZE {
            Err(DecodeError::InvalidLength(n as i64))
        } else {
            Ok(n)
        },
    }
}

/// The text of a `+` or `-` line.
pub open spec fn line_text(body: Seq<u8>) -> Result<Seq<char>, DecodeError> {
    if valid_utf8(body) {
        Ok(decode_utf8(body))
    } else {
        Err(DecodeError::Utf8)
    }
}

/// What the header line `line` announces. `line` is what was read up to and
/// including the next LF, or up to the end of the stream. The checks come in
/// this order: an empty line is the end of the stream; fewer than three bytes
/// are a short frame; the last two bytes must be CR LF; then the first byte
/// decides how the bytes between are read.
pub open spec fn header_of(line: Seq<u8>) -> Result<HeaderView, DecodeError> {
    let len = line.len() as int;
    if len == 0 {
        Err(DecodeError::EndOfStream)
    } else if len < 3 {
        Err(DecodeError::ShortFrame(len as usize))
    } else if !crlf_pair(line[len - 2], line[len - 1]) {
        Err(DecodeError::BadTerminator(line[len - 2], line[len - 1]))
    } else {
        let body = line.subrange(1, len - 2);
        let prefix = line[0];
        if prefix == 43 {
            match line_text(body) {
                Ok(s) => Ok(HeaderView::Value(Resp::String(s))),
                Err(e) => Err(e),
            }
        } else if prefix == 45 {
            match line_text(body) {
                Ok(s) => Ok(HeaderView::Value(Resp::Error(s))),
                Err(e) => Err(e),
            }
        } else if prefix == 58 {
            match number_of(body) {
                Some(n) => Ok(HeaderView::Value(Resp::Integer(n as i64))),
                None => Err(DecodeError::Format),
            }
        } else if prefix == 36 {
            match length_of(body) {
                Ok(n) => if n == -1 {
                    Ok(HeaderView::Value(Resp::Null))
                } else {
                    Ok(HeaderView::Bulk(n as nat))
                },
                Err(e) => Err(e),
            }
        } else if prefix == 42 {
            match length_of(body) {
                Ok(n) => if n == -1 {
                    Ok(HeaderView::Value(Resp::NullArray))
                } else {
                    Ok(HeaderView::Array(n as nat))
                },
                Err(e) => Err(e),
            }
        } else {
            Err(DecodeError::UnknownType(prefix))
        }
    }
}

/// The value of a bulk whose header declared `n` bytes, from the `block`
/// that was read for it. A block of another length than `n + 2` means that the
/// stream ended early; its last two bytes must be CR LF; the `n` bytes before
/// them are the payload, kept as bytes in raw mode and read as UTF-8 text
/// otherwise.
pub open spec fn payload_of(block: Seq<u8>, n: nat, raw: bool) -> Result<Resp, DecodeError> {
    if block.len() != n + 2 {
        Err(DecodeError::Truncated)
    } else if !crlf_pair(block[n as int], block[n as int + 1]) {
        Err(DecodeError::BadTerminator(block[n as int], block[n as int + 1]))
    } else {
        let payload = block.take(n as int);
        if raw {
            Ok(Resp::BufBulk(payload))
        } else if valid_utf8(payload) {
            Ok(Resp::Bulk(decode_utf8(payload)))
        } else {
            Err(DecodeError::Utf8)
        }
    }
}

/// Whether `a` and `b` are CR and LF.
pub fn is_crlf(a: u8, b: u8) -> (res: bool)
    ensures
        res == crlf_pair(a, b),
{
    a == 13 && b == 10
}

/// Reads the length that a `$` or `*` header declares.
pub fn parse_length(digits: &[u8]) -> (res: Result<i64, DecodeError>)
    ensures
        match length_of(digits@) {
            Ok(n) => res == Ok::<i64, DecodeError>(n as i64),
            Err(e) => res == Err::<i64, DecodeError>(e),
        },
{
    let n = parse_integer(digits)?;
    if n < -1 || n >= RESP_MAX_SIZE {
        return Err(DecodeError::InvalidLength(n));
    }
    Ok(n)
}

/// Decides what a header line announces.
pub fn parse_header(line: &[u8]) -> (res: Result<Header, DecodeError>)
    ensures
        res matches Ok(h) ==> header_of(line@) == Ok::<HeaderView, DecodeError>(h@),
        res matches Err(e) ==> header_of(line@) == Err::<HeaderView, DecodeError>(e),
{
    let len = line.len();
    if len == 0 {
        return Err(DecodeError::EndOfStream);
    }
    if len < 3 {
        return Err(DecodeError::ShortFrame(len));
    }
    if !is_crlf(line[len - 2], line[len - 1]) {
        return Err(DecodeError::BadTerminator(line[len - 2], line[len - 1]));
    }
    let bytes = slice_subrange(line, 1, len - 2);
    let prefix = line[0];
    if prefix == 43 {
        match parse_string(bytes) {
            Ok(s) => Ok(Header::Value(Value::String(s))),
            Err(e) => Err(e),
        }
    } else if prefix == 45 {
        match parse_string(bytes) {
            Ok(s) => Ok(Header::Value(Value::Error(s))),
            Err(e) => Err(e),
        }
    } else if prefix == 58 {
        match parse_integer(bytes) {
            Ok(i) => Ok(Header::Value(Value::Integer(i))),
            Err(e) => Err(e),
        }
    } else if prefix == 36 {
        match parse_length(bytes) {
            Ok(n) => if n == -1 {
                Ok(Header::Value(Value::Null))
            } else {
                Ok(Header::Bulk(n as usize))
            },
            Err(e) => Err(e),
        }
    } else if prefix == 42 {
        match parse_length(bytes) {
            Ok(n) => if n == -1 {
                Ok(Header::Value(Value::NullArray))
            } else {
                Ok(Header::Array(n as usize))
            },
            Err(e) => Err(e),
        }
    } else {
        Err(DecodeError::UnknownType(prefix))
    }
}

/// Makes the value of a bulk of `n` bytes from the block that was read for
/// it.
pub fn parse_payload(block: Vec<u8>, n: usize, raw: bool) -> (res: Result<Value, DecodeError>)
    ensures
        res matches Ok(v) ==> payload_of(block@, n as nat, raw) == Ok::<Resp, DecodeError>(v@),
        res matches Err(e) ==> payload_of(block@, n as nat, raw) == Err::<Resp, DecodeError>(e),
{
    let len = block.len();
    if n > usize::MAX - 2 || len != n + 2 {
        return Err(DecodeError::Truncated);
    }
    if !is_crlf(block[n], block[n + 1]) {
        return Err(DecodeError::BadTerminator(block[n], block[n + 1]));
    }
    let mut buf = block;
    buf.truncate(n);
    if raw {
        return Ok(Value::BufBulk(buf));
    }
    match String::from_utf8(buf) {
        Ok(s) => Ok(Value::Bulk(s)),
        Err(_) => Err(DecodeError::Utf8),
    }
}

} // verus!
