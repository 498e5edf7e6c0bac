//! What holds of the encoder and the grammar together.

use crate::decimal::{
    decimal, has_sign, is_digit, lemma_decimal_one_line, lemma_number_of_decimal, number_of,
    unsigned_part,
};
use crate::encode::{crlf, wire, wire_from};
use crate::error::DecodeError;
use crate::frame::{header_of, payload_of, HeaderView, RESP_MAX_SIZE};
use crate::stream::{
    first_block, first_line, lemma_line_len_found, lemma_line_len_props, line_len, one_line,
    parse_items, parse_value, Parsed,
};
use crate::text::utf8;
use crate::value::Resp;
use vstd::prelude::*;
use vstd::utf8::*;

verus! {

/// Whether a session in the given bulk mode reads the value `v` back as it
/// was written. A simple string or an error must hold no LF. A bulk must be
/// of the variant that the mode produces, text without `raw` and bytes with
/// it, and count fewer bytes than the ceiling. An array must count fewer items
/// than the ceiling, each of them read back as it was written.
pub open spec fn reads_back(v: Resp, raw: bool) -> bool
    decreases v,
{
    match v {
        Resp::Null => true,
        Resp::NullArray => true,
        Resp::Integer(_) => true,
        Resp::String(s) => one_line(utf8(s)),
        Resp::Error(s) => one_line(utf8(s)),
        Resp::Bulk(s) => !raw && utf8(s).len() < RESP_MAX_SIZE,
        Resp::BufBulk(b) => raw && b.len() < RESP_MAX_SIZE,
        Resp::Array(items) => items.len() < RESP_MAX_SIZE && forall|i: int|
            0 <= i < items.len() ==> reads_back(#[trigger] items[i], raw),
    }
}

/// A header line at the head of a stream: the first line of the stream is
/// that line, with the same prefix and body, and the stream goes on behind
/// it.
pub proof fn lemma_header_line(prefix: u8, body: Seq<u8>, rest: Seq<u8>)
    requires
        prefix != 10,
        one_line(body),
    ensures
        ({
            let line = seq![prefix] + body + crlf();
            let s = line + rest;
            &&& line_len(s) == body.len() + 3
            &&& first_line(s) == line
            &&& s.skip(line_len(s) as int) == rest
            &&& line[0] == prefix
            &&& line.subrange(1, line.len() - 2) == body
            &&& line[line.len() - 2] == 13
            &&& line[line.len() - 1] == 10
        }),
{
    let line = seq![prefix] + body + crlf();
    let s = line + rest;
    let k = body.len() as int + 2;
    assert forall|j: int| 0 <= j < k implies s[j] != 10 by {
        if 1 <= j <= body.len() {
            assert(s[j] == body[j - 1]);
        }
    }
    lemma_line_len_found(s, k);
    assert(first_line(s) =~= line);
    assert(s.skip(line_len(s) as int) =~= rest);
    assert(line.subrange(1, line.len() - 2) =~= body);
}

/// A header that declares a length below -1, or at or above the ceiling, is
/// an invalid length whatever follows it, and nothing behind the header is
/// read. `prefix` is `$` or `*`, `digits` the text of the length `n`.
pub proof fn lemma_length_ceiling(prefix: u8, digits: Seq<u8>, n: int, rest: Seq<u8>, raw: bool)
    requires
        prefix == 36 || prefix == 42,
        number_of(digits) == Some(n),
        n < -1 || n >= RESP_MAX_SIZE,
    ensures
        parse_value(seq![prefix] + digits + crlf() + rest, raw) == (Parsed {
            result: Err::<Resp, DecodeError>(DecodeError::InvalidLength(n as i64)),
            consumed: digits.len() + 3,
        }),
{
    lemma_number_one_line(digits);
    lemma_header_line(prefix, digits, rest);
}

/// The text of a number holds no LF.
pub proof fn lemma_number_one_line(digits: Seq<u8>)
    requires
        number_of(digits) is Some,
    ensures
        one_line(digits),
{
    let body = unsigned_part(digits);
    assert forall|i: int| 0 <= i < digits.len() implies digits[i] != 10 by {
        if has_sign(digits) {
            if i > 0 {
                assert(is_digit(body[i - 1]));
            }
        } else {
            assert(is_digit(body[i]));
        }
    }
}

/// The text `-1`.
proof fn lemma_minus_one()
    ensures
        decimal(-1) == seq![45u8, 49u8],
        number_of(seq![45u8, 49u8]) == Some(-1int),
{
    assert(decimal(-1) =~= seq![45u8, 49u8]);
    lemma_number_of_decimal(-1);
}

/// `$-1` CR LF is the null bulk and `*-1` CR LF the null array, whatever
/// follows: the five bytes of the header are read and nothing behind them.
pub proof fn lemma_null_sentinels(rest: Seq<u8>, raw: bool)
    ensures
        parse_value(seq![36u8, 45u8, 49u8, 13u8, 10u8] + rest, raw) == (Parsed {
            result: Ok::<Resp, DecodeError>(Resp::Null),
            consumed: 5,
        }),
        parse_value(seq![42u8, 45u8, 49u8, 13u8, 10u8] + rest, raw) == (Parsed {
            result: Ok::<Resp, DecodeError>(Resp::NullArray),
            consumed: 5,
        }),
{
    lemma_minus_one();
    let digits = seq![45u8, 49u8];
    lemma_number_one_line(digits);
    lemma_header_line(36, digits, rest);
    lemma_header_line(42, digits, rest);
    assert(seq![36u8, 45u8, 49u8, 13u8, 10u8] =~= seq![36u8] + digits + crlf());
    assert(seq![42u8, 45u8, 49u8, 13u8, 10u8] =~= seq![42u8] + digits + crlf());
}

/// The two bulk modes differ in the variant only. Where a raw session reads
/// a bulk of the bytes `b` off a stream, a text session takes the same
/// number of bytes off it, and reads the text of `b`, or fails if `b` is not
/// UTF-8.
pub proof fn lemma_bulk_modes(s: Seq<u8>, b: Seq<u8>)
    requires
        parse_value(s, true).result == Ok::<Resp, DecodeError>(Resp::BufBulk(b)),
    ensures
        parse_value(s, false).consumed == parse_value(s, true).consumed,
        parse_value(s, false).result == if valid_utf8(b) {
            Ok::<Resp, DecodeError>(Resp::Bulk(decode_utf8(b)))
        } else {
            Err::<Resp, DecodeError>(DecodeError::Utf8)
        },
{
}

/// A simple string or an error whose text holds LF is not read back: the
/// line ends at the first LF, so that what is read is an error or a shorter
/// text.
#[verifier::rlimit(50)]
pub proof fn lemma_line_break_lost(v: Resp, raw: bool, rest: Seq<u8>)
    requires
        v is String || v is Error,
        !reads_back(v, raw),
    ensures
        parse_value(wire(v) + rest, raw).result != Ok::<Resp, DecodeError>(v),
{
    broadcast use decode_utf8_encode_utf8;

    let text = match v {
        Resp::String(t) => t,
        Resp::Error(t) => t,
        _ => Seq::empty(),
    };
    let body = utf8(text);
    let s = wire(v) + rest;
    let i = choose|i: int| 0 <= i < body.len() && body[i] == 10;
    let k = line_len(s) as int;
    lemma_line_len_props(s);
    assert(s[i + 1] == body[i]);
    assert(k - 1 <= i + 1);
    let line = first_line(s);
    if header_of(line) is Ok {
        let inner = line.subrange(1, k - 2);
        assert(valid_utf8(inner));
        assert(encode_utf8(decode_utf8(inner)) == inner);
        assert(inner.len() < body.len());
    }
}

/// Decoding what was encoded gives the value back, and takes exactly its
/// bytes off the stream, whatever follows them.
#[verifier::rlimit(50)]
pub proof fn lemma_round_trip(v: Resp, raw: bool, rest: Seq<u8>)
    requires
        reads_back(v, raw),
    ensures
        parse_value(wire(v) + rest, raw) == (Parsed {
            result: Ok::<Resp, DecodeError>(v),
            consumed: wire(v).len(),
        }),
    decreases v, 0nat,
{
    broadcast use {encode_utf8_valid_utf8, encode_utf8_decode_utf8};

    let s = wire(v) + rest;
    match v {
        Resp::Null => {
            lemma_null_sentinels(rest, raw);
        },
        Resp::NullArray => {
            lemma_null_sentinels(rest, raw);
        },
        Resp::String(t) => {
            lemma_header_line(43, utf8(t), rest);
        },
        Resp::Error(t) => {
            lemma_header_line(45, utf8(t), rest);
        },
        Resp::Integer(i) => {
            lemma_decimal_one_line(i as int);
            lemma_number_of_decimal(i as int);
            lemma_header_line(58, decimal(i as int), rest);
        },
        Resp::Bulk(t) => {
            lemma_bulk_round_trip(utf8(t), raw, rest);
            lemma_block(utf8(t), raw);
        },
        Resp::BufBulk(b) => {
            lemma_bulk_round_trip(b, raw, rest);
            lemma_block(b, raw);
        },
        Resp::Array(items) => {
            let n = items.len();
            let digits = decimal(n as int);
            let line = seq![42u8] + digits + crlf();
            let after = wire_from(items, 0) + rest;
            lemma_decimal_one_line(n as int);
            lemma_length_header(42, n);
            lemma_header_line(42, digits, after);
            assert(s =~= line + after);
            lemma_items_round_trip(items, 0, raw, rest);
            assert(items.skip(0) =~= items);
        },
    }
}

/// The header of a bulk or of an array of a length below the ceiling
/// declares that length.
proof fn lemma_length_header(prefix: u8, n: nat)
    requires
        prefix == 36 || prefix == 42,
        n < RESP_MAX_SIZE,
    ensures
        header_of(seq![prefix] + decimal(n as int) + crlf()) == Ok::<HeaderView, DecodeError>(
            if prefix == 36 {
                HeaderView::Bulk(n)
            } else {
                HeaderView::Array(n)
            },
        ),
{
    lemma_decimal_one_line(n as int);
    lemma_number_of_decimal(n as int);
    lemma_header_line(prefix, decimal(n as int), Seq::empty());
}

/// A payload and CR LF behind it are the block of that payload.
proof fn lemma_block(payload: Seq<u8>, raw: bool)
    ensures
        payload_of(payload + crlf(), payload.len(), raw) == if raw {
            Ok::<Resp, DecodeError>(Resp::BufBulk(payload))
        } else if valid_utf8(payload) {
            Ok::<Resp, DecodeError>(Resp::Bulk(decode_utf8(payload)))
        } else {
            Err::<Resp, DecodeError>(DecodeError::Utf8)
        },
{
    let n = payload.len() as int;
    let block = payload + crlf();
    assert(block.len() == n + 2);
    assert(block[n] == 13);
    assert(block[n + 1] == 10);
    assert(block.take(n) =~= payload);
}

/// The bytes of a bulk payload behind their header are read back as the
/// payload.
#[verifier::rlimit(50)]
proof fn lemma_bulk_round_trip(payload: Seq<u8>, raw: bool, rest: Seq<u8>)
    requires
        payload.len() < RESP_MAX_SIZE,
    ensures
        ({
            let bytes = seq![36u8] + decimal(payload.len() as int) + crlf() + payload + crlf();
            &&& parse_value(bytes + rest, raw).consumed == bytes.len()
            &&& parse_value(bytes + rest, raw).result == payload_of(
                payload + crlf(),
                payload.len(),
                raw,
            )
        }),
{
    let n = payload.len();
    let digits = decimal(n as int);
    let line = seq![36u8] + digits + crlf();
    let bytes = line + payload + crlf();
    let block = payload + crlf();
    let after = block + rest;
    let s = bytes + rest;
    lemma_decimal_one_line(n as int);
    lemma_length_header(36, n);
    lemma_header_line(36, digits, after);
    assert(s =~= line + after);
    assert(first_block(after, n + 2) =~= block);
    assert(bytes.len() == line.len() + block.len());
}

/// Decoding what was encoded of the items of an array from index `i` on gives
/// those items back.
#[verifier::rlimit(50)]
proof fn lemma_items_round_trip(items: Seq<Resp>, i: nat, raw: bool, rest: Seq<u8>)
    requires
        i <= items.len(),
        forall|j: int| 0 <= j < items.len() ==> reads_back(#[trigger] items[j], raw),
    ensures
        parse_items(wire_from(items, i) + rest, (items.len() - i) as nat, raw) == (Parsed {
            result: Ok::<Seq<Resp>, DecodeError>(items.skip(i as int)),
            consumed: wire_from(items, i).len(),
        }),
    decreases items, items.len() - i,
{
    if i < items.len() {
        let head = wire(items[i as int]);
        let tail = wire_from(items, i + 1);
        let s = wire_from(items, i) + rest;
        lemma_round_trip(items[i as int], raw, tail + rest);
        assert(s =~= head + (tail + rest));
        lemma_items_round_trip(items, i + 1, raw, rest);
        assert(s.skip(head.len() as int) =~= tail + rest);
        assert(seq![items[i as int]] + items.skip(i as int + 1) =~= items.skip(i as int));
        lemma_wire_not_empty(items[i as int]);
    } else {
        assert(items.skip(i as int) =~= Seq::<Resp>::empty());
    }
}

/// A value takes at least three bytes on the wire.
pub proof fn lemma_wire_not_empty(v: Resp)
    ensures
        wire(v).len() >= 3,
{
}

} // verus!
