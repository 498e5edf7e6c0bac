//! What a byte stream holds: the grammar of the protocol as a function from
//! the bytes of a stream to the value at its head.

use crate::error::DecodeError;
use crate::frame::{header_of, payload_of, HeaderView};
use crate::value::Resp;
use vstd::prelude::*;

verus! {

/// The outcome of reading one thing off the head of a stream: what was read,
/// or why not, and how many bytes were taken from the stream either way.
pub struct Parsed<T> {
    pub result: Result<T, DecodeError>,
    pub consumed: nat,
}

impl<T> Parsed<T> {
    /// The same outcome, reached after `n` more bytes.
    pub open spec fn after(self, n: nat) -> Parsed<T> {
        Parsed { result: self.result, consumed: n + self.consumed }
    }
}

/// The length of the first line of `s`: up to and including the first LF, or
/// the whole of `s` if it holds none.
pub open spec fn line_len(s: Seq<u8>) -> nat
    decreases s.len(),
{
    if s.len() == 0 {
        0
    } else if s[0] == 10 {
        1
    } else {
        1 + line_len(s.drop_first())
    }
}

/// Whether `bytes` holds no LF, so that it can stand inside one line.
pub open spec fn one_line(bytes: Seq<u8>) -> bool {
    forall|i: int| 0 <= i < bytes.len() ==> bytes[i] != 10
}

/// The first line of `s`.
pub open spec fn first_line(s: Seq<u8>) -> Seq<u8> {
    s.take(line_len(s) as int)
}

/// The block of `k` bytes at the head of `s`, or all of `s` if it is shorter.
pub open spec fn first_block(s: Seq<u8>, k: nat) -> Seq<u8> {
    if k <= s.len() {
        s.take(k as int)
    } else {
        s
    }
}

/// The first line lies within the stream, and is empty only if the stream is.
pub proof fn lemma_line_len_bound(s: Seq<u8>)
    ensures
        line_len(s) <= s.len(),
        s.len() > 0 ==> line_len(s) > 0,
    decreases s.len(),
{
    if s.len() > 0 && s[0] != 10 {
        lemma_line_len_bound(s.drop_first());
    }
}

/// The first line ends at the first LF, or with the stream.
pub proof fn lemma_line_len_found(s: Seq<u8>, k: int)
    requires
        0 <= k <= s.len(),
        forall|j: int| 0 <= j < k ==> s[j] != 10,
        k < s.len() ==> s[k] == 10,
    ensures
        line_len(s) == if k < s.len() {
            k + 1
        } else {
            k
        },
    decreases k,
{
    if k > 0 {
        let t = s.drop_first();
        assert forall|j: int| 0 <= j < k - 1 implies t[j] != 10 by {
            assert(t[j] == s[j + 1]);
        }
        lemma_line_len_found(t, k - 1);
    }
}

/// No LF stands in the first line before its last byte, and where the
/// stream goes on behind the first line, that byte is LF.
pub proof fn lemma_line_len_props(s: Seq<u8>)
    ensures
        line_len(s) <= s.len(),
        forall|j: int| 0 <= j < line_len(s) - 1 ==> s[j] != 10,
        line_len(s) < s.len() ==> line_len(s) > 0 && s[line_len(s) - 1] == 10,
    decreases s.len(),
{
    if s.len() > 0 && s[0] != 10 {
        let t = s.drop_first();
        lemma_line_len_props(t);
        assert forall|j: int| 0 <= j < line_len(s) - 1 implies s[j] != 10 by {
            if j > 0 {
                assert(s[j] == t[j - 1]);
            }
        }
        if line_len(s) < s.len() {
            assert(s[line_len(s) - 1] == t[line_len(t) - 1]);
        }
    }
}

/// The value at the head of the stream `s`. Its header is the first line. A
/// bulk takes the block of its declared length and CR LF behind the header,
/// or what is left of the stream; an array takes its items one after the
/// other behind the header.
pub open spec fn parse_value(s: Seq<u8>, raw: bool) -> Parsed<Resp>
    decreases s.len(), 0nat,
{
    let k = line_len(s);
    let rest = s.skip(k as int);
    match header_of(first_line(s)) {
        Err(e) => Parsed { result: Err(e), consumed: k },
        Ok(HeaderView::Value(v)) => Parsed { result: Ok(v), consumed: k },
        Ok(HeaderView::Bulk(n)) => {
            let block = first_block(rest, n + 2);
            Parsed { result: payload_of(block, n, raw), consumed: k + block.len() }
        },
        Ok(HeaderView::Array(n)) => {
            proof {
                lemma_line_len_bound(s);
            }
            let items = parse_items(rest, n, raw);
            Parsed {
                result: match items.result {
                    Ok(vs) => Ok(Resp::Array(vs)),
                    Err(e) => Err(e),
                },
                consumed: k + items.consumed,
            }
        },
    }
}

/// The `n` values at the head of the stream `s`, in order. The first failure
/// ends the reading. A value takes at least one byte
/// ([`lemma_value_takes_bytes`]): the test for it only shows that the
/// reading ends.
pub open spec fn parse_items(s: Seq<u8>, n: nat, raw: bool) -> Parsed<Seq<Resp>>
    decreases s.len(), 1 + n,
{
    if n == 0 {
        Parsed { result: Ok(Seq::empty()), consumed: 0 }
    } else {
        let first = parse_value(s, raw);
        match first.result {
            Err(e) => Parsed { result: Err(e), consumed: first.consumed },
            Ok(v) => if 0 < first.consumed <= s.len() {
                let others = parse_items(s.skip(first.consumed as int), (n - 1) as nat, raw);
                Parsed {
                    result: match others.result {
                        Ok(vs) => Ok(seq![v] + vs),
                        Err(e) => Err(e),
                    },
                    consumed: first.consumed + others.consumed,
                }
            } else {
                Parsed { result: Ok(seq![v]), consumed: first.consumed }
            },
        }
    }
}

/// Reading a value takes bytes of the stream only, and a value that was read
/// took at least three: a type prefix and CR LF.
pub proof fn lemma_value_takes_bytes(s: Seq<u8>, raw: bool)
    ensures
        parse_value(s, raw).consumed <= s.len(),
        parse_value(s, raw).result is Ok ==> parse_value(s, raw).consumed >= 3,
    decreases s.len(), 0nat,
{
    lemma_line_len_bound(s);
    let k = line_len(s);
    let rest = s.skip(k as int);
    match header_of(first_line(s)) {
        Ok(HeaderView::Array(n)) => {
            lemma_items_take_bytes(rest, n, raw);
        },
        _ => {},
    }
}

/// Reading items takes bytes of the stream only, and items that were read
/// are as many as were asked for.
pub proof fn lemma_items_take_bytes(s: Seq<u8>, n: nat, raw: bool)
    ensures
        parse_items(s, n, raw).consumed <= s.len(),
        parse_items(s, n, raw).result matches Ok(vs) ==> vs.len() == n,
    decreases s.len(), 1 + n,
{
    if n > 0 {
        lemma_value_takes_bytes(s, raw);
        let first = parse_value(s, raw);
        if first.result is Ok {
            lemma_items_take_bytes(s.skip(first.consumed as int), (n - 1) as nat, raw);
        }
    }
}

} // verus!
