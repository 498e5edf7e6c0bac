//! The encoder: from a value to its exact bytes on the wire.

use crate::decimal::{decimal, format_i64, format_u64};
use crate::text::utf8;
use crate::value::{lemma_array_view, views, Resp, Value};
use vstd::prelude::*;

verus! {

/// The line terminator, CR LF.
pub open spec fn crlf() -> Seq<u8> {
    seq![13u8, 10u8]
}

/// The bytes of a value on the wire: the type prefix, the length or the
/// scalar in decimal, CR LF, and for a bulk the payload and CR LF again, for an
/// array its items one after the other. Lengths count bytes, not characters.
pub open spec fn wire(v: Resp) -> Seq<u8>
    decreases v, 0nat,
{
    match v {
        Resp::Null => seq![36u8, 45u8, 49u8, 13u8, 10u8],
        Resp::NullArray => seq![42u8, 45u8, 49u8, 13u8, 10u8],
        Resp::String(s) => seq![43u8] + utf8(s) + crlf(),
        Resp::Error(s) => seq![45u8] + utf8(s) + crlf(),
        Resp::Integer(i) => seq![58u8] + decimal(i as int) + crlf(),
        Resp::Bulk(s) => seq![36u8] + decimal(utf8(s).len() as int) + crlf() + utf8(s) + crlf(),
        Resp::BufBulk(b) => seq![36u8] + decimal(b.len() as int) + crlf() + b + crlf(),
        Resp::Array(items) => seq![42u8] + decimal(items.len() as int) + crlf() + wire_from(
            items,
            0,
        ),
    }
}

/// The bytes of the items of `items` from index `i` on, in order.
pub open spec fn wire_from(items: Seq<Resp>, i: nat) -> Seq<u8>
    decreases items, items.len() - i,
{
    if i >= items.len() {
        Seq::empty()
    } else {
        wire(items[i as int]) + wire_from(items, i + 1)
    }
}

/// The command that a sequence of text fields stands for: an array of bulk
/// strings.
pub open spec fn command(fields: Seq<&str>) -> Resp {
    Resp::Array(Seq::new(fields.len(), |i: int| Resp::Bulk(fields[i]@)))
}

/// Appends `bytes` to `buf`.
pub(crate) fn extend(buf: &mut Vec<u8>, bytes: &[u8])
    ensures
        final(buf)@ == old(buf)@ + bytes@,
{
    buf.extend_from_slice(bytes);
    assert(buf@ =~= old(buf)@ + bytes@);
}

/// Appends CR LF to `buf`.
fn end_line(buf: &mut Vec<u8>)
    ensures
        final(buf)@ == old(buf)@ + crlf(),
{
    buf.push(13);
    buf.push(10);
    assert(buf@ =~= old(buf)@ + crlf());
}

/// Encodes a value as its bytes on the wire.
pub fn encode(value: &Value) -> (res: Vec<u8>)
    ensures
        res@ == wire(value@),
{
    let mut res: Vec<u8> = Vec::new();
    buf_encode(value, &mut res);
    assert(res@ =~= wire(value@));
    res
}

/// Encodes a sequence of text fields as a command: an array of bulk strings.
pub fn encode_slice(slice: &[&str]) -> (res: Vec<u8>)
    ensures
        res@ == wire(command(slice@)),
{
    let mut array: Vec<Value> = Vec::new();
    let mut i: usize = 0;
    while i < slice.len()
        invariant
            i <= slice.len(),
            array.len() == i,
            forall|j: int| 0 <= j < i ==> array[j]@ == Resp::Bulk(slice[j]@),
        decreases slice.len() - i,
    {
        array.push(Value::Bulk(slice[i].to_owned()));
        i += 1;
    }
    let value = Value::Array(array);
    proof {
        lemma_array_view(value);
        assert(views(array@) =~= command(slice@)->Array_0);
    }
    let mut res: Vec<u8> = Vec::new();
    buf_encode(&value, &mut res);
    assert(res@ =~= wire(value@));
    res
}

/// Appends the bytes of `value` to `buf`.
pub fn buf_encode(value: &Value, buf: &mut Vec<u8>)
    ensures
        final(buf)@ == old(buf)@ + wire(value@),
    decreases value,
{
    match value {
        Value::Null => {
            buf.push(36);
            buf.push(45);
            buf.push(49);
            end_line(buf);
            assert(buf@ =~= old(buf)@ + wire(value@));
        },
        Value::NullArray => {
            buf.push(42);
            buf.push(45);
            buf.push(49);
            end_line(buf);
            assert(buf@ =~= old(buf)@ + wire(value@));
        },
        Value::String(val) => {
            buf.push(43);
            extend(buf, val.as_str().as_bytes());
            end_line(buf);
            assert(buf@ =~= old(buf)@ + wire(value@));
        },
        Value::Error(val) => {
            buf.push(45);
            extend(buf, val.as_str().as_bytes());
            end_line(buf);
            assert(buf@ =~= old(buf)@ + wire(value@));
        },
        Value::Integer(val) => {
            buf.push(58);
            let text = format_i64(*val);
            extend(buf, text.as_slice());
            end_line(buf);
            assert(buf@ =~= old(buf)@ + wire(value@));
        },
        Value::Bulk(val) => {
            let bytes = val.as_str().as_bytes();
            buf.push(36);
            let text = format_u64(bytes.len() as u64);
            extend(buf, text.as_slice());
            end_line(buf);
            extend(buf, bytes);
            end_line(buf);
            assert(buf@ =~= old(buf)@ + wire(value@));
        },
        Value::BufBulk(val) => {
            buf.push(36);
            let text = format_u64(val.len() as u64);
            extend(buf, text.as_slice());
            end_line(buf);
            extend(buf, val.as_slice());
            end_line(buf);
            assert(buf@ =~= old(buf)@ + wire(value@));
        },
        Value::Array(val) => {
            buf.push(42);
            let text = format_u64(val.len() as u64);
            extend(buf, text.as_slice());
            end_line(buf);
            let ghost items = views(val@);
            let ghost head = buf@;
            proof {
                lemma_array_view(*value);
                assert(head =~= old(buf)@ + (seq![42u8] + decimal(items.len() as int) + crlf()));
            }
            let mut i: usize = 0;
            while i < val.len()
                invariant
                    i <= val.len(),
                    items == views(val@),
                    *value == Value::Array(*val),
                    buf@ + wire_from(items, i as nat) == head + wire_from(items, 0),
                decreases val.len() - i,
            {
                assert(decreases_to!(*value => value->Array_0[i as int]));
                let ghost before = buf@;
                buf_encode(&val[i], buf);
                proof {
                    assert(items[i as int] == val[i as int]@);
                    assert(buf@ + wire_from(items, (i + 1) as nat) =~= before + wire_from(
                        items,
                        i as nat,
                    ));
                }
                i += 1;
            }
            assert(buf@ =~= old(buf)@ + wire(value@));
        },
    }
}

} // verus!
