//! The wire form of a value.

use crate::decimal::{digits, push_decimal, push_signed, signed_digits};
use crate::value::{views, RespValue, Value};
use vstd::prelude::*;
use vstd::utf8::encode_utf8;

verus! {

/// Carriage return and line feed, which end every header and every text.
pub open spec fn crlf() -> Seq<u8> {
    seq![13u8, 10u8]
}

/// The wire form of an absent bulk string, `$-1` and a line end.
pub open spec fn null_bulk() -> Seq<u8> {
    seq![36u8, 45u8, 49u8, 13u8, 10u8]
}

/// The wire form of a value.
///
/// | value | bytes |
/// |---|---|
/// | `SimpleString(s)` | `+`, the text, line end |
/// | `Error(s)` | `-`, the text, line end |
/// | `Integer(i)` | `:`, `i` in decimal, line end |
/// | `BulkString(Some(s))` | `$`, the byte length of the text, line end, the text, line end |
/// | `BulkString(None)`, `Null` | `$-1`, line end |
/// | `Array(items)` | `*`, the number of items, line end, then each item's wire form |
///
/// Text is written in UTF-8, and a length counts its bytes.
pub open spec fn encode(v: Value) -> Seq<u8>
    decreases v,
{
    match v {
        Value::SimpleString(s) => seq![43u8] + encode_utf8(s) + crlf(),
        Value::Error(s) => seq![45u8] + encode_utf8(s) + crlf(),
        Value::Integer(i) => seq![58u8] + signed_digits(i as int) + crlf(),
        Value::BulkString(Some(s)) => seq![36u8] + digits(encode_utf8(s).len()) + crlf()
            + encode_utf8(s) + crlf(),
        Value::BulkString(None) => null_bulk(),
        Value::Array(items) => seq![42u8] + digits(items.len()) + crlf() + encode_all(items),
        Value::Null => null_bulk(),
    }
}

/// The wire forms of `items`, one after the other.
pub open spec fn encode_all(items: Seq<Value>) -> Seq<u8>
    decreases items,
{
    if items.len() == 0 {
        Seq::empty()
    } else {
        encode_all(items.drop_last()) + encode(items.last())
    }
}

/// Whether every length in `v` can be held in a machine word, as it can for
/// each value in memory: the number of bytes of each text and the number of
/// elements of each array.
pub open spec fn addressable(v: Value) -> bool
    decreases v,
{
    match v {
        Value::SimpleString(s) => encode_utf8(s).len() <= usize::MAX,
        Value::Error(s) => encode_utf8(s).len() <= usize::MAX,
        Value::Integer(_) => true,
        Value::BulkString(Some(s)) => encode_utf8(s).len() <= usize::MAX,
        Value::BulkString(None) => true,
        Value::Array(items) => items.len() <= usize::MAX && forall|i: int|
            0 <= i < items.len() ==> addressable(#[trigger] items[i]),
        Value::Null => true,
    }
}

/// Appends `bytes` to `out`.
fn push_bytes(out: &mut Vec<u8>, bytes: &[u8])
    ensures
        final(out)@ == old(out)@ + bytes@,
        bytes@.len() <= usize::MAX,
{
    assert(bytes@.len() == bytes.len());
    out.extend_from_slice(bytes);
    assert(out@ =~= old(out)@ + bytes@);
}

/// Appends a line end to `out`.
fn push_crlf(out: &mut Vec<u8>)
    ensures
        final(out)@ == old(out)@ + crlf(),
{
    out.push(13u8);
    out.push(10u8);
    assert(out@ =~= old(out)@ + crlf());
}

/// Appends a marker byte, the text and a line end to `out`.
fn push_line(out: &mut Vec<u8>, marker: u8, text: &str)
    ensures
        final(out)@ == old(out)@ + (seq![marker] + encode_utf8(text@) + crlf()),
        encode_utf8(text@).len() <= usize::MAX,
{
    out.push(marker);
    push_bytes(out, text.as_bytes());
    push_crlf(out);
    assert(out@ =~= old(out)@ + (seq![marker] + encode_utf8(text@) + crlf()));
}

/// Appends the wire form of `value` to `out`.
pub fn marshal_into(value: &RespValue, out: &mut Vec<u8>)
    ensures
        final(out)@ == old(out)@ + encode(value@),
        addressable(value@),
    decreases value,
{
    match value {
        RespValue::SimpleString(s) => push_line(out, 43u8, s.as_str()),
        RespValue::Error(s) => push_line(out, 45u8, s.as_str()),
        RespValue::Integer(i) => {
            out.push(58u8);
            push_signed(out, *i);
            push_crlf(out);
            assert(out@ =~= old(out)@ + encode(value@));
        },
        RespValue::BulkString(Some(s)) => {
            let bytes = s.as_str().as_bytes();
            out.push(36u8);
            push_decimal(out, bytes.len());
            push_crlf(out);
            push_bytes(out, bytes);
            push_crlf(out);
            assert(out@ =~= old(out)@ + encode(value@));
        },
        RespValue::BulkString(None) => {
            out.push(36u8);
            out.push(45u8);
            out.push(49u8);
            push_crlf(out);
            assert(out@ =~= old(out)@ + null_bulk());
        },
        RespValue::Array(items) => {
            out.push(42u8);
            push_decimal(out, items.len());
            push_crlf(out);
            let ghost head = out@;
            assert(head =~= old(out)@ + (seq![42u8] + digits(items@.len()) + crlf()));
            let mut i: usize = 0;
            while i < items.len()
                invariant
                    i <= items.len(),
                    *value == RespValue::Array(*items),
                    out@ == head + encode_all(views(items@).take(i as int)),
                    forall|j: int| 0 <= j < i ==> addressable(#[trigger] views(items@)[j]),
                decreases items.len() - i,
            {
                assert(decreases_to!(*value => value->Array_0));
                let ghost before = out@;
                marshal_into(&items[i], out);
                proof {
                    let done = views(items@).take(i as int);
                    let more = views(items@).take(i + 1);
                    assert(more.drop_last() =~= done);
                    assert(more.last() == items@[i as int]@);
                    assert(out@ =~= head + encode_all(more));
                }
                i += 1;
            }
            proof {
                assert(views(items@).take(items@.len() as int) =~= views(items@));
                assert(out@ =~= old(out)@ + encode(value@));
            }
        },
        RespValue::Null => {
            out.push(36u8);
            out.push(45u8);
            out.push(49u8);
            push_crlf(out);
            assert(out@ =~= old(out)@ + null_bulk());
        },
    }
}

/// The wire form of `value`.
pub fn marshal(value: &RespValue) -> (out: Vec<u8>)
    ensures
        out@ == encode(value@),
        addressable(value@),
{
    let mut out: Vec<u8> = Vec::new();
    marshal_into(value, &mut out);
    assert(out@ =~= encode(value@));
    out
}

} // verus!
