//! Encoding a request and reading it back.

use crate::decimal::{digits, is_digit, lemma_digits_shape, lemma_value_of_digits};
use crate::decode::{
    header, is_blank, line_end, lossy_text, parse_bulk, parse_frame, parse_items, skip_blank,
    trim_line,
};
use crate::encode::{addressable, crlf, encode, encode_all};
use crate::value::Value;
use vstd::prelude::*;
use vstd::utf8::{encode_utf8, encode_utf8_decode_utf8, encode_utf8_valid_utf8};

verus! {

/// Whether `input` holds `bytes` at `pos`.
pub open spec fn holds_at(input: Seq<u8>, pos: int, bytes: Seq<u8>) -> bool {
    &&& 0 <= pos
    &&& pos + bytes.len() <= input.len()
    &&& input.subrange(pos, pos + bytes.len()) == bytes
}

/// Whether `item` is a bulk string that is present and whose length in
/// bytes can be held in a machine word.
pub open spec fn is_text(item: Value) -> bool {
    item matches Value::BulkString(Some(text)) && encode_utf8(text).len() <= usize::MAX
}

/// Whether `v` has the shape of a request: an array of bulk strings that
/// are present, with a number of elements, and each text a number of bytes,
/// that can be held in a machine word (as they are for every value in
/// memory).
pub open spec fn is_request(v: Value) -> bool {
    v matches Value::Array(items) && items.len() <= usize::MAX && forall|i: int|
        0 <= i < items.len() ==> is_text(#[trigger] items[i])
}

/// A value in memory that is an array of bulk strings that are present is
/// a request.
pub proof fn lemma_is_request(v: Value)
    requires
        addressable(v),
        v matches Value::Array(items) && forall|i: int|
            0 <= i < items.len() ==> (#[trigger] items[i]) matches Value::BulkString(Some(_)),
    ensures
        is_request(v),
{
    let items = v->Array_0;
    assert forall|i: int| 0 <= i < items.len() implies is_text(#[trigger] items[i]) by {
        assert(addressable(items[i]));
    }
}

/// What is held at a position is held there piece by piece.
proof fn lemma_holds_split(input: Seq<u8>, pos: int, first: Seq<u8>, second: Seq<u8>)
    requires
        holds_at(input, pos, first + second),
    ensures
        holds_at(input, pos, first),
        holds_at(input, pos + first.len(), second),
{
    let whole = first + second;
    assert(input.subrange(pos, pos + first.len()) =~= whole.subrange(0, first.len() as int));
    assert(whole.subrange(0, first.len() as int) =~= first);
    assert(input.subrange(pos + first.len(), pos + first.len() + second.len())
        =~= whole.subrange(first.len() as int, whole.len() as int));
    assert(whole.subrange(first.len() as int, whole.len() as int) =~= second);
}

/// A line ends just behind the first line feed.
proof fn lemma_line_end_at(input: Seq<u8>, pos: int, feed: int)
    requires
        0 <= pos <= feed < input.len(),
        input[feed] == 10u8,
        forall|j: int| pos <= j < feed ==> input[j] != 10u8,
    ensures
        line_end(input, pos) == feed + 1,
    decreases feed - pos,
{
    if pos < feed {
        lemma_line_end_at(input, pos + 1, feed);
    }
}

/// Trimming the line end off a number leaves the number.
proof fn lemma_trim_number(n: nat)
    ensures
        trim_line(digits(n) + crlf()) == digits(n),
{
    lemma_digits_shape(n);
    let number = digits(n);
    let line = number + crlf();
    assert(line.drop_last() =~= number.push(13u8));
    assert(number.push(13u8).drop_last() =~= number);
    assert(is_digit(number.last()));
    assert(trim_line(number) == number);
    assert(trim_line(number.push(13u8)) == number);
}

/// A header line that was written is read as what it announces.
proof fn lemma_header_at(input: Seq<u8>, pos: int, marker: u8, n: nat)
    requires
        marker == 42u8 || marker == 36u8,
        n <= usize::MAX,
        holds_at(input, pos, seq![marker] + digits(n) + crlf()),
    ensures
        line_end(input, pos) == pos + digits(n).len() + 3,
        header(input.subrange(pos, line_end(input, pos)), marker) == Some(n),
        !is_blank(input.subrange(pos, line_end(input, pos))),
{
    lemma_digits_shape(n);
    lemma_value_of_digits(n);
    lemma_trim_number(n);
    let number = digits(n);
    let line = seq![marker] + number + crlf();
    let feed = pos + number.len() + 2;
    assert forall|j: int| pos <= j <= feed implies input[j] == line[j - pos] by {
        assert(input.subrange(pos, pos + line.len())[j - pos] == input[j]);
    }
    assert forall|j: int| pos <= j < feed implies input[j] != 10u8 by {
        if pos < j < feed - 1 {
            assert(line[j - pos] == number[j - pos - 1]);
            assert(is_digit(number[j - pos - 1]));
        }
    }
    lemma_line_end_at(input, pos, feed);
    assert(input.subrange(pos, feed + 1) == line);
    assert(line.skip(1) =~= number + crlf());
    assert(line[0] == marker);
}

/// A bulk string that was written is read as its text.
proof fn lemma_bulk_at(input: Seq<u8>, pos: int, text: Seq<char>)
    requires
        encode_utf8(text).len() <= usize::MAX,
        holds_at(input, pos, encode(Value::BulkString(Some(text)))),
    ensures
        parse_bulk(input, pos) == Ok::<(Seq<char>, int), crate::decode::ProtocolError>(
            (text, pos + encode(Value::BulkString(Some(text))).len()),
        ),
{
    let payload = encode_utf8(text);
    let head = seq![36u8] + digits(payload.len()) + crlf();
    let whole = encode(Value::BulkString(Some(text)));
    assert(whole =~= head + (payload + crlf()));
    lemma_holds_split(input, pos, head, payload + crlf());
    lemma_holds_split(input, pos + head.len(), payload, crlf());
    lemma_header_at(input, pos, 36u8, payload.len());
    encode_utf8_valid_utf8(text);
    encode_utf8_decode_utf8(text);
    assert(lossy_text(payload) == text);
}

/// Values written one after the other are the first, then the rest.
pub proof fn lemma_encode_all_concat(first: Seq<Value>, second: Seq<Value>)
    ensures
        encode_all(first + second) == encode_all(first) + encode_all(second),
    decreases second.len(),
{
    if second.len() == 0 {
        assert(first + second =~= first);
        assert(encode_all(first) + encode_all(second) =~= encode_all(first));
    } else {
        lemma_encode_all_concat(first, second.drop_last());
        assert((first + second).drop_last() =~= first + second.drop_last());
        assert((first + second).last() == second.last());
        assert(encode_all(first + second) =~= encode_all(first) + encode_all(second));
    }
}

/// The wire form of a single value, seen as a sequence of one.
pub proof fn lemma_encode_all_one(item: Value)
    ensures
        encode_all(seq![item]) == encode(item),
{
    assert(seq![item].drop_last() =~= Seq::<Value>::empty());
    assert(encode_all(Seq::<Value>::empty()) =~= Seq::<u8>::empty());
    assert(seq![item].last() == item);
    assert(encode_all(seq![item]) =~= encode(item));
}

/// Bulk strings that were written one after the other are read as they
/// were.
proof fn lemma_items_at(input: Seq<u8>, pos: int, items: Seq<Value>)
    requires
        forall|i: int| 0 <= i < items.len() ==> is_text(#[trigger] items[i]),
        holds_at(input, pos, encode_all(items)),
    ensures
        parse_items(input, pos, items.len()) == Ok::<
            (Seq<Value>, int),
            crate::decode::ProtocolError,
        >((items, pos + encode_all(items).len())),
    decreases items.len(),
{
    if items.len() == 0 {
        assert(items =~= Seq::<Value>::empty());
    } else {
        let first = items[0];
        let rest = items.skip(1);
        assert(items =~= seq![first] + rest);
        lemma_encode_all_concat(seq![first], rest);
        lemma_encode_all_one(first);
        lemma_holds_split(input, pos, encode(first), encode_all(rest));
        assert(is_text(first));
        let text = first->BulkString_0->0;
        lemma_bulk_at(input, pos, text);
        assert forall|i: int| 0 <= i < rest.len() implies is_text(#[trigger] rest[i]) by {
            assert(rest[i] == items[i + 1]);
        }
        lemma_items_at(input, pos + encode(first).len(), rest);
        assert(seq![Value::BulkString(Some(text))] + rest =~= items);
    }
}

/// A request that was encoded is read back as it was: wherever its wire
/// form stands in the input, the frame read there is the request, and
/// reading ends just behind it.
pub proof fn lemma_round_trip(before: Seq<u8>, request: Value, after: Seq<u8>)
    requires
        is_request(request),
    ensures
        parse_frame(before + encode(request) + after, before.len() as int) == Ok::<
            (Value, int),
            crate::decode::ProtocolError,
        >((request, before.len() as int + encode(request).len())),
{
    let input = before + encode(request) + after;
    let pos = before.len() as int;
    lemma_frame_at(input, pos, request);
    assert(input.subrange(pos, pos + encode(request).len()) =~= encode(request));
}

/// The frame read where a request's wire form stands is the request.
pub proof fn lemma_frame_at(input: Seq<u8>, pos: int, request: Value)
    requires
        is_request(request),
        0 <= pos,
        pos + encode(request).len() <= input.len(),
        input.subrange(pos, pos + encode(request).len()) =~= encode(request),
    ensures
        parse_frame(input, pos) == Ok::<(Value, int), crate::decode::ProtocolError>(
            (request, pos + encode(request).len()),
        ),
{
    let items = request->Array_0;
    let head = seq![42u8] + digits(items.len()) + crlf();
    assert(encode(request) =~= head + encode_all(items));
    lemma_holds_split(input, pos, head, encode_all(items));
    lemma_header_at(input, pos, 42u8, items.len());
    lemma_items_at(input, pos + head.len(), items);
    assert(skip_blank(input, pos) == pos);
}

} // verus!
