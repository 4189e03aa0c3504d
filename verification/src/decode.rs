//! Reading one request frame from bytes.
//!
//! A request is an array of bulk strings: a line `*` and the number of
//! elements, then for each element a line `$` and the byte length of its
//! text, the text itself, and two more bytes that end it.

use crate::decimal::{parse_decimal, parse_number};
use crate::value::{views, RespValue, Value};
use vstd::prelude::*;
use vstd::slice::slice_subrange;
use vstd::string::StringExecFns;
use vstd::utf8::{decode_utf8, valid_utf8};

verus! {

/// Why a frame could not be read.
#[derive(Debug, Clone, Copy, PartialEq, Eq, Structural)]
pub enum ProtocolError {
    /// The input ended before a frame began: nothing is left to read.
    EndOfStream,
    /// The first line of the frame is not `*` and a number.
    NotAnArray,
    /// The line that should announce an element is not `$` and a number.
    ExpectedBulkString,
    /// The input ended inside the text of an element.
    ShortRead,
}

impl ProtocolError {
    /// The failure in words.
    pub open spec fn text(self) -> Seq<char> {
        match self {
            ProtocolError::EndOfStream => "end of stream"@,
            ProtocolError::NotAnArray => "not an array"@,
            ProtocolError::ExpectedBulkString => "expected bulk string"@,
            ProtocolError::ShortRead => "short read"@,
        }
    }

    /// The failure in words.
    pub fn message(&self) -> (text: String)
        ensures
            text@ == self.text(),
    {
        match self {
            ProtocolError::EndOfStream => String::from_str("end of stream"),
            ProtocolError::NotAnArray => String::from_str("not an array"),
            ProtocolError::ExpectedBulkString => String::from_str("expected bulk string"),
            ProtocolError::ShortRead => String::from_str("short read"),
        }
    }
}

/// What lossy UTF-8 decoding makes of `bytes` that are not valid UTF-8.
pub uninterp spec fn utf8_lossy(bytes: Seq<u8>) -> Seq<char>;

/// The text that `bytes` are read as: their decoding where they are valid
/// UTF-8, else the lossy decoding, which puts U+FFFD for what is invalid.
pub open spec fn lossy_text(bytes: Seq<u8>) -> Seq<char> {
    if valid_utf8(bytes) {
        decode_utf8(bytes)
    } else {
        utf8_lossy(bytes)
    }
}

/// Decodes `bytes` with `String::from_utf8_lossy`.
///
/// Not proved, but taken from the documentation of that function: bytes
/// that are valid UTF-8 give the text that they encode; any other bytes
/// give a text that depends on the bytes alone, of which nothing more is
/// said here.
#[verifier::external_body]
fn decode_lossy(bytes: &[u8]) -> (text: String)
    ensures
        text@ == (if valid_utf8(bytes@) {
            decode_utf8(bytes@)
        } else {
            utf8_lossy(bytes@)
        }),
{
    String::from_utf8_lossy(bytes).into_owned()
}

/// Where the line that starts at `pos` ends: just behind its line feed, or
/// at the end of the input if no line feed follows.
pub open spec fn line_end(input: Seq<u8>, pos: int) -> int
    decreases input.len() - pos,
{
    if pos >= input.len() {
        pos
    } else if input[pos] == 10u8 {
        pos + 1
    } else {
        line_end(input, pos + 1)
    }
}

/// Whether a line holds nothing but carriage returns and line feeds.
pub open spec fn is_blank(line: Seq<u8>) -> bool {
    forall|i: int| 0 <= i < line.len() ==> (#[trigger] line[i] == 13u8 || line[i] == 10u8)
}

/// `line` without the carriage returns and line feeds at its end.
pub open spec fn trim_line(line: Seq<u8>) -> Seq<u8>
    decreases line.len(),
{
    if line.len() > 0 && (line.last() == 13u8 || line.last() == 10u8) {
        trim_line(line.drop_last())
    } else {
        line
    }
}

/// The number that a header line announces: the line must begin with
/// `marker`, and what follows, up to the line's end, must be a number.
pub open spec fn header(line: Seq<u8>, marker: u8) -> Option<nat> {
    if line.len() > 0 && line[0] == marker {
        parse_number(trim_line(line.skip(1)))
    } else {
        None
    }
}

/// The start of the first line at or after `pos` that is not blank, or the
/// end of the input if every line from `pos` on is blank.
pub open spec fn skip_blank(input: Seq<u8>, pos: int) -> int
    decreases input.len() - pos,
    via skip_blank_decreases
{
    if pos >= input.len() {
        pos
    } else if is_blank(input.subrange(pos, line_end(input, pos))) {
        skip_blank(input, line_end(input, pos))
    } else {
        pos
    }
}

#[via_fn]
proof fn skip_blank_decreases(input: Seq<u8>, pos: int) {
    lemma_line_end(input, pos);
}

/// Where input is left, a line is not empty and lies within the input.
pub proof fn lemma_line_end(input: Seq<u8>, pos: int)
    ensures
        pos < input.len() ==> pos < line_end(input, pos) <= input.len(),
        pos >= input.len() ==> line_end(input, pos) == pos,
    decreases input.len() - pos,
{
    if pos < input.len() && input[pos] != 10u8 {
        lemma_line_end(input, pos + 1);
    }
}

/// One element read at `pos`: its text and the position behind it.
pub open spec fn parse_bulk(input: Seq<u8>, pos: int) -> Result<(Seq<char>, int), ProtocolError> {
    let text_at = line_end(input, pos);
    match header(input.subrange(pos, text_at), 36u8) {
        None => Err(ProtocolError::ExpectedBulkString),
        Some(n) => {
            if text_at + n + 2 <= input.len() {
                Ok((lossy_text(input.subrange(text_at, text_at + n)), text_at + n + 2))
            } else {
                Err(ProtocolError::ShortRead)
            }
        },
    }
}

/// `count` elements read one after the other from `pos`: their values and
/// the position behind the last.
pub open spec fn parse_items(input: Seq<u8>, pos: int, count: nat) -> Result<
    (Seq<Value>, int),
    ProtocolError,
>
    decreases count,
{
    if count == 0 {
        Ok((Seq::empty(), pos))
    } else {
        match parse_bulk(input, pos) {
            Err(e) => Err(e),
            Ok((text, next)) => prepend(
                seq![Value::BulkString(Some(text))],
                parse_items(input, next, (count - 1) as nat),
            ),
        }
    }
}

/// `rest` with the values `done` put in front of those it read.
pub open spec fn prepend(
    done: Seq<Value>,
    rest: Result<(Seq<Value>, int), ProtocolError>,
) -> Result<(Seq<Value>, int), ProtocolError> {
    match rest {
        Err(e) => Err(e),
        Ok((items, end)) => Ok((done + items, end)),
    }
}

/// The frame read at `pos`: blank lines are passed over, then comes the
/// array header and its elements. Gives the request and the position behind
/// it, or the reason why there is none.
pub open spec fn parse_frame(input: Seq<u8>, pos: int) -> Result<(Value, int), ProtocolError> {
    let start = skip_blank(input, pos);
    if start >= input.len() {
        Err(ProtocolError::EndOfStream)
    } else {
        let items_at = line_end(input, start);
        match header(input.subrange(start, items_at), 42u8) {
            None => Err(ProtocolError::NotAnArray),
            Some(count) => match parse_items(input, items_at, count) {
                Err(e) => Err(e),
                Ok((items, end)) => Ok((Value::Array(items), end)),
            },
        }
    }
}

/// Blank lines are passed over forwards, and not beyond the input.
pub proof fn lemma_skip_blank(input: Seq<u8>, pos: int)
    ensures
        pos <= skip_blank(input, pos),
        pos < input.len() ==> skip_blank(input, pos) <= input.len(),
    decreases input.len() - pos,
{
    lemma_line_end(input, pos);
    if pos < input.len() && is_blank(input.subrange(pos, line_end(input, pos))) {
        lemma_skip_blank(input, line_end(input, pos));
    }
}

/// Elements that were read end within the input, behind where they began.
pub proof fn lemma_items_advance(input: Seq<u8>, pos: int, count: nat)
    requires
        pos <= input.len(),
    ensures
        parse_items(input, pos, count) matches Ok((_, end)) ==> pos <= end <= input.len(),
    decreases count,
{
    if count > 0 {
        lemma_line_end(input, pos);
        match parse_bulk(input, pos) {
            Ok((_, next)) => {
                lemma_items_advance(input, next, (count - 1) as nat);
            },
            Err(_) => {},
        }
    }
}

/// A frame that was read ends within the input, behind where it began.
pub proof fn lemma_frame_advances(input: Seq<u8>, pos: int)
    ensures
        parse_frame(input, pos) matches Ok((_, end)) ==> pos < end <= input.len(),
{
    lemma_skip_blank(input, pos);
    let start = skip_blank(input, pos);
    if start < input.len() {
        lemma_line_end(input, start);
        let items_at = line_end(input, start);
        match header(input.subrange(start, items_at), 42u8) {
            Some(count) => {
                lemma_items_advance(input, items_at, count);
            },
            None => {},
        }
    }
}

/// Finds the end of the line that starts at `pos`.
fn find_line_end(input: &[u8], pos: usize) -> (end: usize)
    requires
        pos <= input.len(),
    ensures
        end == line_end(input@, pos as int),
        pos <= end <= input.len(),
        pos < input.len() ==> pos < end,
{
    let mut at: usize = pos;
    while at < input.len() && input[at] != 10u8
        invariant
            pos <= at <= input.len(),
            line_end(input@, pos as int) == line_end(input@, at as int),
        decreases input.len() - at,
    {
        at += 1;
    }
    if at < input.len() {
        at + 1
    } else {
        at
    }
}

/// Whether `line` holds nothing but carriage returns and line feeds.
pub fn is_blank_line(line: &[u8]) -> (blank: bool)
    ensures
        blank == is_blank(line@),
{
    let mut i: usize = 0;
    while i < line.len()
        invariant
            i <= line.len(),
            forall|j: int| 0 <= j < i ==> (#[trigger] line@[j] == 13u8 || line@[j] == 10u8),
        decreases line.len() - i,
    {
        if line[i] != 13u8 && line[i] != 10u8 {
            return false;
        }
        i += 1;
    }
    true
}

/// Reads the number that a header line announces after `marker`.
pub fn parse_header(line: &[u8], marker: u8) -> (count: Option<usize>)
    ensures
        match header(line@, marker) {
            Some(n) => count == Some(n as usize) && n <= usize::MAX,
            None => count is None,
        },
{
    if line.len() == 0 || line[0] != marker {
        return None;
    }
    let mut end: usize = line.len();
    while end > 1 && (line[end - 1] == 13u8 || line[end - 1] == 10u8)
        invariant
            1 <= end <= line.len(),
            trim_line(line@.skip(1)) == trim_line(line@.subrange(1, end as int)),
        decreases end,
    {
        proof {
            let cut = line@.subrange(1, end as int);
            assert(cut.drop_last() =~= line@.subrange(1, end - 1));
        }
        end -= 1;
    }
    proof {
        assert(line@.skip(1) =~= line@.subrange(1, line@.len() as int));
    }
    parse_decimal(line, 1, end)
}

/// Reads one request frame from `input`, starting at `pos`.
///
/// Returns the request, an array of bulk strings, and the position just
/// behind it; or the reason why no request could be read, as `parse_frame`
/// gives it. Text that is not valid UTF-8 is decoded lossily; the two bytes
/// behind each text are passed over unread.
pub fn read_resp(input: &[u8], pos: usize) -> (got: Result<(RespValue, usize), ProtocolError>)
    ensures
        match got {
            Ok((request, end)) => parse_frame(input@, pos as int) == Ok::<
                (Value, int),
                ProtocolError,
            >((request@, end as int)),
            Err(reason) => parse_frame(input@, pos as int) == Err::<(Value, int), ProtocolError>(
                reason,
            ),
        },
{
    let mut start: usize = pos;
    loop
        invariant
            skip_blank(input@, pos as int) == skip_blank(input@, start as int),
        ensures
            start < input.len(),
            start == skip_blank(input@, pos as int),
        decreases input.len() - start,
    {
        if start >= input.len() {
            return Err(ProtocolError::EndOfStream);
        }
        let end = find_line_end(input, start);
        if !is_blank_line(slice_subrange(input, start, end)) {
            break ;
        }
        start = end;
    }
    let items_at = find_line_end(input, start);
    let count = match parse_header(slice_subrange(input, start, items_at), 42u8) {
        Some(n) => n,
        None => {
            return Err(ProtocolError::NotAnArray);
        },
    };
    let mut items: Vec<RespValue> = Vec::new();
    let mut at: usize = items_at;
    let mut k: usize = 0;
    while k < count
        invariant
            k <= count,
            items_at <= at <= input.len(),
            start < input.len(),
            start == skip_blank(input@, pos as int),
            items_at == line_end(input@, start as int),
            header(input@.subrange(start as int, items_at as int), 42u8) == Some(count as nat),
            parse_items(input@, items_at as int, count as nat) == prepend(
                views(items@),
                parse_items(input@, at as int, (count - k) as nat),
            ),
        decreases count - k,
    {
        let text_at = find_line_end(input, at);
        let n = match parse_header(slice_subrange(input, at, text_at), 36u8) {
            Some(n) => n,
            None => {
                return Err(ProtocolError::ExpectedBulkString);
            },
        };
        if n > input.len() - text_at || input.len() - text_at - n < 2 {
            return Err(ProtocolError::ShortRead);
        }
        let text = decode_lossy(slice_subrange(input, text_at, text_at + n));
        let ghost before = views(items@);
        let ghost rest = parse_items(input@, (text_at + n + 2) as int, (count - k - 1) as nat);
        items.push(RespValue::BulkString(Some(text)));
        proof {
            let one = seq![Value::BulkString(Some(text@))];
            assert(views(items@) =~= before + one);
            match rest {
                Ok((more, end)) => {
                    assert(before + (one + more) =~= (before + one) + more);
                },
                Err(_) => {},
            }
        }
        at = text_at + n + 2;
        k += 1;
    }
    proof {
        assert(views(items@) + Seq::<Value>::empty() =~= views(items@));
    }
    Ok((RespValue::Array(items), at))
}

} // verus!
