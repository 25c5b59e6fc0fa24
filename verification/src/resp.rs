//! Bounded RESP2 parser and encoder.
use vstd::prelude::*;
use vstd::string::*;
use vstd::utf8::{decode_utf8, encode_utf8, valid_utf8};

use crate::prose::{append_hex, hex_text};
use crate::text::{
    copy_bytes, decimal, read_signed, read_unsigned, signed_decimal, signed_value, unsigned_value,
    utf8_text, write_bytes, write_signed, write_unsigned,
};

verus! {

pub const RESP_VERSION: u16 = 2;

pub const MAX_FRAME: usize = 4 * 1024 * 1024;

pub const MAX_ARRAY_ITEMS: usize = 1_024;

/// How deeply arrays may nest.
pub const MAX_DEPTH: usize = 64;

#[derive(Debug, Eq, PartialEq)]
pub enum RespValue {
    Simple(String),
    Error(String),
    Integer(i64),
    Bulk(Option<Vec<u8>>),
    Array(Vec<RespValue>),
}

/// A RESP value as mathematics: text is a sequence of characters and a bulk
/// string a sequence of bytes.
pub enum RespView {
    Simple(Seq<char>),
    Error(Seq<char>),
    Integer(int),
    Bulk(Option<Seq<u8>>),
    Array(Seq<RespView>),
}

#[derive(Clone, Debug, Eq, PartialEq)]
pub enum RespError {
    Incomplete,
    FrameTooLarge,
    InvalidUtf8,
    InvalidInteger,
    InvalidLength,
    InvalidType(u8),
    InlineUnsupported,
    TooManyItems,
    Protocol(&'static str),
}

impl RespValue {
    pub open spec fn view(&self) -> RespView
        decreases self,
    {
        match self {
            RespValue::Simple(text) => RespView::Simple(text@),
            RespValue::Error(text) => RespView::Error(text@),
            RespValue::Integer(value) => RespView::Integer(*value as int),
            RespValue::Bulk(bytes) => RespView::Bulk(
                match bytes {
                    Some(bytes) => Some(bytes@),
                    None => None,
                },
            ),
            RespValue::Array(items) => RespView::Array(views(items@)),
        }
    }
}

/// The items of an array, each as mathematics.
pub open spec fn views(items: Seq<RespValue>) -> Seq<RespView>
    decreases items,
{
    Seq::new(
        items.len(),
        |i: int|
            if 0 <= i < items.len() {
                items[i].view()
            } else {
                RespView::Integer(0)
            },
    )
}

/// A copy of a value.
fn copy_value(value: &RespValue) -> (copy: RespValue)
    ensures
        copy@ == value@,
    decreases value,
{
    match value {
        RespValue::Simple(text) => RespValue::Simple(text.as_str().to_owned()),
        RespValue::Error(text) => RespValue::Error(text.as_str().to_owned()),
        RespValue::Integer(number) => RespValue::Integer(*number),
        RespValue::Bulk(None) => RespValue::Bulk(None),
        RespValue::Bulk(Some(bytes)) => RespValue::Bulk(Some(copy_bytes(bytes.as_slice()))),
        RespValue::Array(items) => {
            let mut copies: Vec<RespValue> = Vec::new();
            let mut i: usize = 0;
            while i < items.len()
                invariant
                    i <= items@.len(),
                    copies@.len() == i,
                    value matches RespValue::Array(own) && own == items,
                    forall|k: int| 0 <= k < i ==> #[trigger] copies@[k]@ == items@[k]@,
                decreases items@.len() - i,
            {
                copies.push(copy_value(&items[i]));
                i += 1;
            }
            assert forall|k: int| 0 <= k < i implies #[trigger] views(copies@)[k] == views(
                items@,
            )[k] by {
                assert(copies@[k]@ == items@[k]@);
            }
            assert(views(copies@) =~= views(items@));
            RespValue::Array(copies)
        },
    }
}

impl Clone for RespValue {
    fn clone(&self) -> (copy: Self)
        ensures
            copy@ == self@,
    {
        copy_value(self)
    }
}

pub open spec fn crlf() -> Seq<u8> {
    seq![13u8, 10u8]
}

/// Whether a line ends at a position.
pub open spec fn is_crlf(input: Seq<u8>, at: int) -> bool {
    0 <= at && at + 1 < input.len() && input[at] == 13 && input[at + 1] == 10
}

/// Where the line that starts at `start` ends: its first CRLF.
pub open spec fn line_end(input: Seq<u8>, start: int) -> Option<int>
    decreases input.len() - start,
{
    if start + 1 >= input.len() {
        None
    } else if is_crlf(input, start) {
        Some(start)
    } else {
        line_end(input, start + 1)
    }
}

/// The type byte of a value that is neither a known type nor a line end.
pub open spec fn known_tag(tag: u8) -> bool {
    tag == 43 || tag == 45 || tag == 58 || tag == 36 || tag == 42
}

/// The value that starts at `at`, and where it ends.
pub open spec fn parsed_at(input: Seq<u8>, at: int, depth: int) -> Result<(RespView, int), RespError>
    decreases 66 - depth, 0int,
{
    if depth > MAX_DEPTH || at < 0 || at >= input.len() {
        Err(RespError::Incomplete)
    } else if !known_tag(input[at]) {
        if input[at] == 13 || input[at] == 10 {
            Err(RespError::InlineUnsupported)
        } else {
            Err(RespError::InvalidType(input[at]))
        }
    } else {
        match line_end(input, at + 1) {
            None => Err(RespError::Incomplete),
            Some(end) => {
                let tag = input[at];
                let line = input.subrange(at + 1, end);
                if !valid_utf8(line) {
                    Err(RespError::InvalidUtf8)
                } else if tag == 43 {
                    Ok((RespView::Simple(decode_utf8(line)), end + 2))
                } else if tag == 45 {
                    Ok((RespView::Error(decode_utf8(line)), end + 2))
                } else {
                    match signed_value(line) {
                        None => Err(
                            if tag == 58 {
                                RespError::InvalidInteger
                            } else {
                                RespError::InvalidLength
                            },
                        ),
                        Some(number) => if tag == 58 {
                            Ok((RespView::Integer(number as int), end + 2))
                        } else if tag == 36 {
                            bulk_at(input, end + 2, number as int)
                        } else if number < 0 {
                            Ok((RespView::Array(Seq::empty()), end + 2))
                        } else if number > usize::MAX {
                            Err(RespError::InvalidLength)
                        } else if number > MAX_ARRAY_ITEMS {
                            Err(RespError::TooManyItems)
                        } else {
                            array_of(items_at(input, end + 2, depth + 1, number as nat))
                        },
                    }
                }
            },
        }
    }
}

/// The array of values that were parsed one behind the other.
pub open spec fn array_of(items: Result<(Seq<RespView>, int), RespError>) -> Result<
    (RespView, int),
    RespError,
> {
    match items {
        Ok(items) => Ok((RespView::Array(items.0), items.1)),
        Err(error) => Err(error),
    }
}

/// The bulk string of `length` bytes whose contents start at `at`.
pub open spec fn bulk_at(input: Seq<u8>, at: int, length: int) -> Result<
    (RespView, int),
    RespError,
> {
    if length == -1 {
        Ok((RespView::Bulk(None), at))
    } else if length < -1 || length > usize::MAX {
        Err(RespError::InvalidLength)
    } else if length > MAX_FRAME || at + length + 2 > usize::MAX {
        Err(RespError::FrameTooLarge)
    } else if at + length + 2 > input.len() {
        Err(RespError::Incomplete)
    } else if !is_crlf(input, at + length) {
        Err(RespError::Protocol("bulk string missing CRLF"))
    } else {
        Ok((RespView::Bulk(Some(input.subrange(at, at + length))), at + length + 2))
    }
}

/// The `count` values that follow each other from `at`.
pub open spec fn items_at(input: Seq<u8>, at: int, depth: int, count: nat) -> Result<
    (Seq<RespView>, int),
    RespError,
>
    decreases 66 - depth, count + 1,
{
    if count == 0 {
        Ok((Seq::empty(), at))
    } else {
        match parsed_at(input, at, depth) {
            Err(error) => Err(error),
            Ok(first) => prepend(
                seq![first.0],
                items_at(input, first.1, depth, (count - 1) as nat),
            ),
        }
    }
}

/// A parsed run of values behind some that were parsed before it.
pub open spec fn prepend(
    done: Seq<RespView>,
    rest: Result<(Seq<RespView>, int), RespError>,
) -> Result<(Seq<RespView>, int), RespError> {
    match rest {
        Ok(items) => Ok((done + items.0, items.1)),
        Err(error) => Err(error),
    }
}

/// The frame at the start of `input`, and how many bytes it takes.
pub open spec fn parsed(input: Seq<u8>) -> Result<(RespView, int), RespError> {
    match parsed_at(input, 0, 0) {
        Ok(frame) => if frame.1 > MAX_FRAME {
            Err(RespError::FrameTooLarge)
        } else {
            Ok(frame)
        },
        Err(error) => Err(error),
    }
}

/// Whether an outcome of `parse` is the one that its specification gives.
pub open spec fn frame_result(
    result: Result<(RespValue, usize), RespError>,
    expected: Result<(RespView, int), RespError>,
) -> bool {
    match result {
        Ok(frame) => expected == Ok::<(RespView, int), RespError>((frame.0@, frame.1 as int)),
        Err(error) => expected == Err::<(RespView, int), RespError>(error),
    }
}

/// The bytes of a value on the wire.
pub open spec fn encoded(value: RespView) -> Seq<u8>
    decreases value,
{
    match value {
        RespView::Simple(text) => seq![43u8] + encode_utf8(text) + crlf(),
        RespView::Error(text) => seq![45u8] + encode_utf8(text) + crlf(),
        RespView::Integer(number) => seq![58u8] + signed_decimal(number) + crlf(),
        RespView::Bulk(None) => seq![36u8] + seq![45u8, 49u8] + crlf(),
        RespView::Bulk(Some(bytes)) => seq![36u8] + decimal(bytes.len()) + crlf() + bytes + crlf(),
        RespView::Array(items) => seq![42u8] + decimal(items.len()) + crlf() + encoded_all(items),
    }
}

/// The bytes of values that follow each other.
pub open spec fn encoded_all(items: Seq<RespView>) -> Seq<u8>
    decreases items,
{
    if items.len() == 0 {
        Seq::empty()
    } else {
        encoded(items[0]) + encoded_all(items.drop_first())
    }
}

impl RespError {
    /// The message shown to an operator.
    pub fn message(&self) -> (text: String)
        ensures
            text@ == self.shown(),
    {
        match self {
            RespError::Incomplete => "incomplete RESP frame".to_owned(),
            RespError::FrameTooLarge => "RESP frame too large".to_owned(),
            RespError::InvalidUtf8 => "RESP simple string is not UTF-8".to_owned(),
            RespError::InvalidInteger => "invalid RESP integer".to_owned(),
            RespError::InvalidLength => "invalid RESP length".to_owned(),
            RespError::InvalidType(tag) => {
                let mut text = "invalid RESP type 0x".to_owned();
                append_hex(&mut text, *tag as u64);
                text
            },
            RespError::InlineUnsupported => "inline commands are unsupported".to_owned(),
            RespError::TooManyItems => "too many RESP array items".to_owned(),
            RespError::Protocol(reason) => "RESP protocol error: ".to_owned().concat(*reason),
        }
    }

    /// The characters of the message.
    pub open spec fn shown(self) -> Seq<char> {
        match self {
            RespError::Incomplete => "incomplete RESP frame"@,
            RespError::FrameTooLarge => "RESP frame too large"@,
            RespError::InvalidUtf8 => "RESP simple string is not UTF-8"@,
            RespError::InvalidInteger => "invalid RESP integer"@,
            RespError::InvalidLength => "invalid RESP length"@,
            RespError::InvalidType(tag) => "invalid RESP type 0x"@ + hex_text(tag as nat),
            RespError::InlineUnsupported => "inline commands are unsupported"@,
            RespError::TooManyItems => "too many RESP array items"@,
            RespError::Protocol(reason) => "RESP protocol error: "@ + reason@,
        }
    }
}

/// Parses the frame at the start of `input` and says how many bytes it takes.
pub fn parse(input: &[u8]) -> (result: Result<(RespValue, usize), RespError>)
    ensures
        frame_result(result, parsed(input@)),
{
    let frame = match parse_at(input, 0, 0) {
        Ok(frame) => frame,
        Err(error) => return Err(error),
    };
    if frame.1 > MAX_FRAME {
        return Err(RespError::FrameTooLarge);
    }
    Ok(frame)
}

/// Parses the value that starts at `offset`, inside `depth` arrays.
pub fn parse_at(input: &[u8], offset: usize, depth: usize) -> (result: Result<
    (RespValue, usize),
    RespError,
>)
    ensures
        frame_result(result, parsed_at(input@, offset as int, depth as int)),
        result matches Ok(frame) ==> frame.1 <= input@.len(),
    decreases 66 - depth,
{
    if depth > MAX_DEPTH || offset >= input.len() {
        return Err(RespError::Incomplete);
    }
    let tag: u8 = input[offset];
    if tag == 13 || tag == 10 {
        return Err(RespError::InlineUnsupported);
    }
    if tag != 43 && tag != 45 && tag != 58 && tag != 36 && tag != 42 {
        return Err(RespError::InvalidType(tag));
    }
    let (content, end) = match line(input, offset + 1) {
        Ok(found) => found,
        Err(error) => return Err(error),
    };
    let text = match utf8_text(content) {
        Some(text) => text,
        None => return Err(RespError::InvalidUtf8),
    };
    if tag == 43 {
        return Ok((RespValue::Simple(text), end));
    }
    if tag == 45 {
        return Ok((RespValue::Error(text), end));
    }
    let number: i64 = match read_signed(content) {
        Some(number) => number,
        None => return Err(
            if tag == 58 {
                RespError::InvalidInteger
            } else {
                RespError::InvalidLength
            },
        ),
    };
    if tag == 58 {
        return Ok((RespValue::Integer(number), end));
    }
    if tag == 36 {
        return bulk(input, end, number);
    }
    if number < 0 {
        let empty: Vec<RespValue> = Vec::new();
        assert(views(empty@) =~= Seq::empty());
        return Ok((RespValue::Array(empty), end));
    }
    if number as u64 > usize::MAX as u64 {
        return Err(RespError::InvalidLength);
    }
    let count: usize = number as usize;
    if count > MAX_ARRAY_ITEMS {
        return Err(RespError::TooManyItems);
    }
    let mut items: Vec<RespValue> = Vec::new();
    let mut cursor: usize = end;
    let mut left: usize = count;
    let ghost whole = items_at(input@, end as int, depth + 1, count as nat);
    proof {
        assert(views(items@) =~= Seq::<RespView>::empty());
        lemma_prepend_nothing(whole);
    }
    while left > 0
        invariant
            depth <= MAX_DEPTH,
            cursor <= input@.len(),
            parsed_at(input@, offset as int, depth as int) == array_of(whole),
            whole == prepend(
                views(items@),
                items_at(input@, cursor as int, depth + 1, left as nat),
            ),
        decreases left,
    {
        let (value, next) = match parse_at(input, cursor, depth + 1) {
            Ok(found) => found,
            Err(error) => {
                assert(whole == Err::<(Seq<RespView>, int), RespError>(error));
                return Err(error);
            },
        };
        let ghost before = views(items@);
        let ghost rest = items_at(input@, next as int, depth + 1, (left - 1) as nat);
        items.push(value);
        proof {
            assert(views(items@) =~= before.push(value@));
            lemma_prepend_twice(before, value@, rest);
        }
        cursor = next;
        left -= 1;
    }
    proof {
        assert(views(items@) + Seq::<RespView>::empty() =~= views(items@));
    }
    Ok((RespValue::Array(items), cursor))
}

proof fn lemma_prepend_nothing(rest: Result<(Seq<RespView>, int), RespError>)
    ensures
        prepend(Seq::empty(), rest) == rest,
{
    if let Ok(items) = rest {
        assert(Seq::<RespView>::empty() + items.0 =~= items.0);
    }
}

proof fn lemma_prepend_twice(
    done: Seq<RespView>,
    value: RespView,
    rest: Result<(Seq<RespView>, int), RespError>,
)
    ensures
        prepend(done, prepend(seq![value], rest)) == prepend(done.push(value), rest),
{
    if let Ok(items) = rest {
        assert(done + (seq![value] + items.0) =~= done.push(value) + items.0);
    }
}

/// Reads the contents of a bulk string whose announced length is `number`.
fn bulk(input: &[u8], cursor: usize, number: i64) -> (result: Result<(RespValue, usize), RespError>)
    requires
        cursor <= input@.len(),
    ensures
        frame_result(result, bulk_at(input@, cursor as int, number as int)),
        result matches Ok(frame) ==> frame.1 <= input@.len(),
{
    if number == -1 {
        return Ok((RespValue::Bulk(None), cursor));
    }
    if number < -1 || number as u64 > usize::MAX as u64 {
        return Err(RespError::InvalidLength);
    }
    let length: usize = number as usize;
    if length > MAX_FRAME || cursor > usize::MAX - 2 - length {
        return Err(RespError::FrameTooLarge);
    }
    let end: usize = cursor + length + 2;
    if end > input.len() {
        return Err(RespError::Incomplete);
    }
    if input[cursor + length] != 13 || input[cursor + length + 1] != 10 {
        return Err(RespError::Protocol("bulk string missing CRLF"));
    }
    let content = vstd::slice::slice_subrange(input, cursor, cursor + length);
    Ok((RespValue::Bulk(Some(crate::text::copy_bytes(content))), end))
}

/// The line that starts at `start`, and where the next one starts.
pub fn line(input: &[u8], start: usize) -> (result: Result<(&[u8], usize), RespError>)
    ensures
        match result {
            Ok(found) => {
                &&& line_end(input@, start as int) == Some(found.1 - 2)
                &&& start + 2 <= found.1 <= input@.len()
                &&& found.0@ == input@.subrange(start as int, found.1 - 2)
            },
            Err(error) => error == RespError::Incomplete && line_end(input@, start as int) is None,
        },
{
    let mut at: usize = start;
    while at < input.len() && input.len() - at > 1
        invariant
            start <= at,
            at <= input@.len() || at == start,
            line_end(input@, start as int) == line_end(input@, at as int),
        decreases input@.len() - at,
    {
        if input[at] == 13 && input[at + 1] == 10 {
            return Ok((vstd::slice::slice_subrange(input, start, at), at + 2));
        }
        at += 1;
    }
    Err(RespError::Incomplete)
}

/// The bytes of a value on the wire.
#[must_use]
pub fn encode(value: &RespValue) -> (bytes: Vec<u8>)
    ensures
        bytes@ == encoded(value@),
{
    let mut output: Vec<u8> = Vec::new();
    encode_into(value, &mut output);
    assert(output@ =~= encoded(value@));
    output
}

/// Appends the bytes of a value on the wire.
pub fn encode_into(value: &RespValue, output: &mut Vec<u8>)
    ensures
        final(output)@ == old(output)@ + encoded(value@),
    decreases value,
{
    let ghost before = output@;
    match value {
        RespValue::Simple(text) => {
            output.push(43);
            write_bytes(text.as_str().as_bytes(), output);
            write_crlf(output);
            assert(output@ =~= before + encoded(value@));
        },
        RespValue::Error(text) => {
            output.push(45);
            write_bytes(text.as_str().as_bytes(), output);
            write_crlf(output);
            assert(output@ =~= before + encoded(value@));
        },
        RespValue::Integer(number) => {
            output.push(58);
            write_signed(*number, output);
            write_crlf(output);
            assert(output@ =~= before + encoded(value@));
        },
        RespValue::Bulk(None) => {
            output.push(36);
            output.push(45);
            output.push(49);
            write_crlf(output);
            assert(output@ =~= before + encoded(value@));
        },
        RespValue::Bulk(Some(bytes)) => {
            output.push(36);
            write_unsigned(bytes.len() as u64, output);
            write_crlf(output);
            write_bytes(bytes.as_slice(), output);
            write_crlf(output);
            assert(output@ =~= before + encoded(value@));
        },
        RespValue::Array(items) => {
            output.push(42);
            write_unsigned(items.len() as u64, output);
            write_crlf(output);
            let ghost all = views(items@);
            let ghost head = seq![42u8] + decimal(all.len()) + crlf();
            assert(all.skip(0) =~= all);
            assert(output@ =~= before + head);
            let mut i: usize = 0;
            while i < items.len()
                invariant
                    i <= items@.len(),
                    all == views(items@),
                    value matches RespValue::Array(own) && own == items,
                    output@ + encoded_all(all.skip(i as int)) == before + head + encoded_all(all),
                decreases items@.len() - i,
            {
                let ghost sofar = output@;
                proof {
                    let rest = all.skip(i as int);
                    assert(rest[0] == items@[i as int]@);
                    assert(rest.drop_first() =~= all.skip(i as int + 1));
                    assert(sofar + (encoded(rest[0]) + encoded_all(rest.drop_first())) =~= sofar
                        + encoded(rest[0]) + encoded_all(rest.drop_first()));
                }
                encode_into(&items[i], output);
                i += 1;
            }
            proof {
                assert(all.skip(i as int) =~= Seq::<RespView>::empty());
                assert(output@ =~= output@ + encoded_all(all.skip(i as int)));
                assert(before + head + encoded_all(all) =~= before + encoded(value@));
            }
        },
    }
}

fn write_crlf(output: &mut Vec<u8>)
    ensures
        final(output)@ == old(output)@ + crlf(),
{
    let ghost before = output@;
    output.push(13);
    output.push(10);
    assert(output@ =~= before + crlf());
}

/// Reads a `u64` argument.
pub fn parse_u64(value: &[u8]) -> (result: Result<u64, RespError>)
    ensures
        result == u64_argument(value@),
{
    match utf8_text(value) {
        Some(_) => match read_unsigned(value) {
            Some(number) => Ok(number),
            None => Err(RespError::InvalidInteger),
        },
        None => Err(RespError::InvalidUtf8),
    }
}

/// Reads an `i64` argument.
pub fn parse_i64(value: &[u8]) -> (result: Result<i64, RespError>)
    ensures
        result == i64_argument(value@),
{
    match utf8_text(value) {
        Some(_) => match read_signed(value) {
            Some(number) => Ok(number),
            None => Err(RespError::InvalidInteger),
        },
        None => Err(RespError::InvalidUtf8),
    }
}

/// The `u64` that an argument writes.
pub open spec fn u64_argument(value: Seq<u8>) -> Result<u64, RespError> {
    if !valid_utf8(value) {
        Err(RespError::InvalidUtf8)
    } else {
        match unsigned_value(value) {
            Some(number) => Ok(number),
            None => Err(RespError::InvalidInteger),
        }
    }
}

/// The `i64` that an argument writes.
pub open spec fn i64_argument(value: Seq<u8>) -> Result<i64, RespError> {
    if !valid_utf8(value) {
        Err(RespError::InvalidUtf8)
    } else {
        match signed_value(value) {
            Some(number) => Ok(number),
            None => Err(RespError::InvalidInteger),
        }
    }
}

} // verus!
