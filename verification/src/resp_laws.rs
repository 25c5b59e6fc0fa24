//! What holds of RESP frames as a whole: encoding and parsing undo each other,
//! and a decided frame does not depend on the bytes behind it.
use vstd::prelude::*;
use vstd::utf8::{decode_utf8, encode_utf8, valid_utf8};

use crate::resp::{
    crlf, encoded, encoded_all, is_crlf, items_at, known_tag, line_end, parsed, parsed_at,
    RespError, RespView, MAX_ARRAY_ITEMS, MAX_DEPTH, MAX_FRAME,
};
use crate::wire::{lemma_stands_split, stands_at};
use crate::text::{
    all_ascii, decimal, is_digit, lemma_ascii_valid, lemma_decimal, lemma_decimal_reads_back,
    signed_decimal, signed_value,
};

verus! {

/// Whether a text fits on one RESP line.
pub open spec fn one_line(text: Seq<u8>) -> bool {
    forall|k: int| !is_crlf(text, k)
}

/// Whether a value can be framed: texts hold no line end, bulk strings and
/// arrays keep to their limits, and arrays nest no deeper than the parser goes.
pub open spec fn framable(value: RespView, depth: int) -> bool
    decreases value,
{
    &&& depth <= MAX_DEPTH
    &&& match value {
        RespView::Simple(text) => one_line(encode_utf8(text)),
        RespView::Error(text) => one_line(encode_utf8(text)),
        RespView::Integer(number) => i64::MIN <= number <= i64::MAX,
        RespView::Bulk(None) => true,
        RespView::Bulk(Some(bytes)) => bytes.len() <= MAX_FRAME,
        RespView::Array(items) => {
            &&& items.len() <= MAX_ARRAY_ITEMS
            &&& all_framable(items, depth + 1)
        },
    }
}

pub open spec fn all_framable(items: Seq<RespView>, depth: int) -> bool
    decreases items,
{
    items.len() > 0 ==> framable(items[0], depth) && all_framable(items.drop_first(), depth)
}

proof fn lemma_stands_index(input: Seq<u8>, at: int, part: Seq<u8>, i: int)
    requires
        stands_at(input, at, part),
        0 <= i < part.len(),
    ensures
        input[at + i] == part[i],
{
    assert(input.subrange(at, at + part.len())[i] == part[i]);
}

proof fn lemma_line_found(input: Seq<u8>, start: int, end: int)
    requires
        0 <= start <= end,
        is_crlf(input, end),
        forall|k: int| start <= k < end ==> !is_crlf(input, k),
    ensures
        line_end(input, start) == Some(end),
    decreases end - start,
{
    if start < end {
        assert(!is_crlf(input, start));
        lemma_line_found(input, start + 1, end);
    }
}

/// A one-line text that stands in front of a CRLF is the line there.
proof fn lemma_line_stands(input: Seq<u8>, at: int, text: Seq<u8>)
    requires
        stands_at(input, at, text),
        stands_at(input, at + text.len(), crlf()),
        one_line(text),
    ensures
        line_end(input, at) == Some(at + text.len()),
        input.subrange(at, at + text.len()) == text,
{
    let end = at + text.len();
    lemma_stands_index(input, end, crlf(), 0);
    lemma_stands_index(input, end, crlf(), 1);
    assert forall|k: int| at <= k < end implies !is_crlf(input, k) by {
        assert(!is_crlf(text, k - at));
        lemma_stands_index(input, at, text, k - at);
        if k + 1 < end {
            lemma_stands_index(input, at, text, k + 1 - at);
        }
    }
    lemma_line_found(input, at, end);
}

/// The digits of a number are one line of ASCII.
proof fn lemma_number_line(value: int)
    ensures
        one_line(signed_decimal(value)),
        all_ascii(signed_decimal(value)),
{
    let text = signed_decimal(value);
    let digits = if value < 0 {
        decimal((-value) as nat)
    } else {
        decimal(value as nat)
    };
    lemma_decimal(
        if value < 0 {
            (-value) as nat
        } else {
            value as nat
        },
    );
    assert forall|i: int| 0 <= i < text.len() implies #[trigger] text[i] < 128 && text[i] != 13 by {
        if value < 0 && i > 0 {
            assert(text[i] == digits[i - 1]);
            assert(is_digit(digits[i - 1]));
        } else if value >= 0 {
            assert(is_digit(digits[i]));
        }
    }
}

/// A framed value is read back from wherever it stands.
proof fn lemma_encoded_parses(input: Seq<u8>, at: int, value: RespView, depth: int)
    requires
        framable(value, depth),
        stands_at(input, at, encoded(value)),
        input.len() <= usize::MAX,
    ensures
        parsed_at(input, at, depth) == Ok::<(RespView, int), RespError>(
            (value, at + encoded(value).len()),
        ),
    decreases value, 0int,
{
    let all = encoded(value);
    assert(all.len() > 0);
    lemma_stands_index(input, at, all, 0);
    match value {
        RespView::Simple(text) => {
            lemma_text_parses(input, at, 43, text);
        },
        RespView::Error(text) => {
            lemma_text_parses(input, at, 45, text);
        },
        RespView::Integer(number) => {
            lemma_number_parses(input, at, 58, number, Seq::empty());
            lemma_decimal_reads_back(number);
        },
        RespView::Bulk(None) => {
            assert(decimal(1) =~= seq![49u8]);
            assert(signed_decimal(-1) =~= seq![45u8, 49u8]);
            lemma_number_parses(input, at, 36, -1, Seq::empty());
            lemma_decimal_reads_back(-1);
        },
        RespView::Bulk(Some(bytes)) => {
            let tail = bytes + crlf();
            assert(all =~= seq![36u8] + signed_decimal(bytes.len() as int) + crlf() + tail);
            lemma_number_parses(input, at, 36, bytes.len() as int, tail);
            lemma_decimal_reads_back(bytes.len() as int);
            let body = at + 1 + decimal(bytes.len()).len() + 2;
            lemma_stands_split(input, body, bytes, crlf());
            lemma_stands_index(input, body + bytes.len(), crlf(), 0);
            lemma_stands_index(input, body + bytes.len(), crlf(), 1);
        },
        RespView::Array(items) => {
            let tail = encoded_all(items);
            assert(all =~= seq![42u8] + signed_decimal(items.len() as int) + crlf() + tail);
            lemma_number_parses(input, at, 42, items.len() as int, tail);
            lemma_decimal_reads_back(items.len() as int);
            let body = at + 1 + decimal(items.len()).len() + 2;
            lemma_encoded_items_parse(input, body, items, depth + 1);
        },
    }
}

/// The line behind a type byte, where a text stands there.
proof fn lemma_text_parses(input: Seq<u8>, at: int, tag: u8, text: Seq<char>)
    requires
        one_line(encode_utf8(text)),
        stands_at(input, at, seq![tag] + encode_utf8(text) + crlf()),
    ensures
        input[at] == tag,
        line_end(input, at + 1) == Some(at + 1 + encode_utf8(text).len()),
        ({
            let line = input.subrange(at + 1, at + 1 + encode_utf8(text).len());
            valid_utf8(line) && decode_utf8(line) == text
        }),
{
    let bytes = encode_utf8(text);
    lemma_stands_split(input, at, seq![tag] + bytes, crlf());
    lemma_stands_split(input, at, seq![tag], bytes);
    lemma_stands_index(input, at, seq![tag], 0);
    lemma_line_stands(input, at + 1, bytes);
    vstd::utf8::encode_utf8_valid_utf8(text);
    vstd::utf8::encode_utf8_decode_utf8(text);
}

/// The line behind a type byte, where a number stands there.
proof fn lemma_number_parses(input: Seq<u8>, at: int, tag: u8, number: int, tail: Seq<u8>)
    requires
        stands_at(input, at, seq![tag] + signed_decimal(number) + crlf() + tail),
    ensures
        input[at] == tag,
        line_end(input, at + 1) == Some(at + 1 + signed_decimal(number).len()),
        valid_utf8(signed_decimal(number)),
        input.subrange(at + 1, at + 1 + signed_decimal(number).len()) == signed_decimal(number),
        stands_at(input, at + 1 + signed_decimal(number).len() + 2, tail),
{
    let digits = signed_decimal(number);
    lemma_stands_split(input, at, seq![tag] + digits + crlf(), tail);
    lemma_stands_split(input, at, seq![tag] + digits, crlf());
    lemma_stands_split(input, at, seq![tag], digits);
    lemma_stands_index(input, at, seq![tag], 0);
    lemma_number_line(number);
    lemma_line_stands(input, at + 1, digits);
    lemma_ascii_valid(digits);
}

proof fn lemma_encoded_items_parse(input: Seq<u8>, at: int, items: Seq<RespView>, depth: int)
    requires
        all_framable(items, depth),
        stands_at(input, at, encoded_all(items)),
        input.len() <= usize::MAX,
    ensures
        items_at(input, at, depth, items.len()) == Ok::<(Seq<RespView>, int), RespError>(
            (items, at + encoded_all(items).len()),
        ),
    decreases items, 1int,
{
    if items.len() > 0 {
        let first = items[0];
        let rest = items.drop_first();
        lemma_stands_split(input, at, encoded(first), encoded_all(rest));
        lemma_encoded_parses(input, at, first, depth);
        lemma_encoded_items_parse(input, at + encoded(first).len(), rest, depth);
        assert(seq![first] + rest =~= items);
    } else {
        assert(items =~= Seq::<RespView>::empty());
    }
}

/// Parsing what was encoded gives the value back and takes exactly its bytes,
/// whatever follows in the buffer.
pub proof fn law_parse_encode(value: RespView, suffix: Seq<u8>)
    requires
        framable(value, 0),
        encoded(value).len() <= MAX_FRAME,
        (encoded(value) + suffix).len() <= usize::MAX,
    ensures
        parsed(encoded(value) + suffix) == Ok::<(RespView, int), RespError>(
            (value, encoded(value).len() as int),
        ),
{
    let input = encoded(value) + suffix;
    assert(input.subrange(0, encoded(value).len() as int) =~= encoded(value));
    lemma_encoded_parses(input, 0, value, 0);
}

proof fn lemma_line_end_bounds(input: Seq<u8>, start: int)
    ensures
        line_end(input, start) matches Some(end) ==> start <= end && end + 2 <= input.len(),
    decreases input.len() - start,
{
    if start + 1 < input.len() && !is_crlf(input, start) {
        lemma_line_end_bounds(input, start + 1);
    }
}

proof fn lemma_line_end_extends(input: Seq<u8>, more: Seq<u8>, start: int)
    requires
        line_end(input, start) is Some,
        0 <= start,
    ensures
        line_end(input + more, start) == line_end(input, start),
    decreases input.len() - start,
{
    assert((input + more)[start] == input[start]);
    assert((input + more)[start + 1] == input[start + 1]);
    if !is_crlf(input, start) {
        lemma_line_end_extends(input, more, start + 1);
    }
}

/// A value that was decided, found or refused, stays decided when more bytes
/// follow.
proof fn lemma_parsed_extends(input: Seq<u8>, more: Seq<u8>, at: int, depth: int)
    ensures
        parsed_at(input, at, depth) != Err::<(RespView, int), RespError>(RespError::Incomplete)
            ==> parsed_at(input + more, at, depth) == parsed_at(input, at, depth),
        parsed_at(input, at, depth) matches Ok(frame) ==> at < frame.1 <= input.len(),
    decreases 66 - depth, 0int,
{
    if depth <= MAX_DEPTH && 0 <= at < input.len() {
        let both = input + more;
        assert(both[at] == input[at]);
        if known_tag(input[at]) && line_end(input, at + 1) is Some {
            let end = line_end(input, at + 1)->0;
            lemma_line_end_bounds(input, at + 1);
            lemma_line_end_extends(input, more, at + 1);
            let line = input.subrange(at + 1, end);
            assert(both.subrange(at + 1, end) =~= line);
            if let Some(number) = signed_value(line) {
                if input[at] == 36 {
                    let length = number as int;
                    if 0 <= length && end + 2 + length + 2 <= input.len() {
                        assert(both[end + 2 + length] == input[end + 2 + length]);
                        assert(both[end + 2 + length + 1] == input[end + 2 + length + 1]);
                        assert(both.subrange(end + 2, end + 2 + length) =~= input.subrange(
                            end + 2,
                            end + 2 + length,
                        ));
                    }
                } else if input[at] == 42 && 0 <= number <= MAX_ARRAY_ITEMS {
                    lemma_items_extend(input, more, end + 2, depth + 1, number as nat);
                }
            }
        }
    }
}

proof fn lemma_items_extend(input: Seq<u8>, more: Seq<u8>, at: int, depth: int, count: nat)
    requires
        at <= input.len(),
    ensures
        items_at(input, at, depth, count) != Err::<(Seq<RespView>, int), RespError>(
            RespError::Incomplete,
        ) ==> items_at(input + more, at, depth, count) == items_at(input, at, depth, count),
        items_at(input, at, depth, count) matches Ok(items) ==> at <= items.1 <= input.len(),
    decreases 66 - depth, count + 1,
{
    if count > 0 {
        lemma_parsed_extends(input, more, at, depth);
        if let Ok(first) = parsed_at(input, at, depth) {
            lemma_items_extend(input, more, first.1, depth, (count - 1) as nat);
        }
    }
}

/// Bytes that arrive later never change a frame that was found or an input
/// that was refused: only an incomplete frame can still turn out either way.
pub proof fn law_decided_frames_are_final(input: Seq<u8>, more: Seq<u8>)
    requires
        parsed(input) != Err::<(RespView, int), RespError>(RespError::Incomplete),
    ensures
        parsed(input + more) == parsed(input),
{
    lemma_parsed_extends(input, more, 0, 0);
}

/// A frame takes at least one byte and no more than there are.
pub proof fn law_frame_is_within_input(input: Seq<u8>)
    ensures
        parsed(input) matches Ok(frame) ==> 0 < frame.1 <= input.len() && frame.1 <= MAX_FRAME,
{
    lemma_parsed_extends(input, Seq::empty(), 0, 0);
}

/// An outcome of parsing, with what was found `by` bytes further on.
pub open spec fn shifted(frame: Result<(RespView, int), RespError>, by: int) -> Result<
    (RespView, int),
    RespError,
> {
    match frame {
        Ok(found) => Ok((found.0, found.1 + by)),
        Err(error) => Err(error),
    }
}

/// Items that were parsed one behind the other, `by` bytes further on.
pub open spec fn items_shifted(items: Result<(Seq<RespView>, int), RespError>, by: int) -> Result<
    (Seq<RespView>, int),
    RespError,
> {
    match items {
        Ok(found) => Ok((found.0, found.1 + by)),
        Err(error) => Err(error),
    }
}

proof fn lemma_line_shifts(input: Seq<u8>, by: int, start: int)
    requires
        0 <= by <= input.len(),
        0 <= start,
    ensures
        line_end(input, start + by) == match line_end(input.skip(by), start) {
            Some(end) => Some(end + by),
            None => None,
        },
        line_end(input.skip(by), start) matches Some(end) ==> start <= end && end + 1 < input.len()
            - by,
    decreases input.len() - by - start,
{
    if start + 1 < input.len() - by {
        assert(is_crlf(input.skip(by), start) == is_crlf(input, start + by));
        lemma_line_shifts(input, by, start + 1);
    }
}

proof fn lemma_items_shift(input: Seq<u8>, by: int, at: int, depth: int, count: nat)
    requires
        0 <= by <= input.len(),
        0 <= at,
        input.len() <= isize::MAX,
    ensures
        items_at(input, at + by, depth, count) == items_shifted(
            items_at(input.skip(by), at, depth, count),
            by,
        ),
        items_at(input.skip(by), at, depth, count) matches Ok(found) ==> at <= found.1,
    decreases 66 - depth, count + 1,
{
    if count > 0 && depth <= MAX_DEPTH {
        law_parses_shift(input, by, at, depth);
        if let Ok(first) = parsed_at(input.skip(by), at, depth) {
            lemma_items_shift(input, by, first.1, depth, (count - 1) as nat);
            assert(parsed_at(input, at + by, depth) == Ok::<(RespView, int), RespError>(
                (first.0, first.1 + by),
            ));
        }
    } else if count > 0 {
        assert(parsed_at(input, at + by, depth) is Err);
        assert(parsed_at(input.skip(by), at, depth) is Err);
    }
}

/// A parse depends on nothing before the value that it starts at: from `by`
/// bytes further on it finds what it finds in the rest of the bytes alone, and
/// ends as much further on. Deeper than arrays may nest it finds only that
/// something is missing. No slice of bytes is longer than `isize::MAX`.
pub proof fn law_parses_shift(input: Seq<u8>, by: int, at: int, depth: int)
    requires
        0 <= by <= input.len(),
        0 <= at,
        input.len() <= isize::MAX,
    ensures
        parsed_at(input, at + by, depth) == shifted(parsed_at(input.skip(by), at, depth), by),
        parsed_at(input.skip(by), at, depth) matches Ok(found) ==> at < found.1,
        depth > MAX_DEPTH ==> parsed_at(input, at, depth) == Err::<(RespView, int), RespError>(
            RespError::Incomplete,
        ),
    decreases 66 - depth, 0int,
{
    let rest = input.skip(by);
    if depth <= MAX_DEPTH && at < rest.len() && known_tag(rest[at]) {
        lemma_line_shifts(input, by, at + 1);
        if let Some(end) = line_end(rest, at + 1) {
            let line = rest.subrange(at + 1, end);
            assert(line =~= input.subrange(at + by + 1, end + by));
            if let Some(number) = signed_value(line) {
                if rest[at] == 36 && 0 <= number <= MAX_FRAME && end + 2 + number + 2
                    <= rest.len() {
                    assert(is_crlf(rest, end + 2 + number) == is_crlf(
                        input,
                        end + by + 2 + number,
                    ));
                    assert(rest.subrange(end + 2, end + 2 + number) =~= input.subrange(
                        end + by + 2,
                        end + by + 2 + number,
                    ));
                }
                if rest[at] == 42 && 0 <= number <= MAX_ARRAY_ITEMS {
                    lemma_items_shift(input, by, end + 2, depth + 1, number as nat);
                }
            }
        }
    }
}

} // verus!
