//! Decimal, hexadecimal and UTF-8 text in byte form.
use vstd::prelude::*;
use vstd::string::*;
use vstd::utf8::{decode_utf8, encode_utf8, is_ascii_chars, valid_utf8};

verus! {

pub open spec fn is_digit(byte: u8) -> bool {
    48 <= byte <= 57
}

pub open spec fn all_digits(bytes: Seq<u8>) -> bool {
    forall|i: int| 0 <= i < bytes.len() ==> is_digit(#[trigger] bytes[i])
}

/// The number that a run of decimal digits writes.
pub open spec fn digits_value(digits: Seq<u8>) -> nat
    decreases digits.len(),
{
    if digits.len() == 0 {
        0
    } else {
        digits_value(digits.drop_last()) * 10 + (digits.last() - 48) as nat
    }
}

/// The canonical decimal digits of a number: no sign and no leading zero.
pub open spec fn decimal(value: nat) -> Seq<u8>
    decreases value,
{
    if value < 10 {
        seq![(48 + value) as u8]
    } else {
        decimal(value / 10).push((48 + value % 10) as u8)
    }
}

/// The canonical decimal digits of a signed number.
pub open spec fn signed_decimal(value: int) -> Seq<u8> {
    if value < 0 {
        seq![45u8] + decimal((-value) as nat)
    } else {
        decimal(value as nat)
    }
}

/// What remains of a number's text behind an optional `+`.
pub open spec fn unsigned_body(text: Seq<u8>) -> Seq<u8> {
    if text.len() > 0 && text[0] == 43 {
        text.drop_first()
    } else {
        text
    }
}

/// The `u64` that a text writes: an optional `+`, then one or more digits.
pub open spec fn unsigned_value(text: Seq<u8>) -> Option<u64> {
    let body = unsigned_body(text);
    if body.len() > 0 && all_digits(body) && digits_value(body) <= u64::MAX {
        Some(digits_value(body) as u64)
    } else {
        None
    }
}

/// The `i64` that a text writes: an optional sign, then one or more digits.
pub open spec fn signed_value(text: Seq<u8>) -> Option<i64> {
    if text.len() > 0 && text[0] == 45 {
        let body = text.drop_first();
        if body.len() > 0 && all_digits(body) && digits_value(body) <= 0x8000_0000_0000_0000 {
            Some((-digits_value(body)) as i64)
        } else {
            None
        }
    } else {
        let body = unsigned_body(text);
        if body.len() > 0 && all_digits(body) && digits_value(body) <= i64::MAX {
            Some(digits_value(body) as i64)
        } else {
            None
        }
    }
}

proof fn lemma_digits_grow(digits: Seq<u8>, n: int)
    requires
        0 <= n <= digits.len(),
        all_digits(digits),
    ensures
        digits_value(digits.take(n)) <= digits_value(digits),
    decreases digits.len() - n,
{
    if n < digits.len() {
        lemma_digits_grow(digits, n + 1);
        assert(digits.take(n + 1).drop_last() =~= digits.take(n));
        assert(digits.take(n + 1).last() == digits[n]);
        assert(is_digit(digits[n]));
    } else {
        assert(digits.take(n) =~= digits);
    }
}

/// Canonical digits are digits, and writing and reading them agree.
pub proof fn lemma_decimal(value: nat)
    ensures
        decimal(value).len() > 0,
        all_digits(decimal(value)),
        digits_value(decimal(value)) == value,
        value > 0 ==> decimal(value)[0] != 48,
    decreases value,
{
    if value < 10 {
        assert(decimal(value).drop_last() =~= Seq::<u8>::empty());
        assert(digits_value(Seq::<u8>::empty()) == 0);
    } else {
        lemma_decimal(value / 10);
        let head = decimal(value / 10);
        let all = decimal(value);
        assert(all.drop_last() =~= head);
        assert forall|i: int| 0 <= i < all.len() implies is_digit(#[trigger] all[i]) by {
            if i < head.len() {
                assert(all[i] == head[i]);
                assert(is_digit(head[i]));
            }
        }
        assert(all[0] == head[0]);
    }
}

/// A decimal text names its number, whichever reader takes it.
pub proof fn lemma_decimal_reads_back(value: int)
    ensures
        0 <= value <= u64::MAX ==> unsigned_value(decimal(value as nat)) == Some(value as u64),
        i64::MIN <= value <= i64::MAX ==> signed_value(signed_decimal(value)) == Some(value as i64),
{
    if 0 <= value {
        lemma_decimal(value as nat);
        let d = decimal(value as nat);
        assert(is_digit(d[0]));
    } else {
        lemma_decimal((-value) as nat);
        let d = decimal((-value) as nat);
        let s = signed_decimal(value);
        assert(s[0] == 45);
        assert(s.drop_first() =~= d);
    }
}

/// The digits of `bytes` from `start`, as a number.
fn read_digits(bytes: &[u8], start: usize) -> (value: Option<u64>)
    requires
        start <= bytes@.len(),
    ensures
        ({
            let body = bytes@.skip(start as int);
            value == if body.len() > 0 && all_digits(body) && digits_value(body) <= u64::MAX {
                Some(digits_value(body) as u64)
            } else {
                None
            }
        }),
{
    let ghost body = bytes@.skip(start as int);
    if start == bytes.len() {
        return None;
    }
    let mut value: u64 = 0;
    let mut i: usize = start;
    assert(body.take(0) =~= Seq::<u8>::empty());
    while i < bytes.len()
        invariant
            start <= i <= bytes@.len(),
            body == bytes@.skip(start as int),
            all_digits(body.take(i - start)),
            value == digits_value(body.take(i - start)),
        decreases bytes@.len() - i,
    {
        let byte: u8 = bytes[i];
        let ghost next = body.take(i - start + 1);
        proof {
            assert(body[i - start] == byte);
            assert(next.drop_last() =~= body.take(i - start));
            assert(next.last() == byte);
        }
        if byte < 48 || byte > 57 {
            assert(!is_digit(body[i - start]));
            return None;
        }
        assert(all_digits(next)) by {
            assert forall|k: int| 0 <= k < next.len() implies is_digit(#[trigger] next[k]) by {
                if k < i - start {
                    assert(next[k] == body.take(i - start)[k]);
                }
            }
        }
        let digit: u64 = (byte - 48) as u64;
        if value > u64::MAX / 10 || value * 10 > u64::MAX - digit {
            proof {
                if all_digits(body) {
                    lemma_digits_grow(body, i - start + 1);
                }
            }
            return None;
        }
        value = value * 10 + digit;
        i += 1;
    }
    assert(body.take(i - start) =~= body);
    Some(value)
}

/// Reads a `u64` in decimal.
pub fn read_unsigned(bytes: &[u8]) -> (value: Option<u64>)
    ensures
        value == unsigned_value(bytes@),
{
    let start: usize = if bytes.len() > 0 && bytes[0] == 43 { 1 } else { 0 };
    assert(bytes@.skip(start as int) =~= unsigned_body(bytes@));
    read_digits(bytes, start)
}

/// Reads an `i64` in decimal.
pub fn read_signed(bytes: &[u8]) -> (value: Option<i64>)
    ensures
        value == signed_value(bytes@),
{
    if bytes.len() > 0 && bytes[0] == 45 {
        assert(bytes@.skip(1) =~= bytes@.drop_first());
        match read_digits(bytes, 1) {
            Some(magnitude) => {
                if magnitude < 0x8000_0000_0000_0000 {
                    Some(-(magnitude as i64))
                } else if magnitude == 0x8000_0000_0000_0000 {
                    Some(i64::MIN)
                } else {
                    None
                }
            },
            None => None,
        }
    } else {
        match read_unsigned(bytes) {
            Some(magnitude) => {
                if magnitude <= 0x7fff_ffff_ffff_ffff {
                    Some(magnitude as i64)
                } else {
                    None
                }
            },
            None => None,
        }
    }
}

/// Appends the decimal digits of a number.
pub fn write_unsigned(value: u64, output: &mut Vec<u8>)
    ensures
        final(output)@ == old(output)@ + decimal(value as nat),
    decreases value,
{
    let ghost before = output@;
    if value >= 10 {
        write_unsigned(value / 10, output);
    }
    let digit: u8 = 48 + (value % 10) as u8;
    output.push(digit);
    assert(output@ =~= before + decimal(value as nat));
}

/// Appends the decimal digits of a signed number.
pub fn write_signed(value: i64, output: &mut Vec<u8>)
    ensures
        final(output)@ == old(output)@ + signed_decimal(value as int),
{
    let ghost before = output@;
    if value < 0 {
        output.push(45);
        let magnitude: u64 = if value == i64::MIN {
            0x8000_0000_0000_0000
        } else {
            (-value) as u64
        };
        write_unsigned(magnitude, output);
        assert(output@ =~= before + signed_decimal(value as int));
    } else {
        write_unsigned(value as u64, output);
    }
}

/// Appends a copy of some bytes.
pub fn write_bytes(bytes: &[u8], output: &mut Vec<u8>)
    ensures
        final(output)@ == old(output)@ + bytes@,
{
    let ghost before = output@;
    output.extend_from_slice(bytes);
    assert(output@ =~= before + bytes@);
}

/// A copy of some bytes.
pub fn copy_bytes(bytes: &[u8]) -> (copy: Vec<u8>)
    ensures
        copy@ == bytes@,
{
    let mut copy: Vec<u8> = Vec::new();
    write_bytes(bytes, &mut copy);
    assert(copy@ =~= bytes@);
    copy
}

/// Whether two byte strings are equal.
pub fn same_bytes(a: &[u8], b: &[u8]) -> (r: bool)
    ensures
        r == (a@ == b@),
{
    if a.len() != b.len() {
        return false;
    }
    let mut i: usize = 0;
    while i < a.len()
        invariant
            i <= a@.len() == b@.len(),
            forall|k: int| 0 <= k < i ==> a@[k] == b@[k],
        decreases a@.len() - i,
    {
        if a[i] != b[i] {
            return false;
        }
        i += 1;
    }
    assert(a@ =~= b@);
    true
}

/// `std::str::from_utf8`: the text that the bytes encode, exactly where they
/// are valid UTF-8.
#[verifier::external_body]
pub(crate) fn utf8_text(bytes: &[u8]) -> (text: Option<String>)
    ensures
        text is Some <==> valid_utf8(bytes@),
        text matches Some(value) ==> value@ == decode_utf8(bytes@),
{
    match std::str::from_utf8(bytes) {
        Ok(text) => Some(text.to_owned()),
        Err(_) => None,
    }
}

/// The text that `String::from_utf8_lossy` makes of bytes.
pub uninterp spec fn lossy_of(bytes: Seq<u8>) -> Seq<char>;

/// `String::from_utf8_lossy`: the text of the bytes, with each malformed part
/// replaced. What it is follows from the bytes alone, and valid UTF-8 is kept
/// as it is. Which parts of other bytes count as malformed is left unsaid.
#[verifier::external_body]
pub(crate) fn lossy_text(bytes: &[u8]) -> (text: String)
    ensures
        text@ == lossy_of(bytes@),
        valid_utf8(bytes@) ==> text@ == decode_utf8(bytes@),
{
    String::from_utf8_lossy(bytes).into_owned()
}

pub open spec fn all_ascii(bytes: Seq<u8>) -> bool {
    forall|i: int| 0 <= i < bytes.len() ==> #[trigger] bytes[i] < 128
}

/// The characters that ASCII bytes stand for.
pub open spec fn ascii_chars(bytes: Seq<u8>) -> Seq<char> {
    Seq::new(bytes.len(), |i: int| bytes[i] as char)
}

/// ASCII bytes are valid UTF-8 and each stands for one character.
pub proof fn lemma_ascii_valid(bytes: Seq<u8>)
    requires
        all_ascii(bytes),
    ensures
        valid_utf8(bytes),
        decode_utf8(bytes) == ascii_chars(bytes),
        encode_utf8(ascii_chars(bytes)) == bytes,
{
    let chars = ascii_chars(bytes);
    assert(is_ascii_chars(chars)) by {
        assert forall|i: int| 0 <= i < chars.len() implies (chars[i] as nat) < 128 by {
            assert(bytes[i] < 128);
        }
    }
    vstd::utf8::is_ascii_chars_encode_utf8(chars);
    assert(encode_utf8(chars) =~= bytes) by {
        assert forall|i: int| 0 <= i < bytes.len() implies encode_utf8(chars)[i] == bytes[i] by {
            assert(bytes[i] < 128);
        }
    }
    vstd::utf8::encode_utf8_valid_utf8(chars);
    vstd::utf8::encode_utf8_decode_utf8(chars);
}

/// Whether two texts are equal.
pub fn same_text(a: &str, b: &str) -> (r: bool)
    ensures
        r == (a@ == b@),
{
    proof {
        vstd::utf8::encode_utf8_decode_utf8(a@);
        vstd::utf8::encode_utf8_decode_utf8(b@);
    }
    same_bytes(a.as_bytes(), b.as_bytes())
}

/// The `u64` that a text writes.
pub open spec fn number_in(text: Seq<char>) -> Option<u64> {
    unsigned_value(encode_utf8(text))
}

/// Reads the `u64` that a text writes.
pub fn read_number(text: &str) -> (value: Option<u64>)
    ensures
        value == number_in(text@),
{
    read_unsigned(text.as_bytes())
}

} // verus!
