//! Numbers in the texts that operators read.
use vstd::prelude::*;

verus! {

/// The digit of a value below sixteen.
pub open spec fn digit_char(value: nat) -> char {
    if value < 10 {
        (48 + value) as char
    } else {
        (87 + value) as char
    }
}

/// The canonical digits of a number to a base up to sixteen.
pub open spec fn based_text(value: nat, base: nat) -> Seq<char>
    decreases value,
{
    if base < 2 || value < base {
        seq![digit_char(value)]
    } else {
        proof {
            assert(value / base < value) by (nonlinear_arith)
                requires
                    base >= 2,
                    value >= base,
            ;
        }
        based_text(value / base, base).push(digit_char(value % base))
    }
}

/// The decimal digits of a number.
pub open spec fn number_text(value: nat) -> Seq<char> {
    based_text(value, 10)
}

/// The lowercase hexadecimal digits of a number.
pub open spec fn hex_text(value: nat) -> Seq<char> {
    based_text(value, 16)
}

/// The decimal digits of a signed number.
pub open spec fn signed_text(value: int) -> Seq<char> {
    if value < 0 {
        "-"@ + number_text((-value) as nat)
    } else {
        number_text(value as nat)
    }
}

/// The digit of a value below sixteen.
pub(crate) fn digit_text(value: u64) -> (text: &'static str)
    requires
        value < 16,
    ensures
        text@ == seq![digit_char(value as nat)],
{
    proof {
        reveal_strlit("0");
        reveal_strlit("1");
        reveal_strlit("2");
        reveal_strlit("3");
        reveal_strlit("4");
        reveal_strlit("5");
        reveal_strlit("6");
        reveal_strlit("7");
        reveal_strlit("8");
        reveal_strlit("9");
        reveal_strlit("a");
        reveal_strlit("b");
        reveal_strlit("c");
        reveal_strlit("d");
        reveal_strlit("e");
        reveal_strlit("f");
    }
    match value {
        0 => "0",
        1 => "1",
        2 => "2",
        3 => "3",
        4 => "4",
        5 => "5",
        6 => "6",
        7 => "7",
        8 => "8",
        9 => "9",
        10 => "a",
        11 => "b",
        12 => "c",
        13 => "d",
        14 => "e",
        _ => "f",
    }
}

/// Appends the digits of a number to a base.
fn append_based(text: &mut String, value: u64, base: u64)
    requires
        2 <= base <= 16,
    ensures
        final(text)@ == old(text)@ + based_text(value as nat, base as nat),
    decreases value,
{
    let ghost before = text@;
    if value >= base {
        assert(value / base < value) by (nonlinear_arith)
            requires
                base >= 2,
                value >= base,
        ;
        append_based(text, value / base, base);
        text.append(digit_text(value % base));
    } else {
        text.append(digit_text(value));
    }
    assert(text@ =~= before + based_text(value as nat, base as nat));
}

/// Appends the decimal digits of a number.
pub fn append_number(text: &mut String, value: u64)
    ensures
        final(text)@ == old(text)@ + number_text(value as nat),
{
    append_based(text, value, 10);
}

/// Appends the lowercase hexadecimal digits of a number.
pub fn append_hex(text: &mut String, value: u64)
    ensures
        final(text)@ == old(text)@ + hex_text(value as nat),
{
    append_based(text, value, 16);
}

/// Appends the decimal digits of a signed number.
pub fn append_signed(text: &mut String, value: i64)
    ensures
        final(text)@ == old(text)@ + signed_text(value as int),
{
    let ghost before = text@;
    if value < 0 {
        text.append("-");
        let magnitude: u64 = if value == i64::MIN {
            0x8000_0000_0000_0000
        } else {
            (-value) as u64
        };
        append_number(text, magnitude);
        assert(text@ =~= before + signed_text(value as int));
    } else {
        append_number(text, value as u64);
    }
}

} // verus!
