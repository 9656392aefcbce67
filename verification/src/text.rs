//! Small text routines that the rest of the library needs and the standard
//! library offers only without a specification: comparing two strings, and
//! reading and writing numbers in decimal.

use crate::wire::text_from_utf8;
use vstd::prelude::*;
use vstd::utf8::{encode_utf8, encode_utf8_decode_utf8, encode_utf8_valid_utf8};
use vstd::utf8::{is_ascii_chars, is_ascii_chars_encode_utf8};

verus! {

/// `c` is one of the ten decimal digits.
pub open spec fn is_digit(c: char) -> bool {
    '0' <= c <= '9'
}

/// The number that the digit `c` stands for.
pub open spec fn digit_value(c: char) -> nat
    recommends
        is_digit(c),
{
    (c as u32 - '0' as u32) as nat
}

/// The digit that stands for `d`.
pub open spec fn digit_char(d: nat) -> char
    recommends
        d < 10,
{
    (d + '0' as u32) as u8 as char
}

/// Every character of `text` is a decimal digit.
pub open spec fn all_digits(text: Seq<char>) -> bool {
    forall|i: int| 0 <= i < text.len() ==> is_digit(#[trigger] text[i])
}

/// The number that a sequence of decimal digits stands for, most significant
/// digit first.
pub open spec fn digits_value(digits: Seq<char>) -> nat
    decreases digits.len(),
{
    if digits.len() == 0 {
        0
    } else {
        digits_value(digits.drop_last()) * 10 + digit_value(digits.last())
    }
}

/// The digits of a numeral: the whole of it, after one `+` sign if there is
/// one.
pub open spec fn numeral_digits(text: Seq<char>) -> Seq<char> {
    if text.len() > 0 && text[0] == '+' {
        text.drop_first()
    } else {
        text
    }
}

/// The number that `text` is the decimal numeral of, if it is one and the
/// number is at most `max`. A numeral is at least one decimal digit, with
/// nothing before the digits but, optionally, one `+`, and nothing after them.
pub open spec fn parsed_number(text: Seq<char>, max: nat) -> Option<nat> {
    let digits = numeral_digits(text);
    if digits.len() > 0 && all_digits(digits) && digits_value(digits) <= max {
        Some(digits_value(digits))
    } else {
        None
    }
}

/// The decimal numeral of `n`: no sign, and no leading zero but for zero
/// itself.
pub open spec fn decimal(n: nat) -> Seq<char>
    decreases n,
{
    if n < 10 {
        seq![digit_char(n)]
    } else {
        decimal(n / 10).push(digit_char(n % 10))
    }
}

/// Two strings are the same text exactly if they are the same bytes.
pub fn same_text(a: &str, b: &str) -> (result: bool)
    ensures
        result == (a@ == b@),
{
    let x = a.as_bytes();
    let y = b.as_bytes();
    proof {
        encode_utf8_decode_utf8(a@);
        encode_utf8_decode_utf8(b@);
    }
    if x.len() != y.len() {
        return false;
    }
    let mut i: usize = 0;
    while i < x.len()
        invariant
            i <= x@.len(),
            x@.len() == y@.len(),
            a@ == b@ ==> x@ == y@,
            forall|j: int| 0 <= j < i ==> x@[j] == y@[j],
        decreases x@.len() - i,
    {
        if x[i] != y[i] {
            return false;
        }
        i += 1;
    }
    assert(x@ =~= y@);
    true
}

/// Reads `text` as a decimal numeral of a number no greater than `max`.
pub fn parse_number(text: &str, max: u32) -> (result: Option<u32>)
    ensures
        result is Some <==> parsed_number(text@, max as nat) is Some,
        result matches Some(n) ==> parsed_number(text@, max as nat) == Some(n as nat),
{
    if !text.is_ascii() {
        proof {
            let digits = numeral_digits(text@);
            let i = choose|i: int| 0 <= i < text@.len() && !('\0' <= #[trigger] text@[i] <= '\u{7f}');
            if digits.len() > 0 && all_digits(digits) {
                if text@[0] == '+' {
                    assert(digits[i - 1] == text@[i]);
                }
            }
        }
        return None;
    }
    let bytes = text.as_bytes();
    let start: usize = if bytes.len() > 0 && bytes[0] == 43 {
        1
    } else {
        0
    };
    let ghost digits = numeral_digits(text@);
    if start == bytes.len() {
        return None;
    }
    let mut value: u64 = 0;
    let mut over = false;
    let mut i: usize = start;
    while i < bytes.len()
        invariant
            start <= i <= bytes@.len(),
            bytes@.len() == text@.len(),
            is_ascii_chars(text@),
            forall|j: int| 0 <= j < text@.len() ==> text@[j] as u8 == #[trigger] bytes@[j],
            digits == text@.skip(start as int),
            digits == numeral_digits(text@),
            all_digits(digits.take(i - start)),
            !over ==> value == digits_value(digits.take(i - start)) && value <= max,
            over ==> digits_value(digits.take(i - start)) > max,
        decreases bytes@.len() - i,
    {
        let b = bytes[i];
        let ghost c = text@[i as int];
        assert(digits[i - start] == c);
        assert(digits.take(i - start + 1).drop_last() =~= digits.take(i - start));
        if b < 48 || b > 57 {
            return None;
        }
        if !over {
            let next: u64 = value * 10 + (b - 48) as u64;
            if next > max as u64 {
                over = true;
            } else {
                value = next;
            }
        }
        i += 1;
    }
    assert(digits.take(i - start) =~= digits);
    if over {
        None
    } else {
        Some(value as u32)
    }
}

/// Appends the decimal numeral of `n` to `out`, one byte for each digit.
fn push_decimal(n: u64, out: &mut Vec<u8>)
    ensures
        final(out)@ == old(out)@ + Seq::new(
            decimal(n as nat).len(),
            |i: int| decimal(n as nat)[i] as u8,
        ),
        is_ascii_chars(decimal(n as nat)),
    decreases n,
{
    if n >= 10 {
        push_decimal(n / 10, out);
    }
    let d: u8 = (n % 10) as u8;
    out.push(48 + d);
}

/// The decimal numeral of `n`.
pub fn decimal_text(n: u64) -> (result: String)
    ensures
        result@ == decimal(n as nat),
{
    let mut bytes: Vec<u8> = Vec::new();
    push_decimal(n, &mut bytes);
    proof {
        let numeral = decimal(n as nat);
        is_ascii_chars_encode_utf8(numeral);
        assert(bytes@ =~= encode_utf8(numeral));
        encode_utf8_valid_utf8(numeral);
        encode_utf8_decode_utf8(numeral);
    }
    match text_from_utf8(bytes) {
        Some(text) => {
            proof {
                encode_utf8_decode_utf8(text@);
            }
            text
        },
        None => String::new(),
    }
}

} // verus!
