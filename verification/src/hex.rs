//! Hexadecimal digits: reading a number from them and writing one out.

use vstd::prelude::*;
use vstd::string::StringExecFns;

verus! {

/// Whether `c` is one of `0`-`9`, `a`-`f`, `A`-`F`.
pub open spec fn is_hex_digit(c: char) -> bool {
    ('0' <= c && c <= '9') || ('a' <= c && c <= 'f') || ('A' <= c && c <= 'F')
}

/// The number that a hexadecimal digit stands for.
pub open spec fn digit_value(c: char) -> nat {
    if '0' <= c && c <= '9' {
        (c as u8 - '0' as u8) as nat
    } else if 'a' <= c && c <= 'f' {
        (c as u8 - 'a' as u8 + 10) as nat
    } else {
        (c as u8 - 'A' as u8 + 10) as nat
    }
}

/// The digit, in upper case, that stands for a number below 16.
pub open spec fn digit_char(d: nat) -> char {
    if d == 0 {
        '0'
    } else if d == 1 {
        '1'
    } else if d == 2 {
        '2'
    } else if d == 3 {
        '3'
    } else if d == 4 {
        '4'
    } else if d == 5 {
        '5'
    } else if d == 6 {
        '6'
    } else if d == 7 {
        '7'
    } else if d == 8 {
        '8'
    } else if d == 9 {
        '9'
    } else if d == 10 {
        'A'
    } else if d == 11 {
        'B'
    } else if d == 12 {
        'C'
    } else if d == 13 {
        'D'
    } else if d == 14 {
        'E'
    } else {
        'F'
    }
}

/// Whether `digits` holds hexadecimal digits only.
pub open spec fn all_hex(digits: Seq<char>) -> bool {
    forall|i: int| 0 <= i < digits.len() ==> is_hex_digit(#[trigger] digits[i])
}

/// The number that `digits` stands for, the first digit weighing most.
pub open spec fn hex_value(digits: Seq<char>) -> nat
    decreases digits.len(),
{
    if digits.len() == 0 {
        0
    } else {
        hex_value(digits.drop_last()) * 16 + digit_value(digits.last())
    }
}

/// `value` in upper-case hexadecimal digits, with zeros in front of it up to
/// `width` digits, and one digit at least.
pub open spec fn hex_digits(value: nat, width: nat) -> Seq<char>
    decreases value, width,
{
    if value < 16 && width <= 1 {
        seq![digit_char(value)]
    } else {
        hex_digits(
            value / 16,
            if width == 0 {
                0
            } else {
                (width - 1) as nat
            },
        ).push(digit_char(value % 16))
    }
}

/// `digits` with its letters in upper case.
pub open spec fn upper_hex(digits: Seq<char>) -> Seq<char> {
    digits.map_values(|c: char| digit_char(digit_value(c)))
}

/// How many numbers can be written in `width` digits: 16 to the power of
/// `width`.
pub open spec fn numbers_in(width: nat) -> nat
    decreases width,
{
    if width == 0 {
        1
    } else {
        16 * numbers_in((width - 1) as nat)
    }
}

/// A digit that was written out is read as the number it was written for.
pub proof fn lemma_digit_round_trip(d: nat)
    requires
        d < 16,
    ensures
        is_hex_digit(digit_char(d)),
        digit_value(digit_char(d)) == d,
{
}

/// A number that fits in `width` digits is written in exactly that many,
/// and is read back from them.
pub proof fn lemma_hex_digits_read_back(value: nat, width: nat)
    requires
        width >= 1,
        value < numbers_in(width),
    ensures
        hex_digits(value, width).len() == width,
        all_hex(hex_digits(value, width)),
        hex_value(hex_digits(value, width)) == value,
    decreases width,
{
    lemma_digit_round_trip(value % 16);
    if width == 1 {
        assert(numbers_in(1) == 16) by {
            assert(numbers_in(0) == 1);
        }
        let digits = seq![digit_char(value)];
        assert(digits.drop_last().len() == 0);
        assert(hex_value(digits.drop_last()) == 0);
        assert(digits.last() == digit_char(value));
    } else {
        let front = hex_digits(value / 16, (width - 1) as nat);
        let last = digit_char(value % 16);
        lemma_hex_digits_read_back(value / 16, (width - 1) as nat);
        let digits = front.push(last);
        assert(hex_digits(value, width) == digits);
        assert(digits.drop_last() == front);
        assert(digits.last() == last);
        assert forall|i: int| 0 <= i < digits.len() implies is_hex_digit(#[trigger] digits[i]) by {
            if i < front.len() {
                assert(digits[i] == front[i]);
            }
        }
    }
}

/// A number does not shrink when digits follow it.
pub proof fn lemma_hex_value_prefix(front: Seq<char>, back: Seq<char>)
    ensures
        hex_value(front) <= hex_value(front + back),
    decreases back.len(),
{
    if back.len() == 0 {
        assert(front + back == front);
    } else {
        lemma_hex_value_prefix(front, back.drop_last());
        assert((front + back).drop_last() == front + back.drop_last());
    }
}

/// Writing out what was read from `digits`, at their width, gives them back
/// in upper case.
pub proof fn lemma_hex_round_trip(digits: Seq<char>)
    requires
        digits.len() > 0,
        all_hex(digits),
    ensures
        hex_digits(hex_value(digits), digits.len()) == upper_hex(digits),
    decreases digits.len(),
{
    let value = hex_value(digits);
    let front = digits.drop_last();
    let last = digits.last();
    assert(is_hex_digit(last));
    assert(digit_value(last) < 16);
    assert(value / 16 == hex_value(front) && value % 16 == digit_value(last));
    if digits.len() == 1 {
        assert(front.len() == 0);
        assert(hex_value(front) == 0);
        assert(hex_digits(value, 1) =~= upper_hex(digits));
    } else {
        assert forall|i: int| 0 <= i < front.len() implies is_hex_digit(#[trigger] front[i]) by {
            assert(front[i] == digits[i]);
        }
        lemma_hex_round_trip(front);
        assert(upper_hex(front).push(digit_char(digit_value(last))) =~= upper_hex(digits));
    }
}

/// The digit that a byte stands for, if it is the code of one.
pub fn digit_of(byte: u8) -> (digit: Option<u8>)
    ensures
        match digit {
            Some(d) => byte < 128 && is_hex_digit(byte as char) && d == digit_value(byte as char),
            None => byte >= 128 || !is_hex_digit(byte as char),
        },
{
    if byte >= 48 && byte <= 57 {
        Some(byte - 48)
    } else if byte >= 97 && byte <= 102 {
        Some(byte - 97 + 10)
    } else if byte >= 65 && byte <= 70 {
        Some(byte - 65 + 10)
    } else {
        None
    }
}

/// The upper-case digit for a number below 16, as a string.
pub fn digit_str(d: u64) -> (digit: &'static str)
    requires
        d < 16,
    ensures
        digit@ == seq![digit_char(d as nat)],
{
    proof {
        reveal_strlit("0");
        reveal_strlit("1");
        reveal_strlit("2");
        reveal_strlit("3");
        reveal_strlit("4");
        reveal_strlit("5");
        reveal_strlit("6");
        reveal_strlit("7");
        reveal_strlit("8");
        reveal_strlit("9");
        reveal_strlit("A");
        reveal_strlit("B");
        reveal_strlit("C");
        reveal_strlit("D");
        reveal_strlit("E");
        reveal_strlit("F");
    }
    let digit = if d == 0 {
        "0"
    } else if d == 1 {
        "1"
    } else if d == 2 {
        "2"
    } else if d == 3 {
        "3"
    } else if d == 4 {
        "4"
    } else if d == 5 {
        "5"
    } else if d == 6 {
        "6"
    } else if d == 7 {
        "7"
    } else if d == 8 {
        "8"
    } else if d == 9 {
        "9"
    } else if d == 10 {
        "A"
    } else if d == 11 {
        "B"
    } else if d == 12 {
        "C"
    } else if d == 13 {
        "D"
    } else if d == 14 {
        "E"
    } else {
        "F"
    };
    assert(digit@ =~= seq![digit_char(d as nat)]);
    digit
}

/// Appends `value` to `out` in upper-case hexadecimal digits, with zeros in
/// front of it up to `width` digits.
pub fn push_hex(out: &mut String, value: u64, width: usize)
    ensures
        final(out)@ == old(out)@ + hex_digits(value as nat, width as nat),
    decreases value, width,
{
    if value < 16 && width <= 1 {
        out.append(digit_str(value));
    } else {
        let narrower = if width == 0 {
            0
        } else {
            width - 1
        };
        push_hex(out, value / 16, narrower);
        out.append(digit_str(value % 16));
        assert(out@ =~= old(out)@ + hex_digits(value as nat, width as nat));
    }
}

} // verus!
