//! Whole numbers as decimal text.

use vstd::prelude::*;

verus! {

/// `String::push` of the standard library: the string afterwards is the string
/// before with the character at its end.
pub assume_specification[ String::push ](s: &mut String, ch: char)
    ensures
        final(s)@ == old(s)@.push(ch),
;

/// Whether a character is a decimal digit.
pub open spec fn is_digit(c: char) -> bool {
    '0' <= c <= '9'
}

/// The value of a decimal digit.
pub open spec fn digit_value(c: char) -> int {
    c as int - '0' as int
}

/// The digit for a value below ten.
pub open spec fn digit_char(value: int) -> char {
    (value + '0' as int) as char
}

/// Whether every character is a decimal digit.
pub open spec fn all_digits(s: Seq<char>) -> bool {
    forall|i: int| 0 <= i < s.len() ==> is_digit(#[trigger] s[i])
}

/// The number that a run of decimal digits stands for.
pub open spec fn decimal_value(digits: Seq<char>) -> int
    decreases digits.len(),
{
    if digits.len() == 0 {
        0
    } else {
        decimal_value(digits.drop_last()) * 10 + digit_value(digits.last())
    }
}

/// The number that a text stands for: an optional sign and then digits, one at
/// least and nothing else, for a number that 32 bits with a sign can hold.
pub open spec fn number_of(text: Seq<char>) -> Option<int> {
    let signed = text.len() >= 1 && (text[0] == '-' || text[0] == '+');
    let digits = if signed {
        text.subrange(1, text.len() as int)
    } else {
        text
    };
    let value = if text.len() >= 1 && text[0] == '-' {
        -decimal_value(digits)
    } else {
        decimal_value(digits)
    };
    if digits.len() >= 1 && all_digits(digits) && i32::MIN <= value <= i32::MAX {
        Some(value)
    } else {
        None
    }
}

/// The decimal digits of a number, without leading zeros.
pub open spec fn decimal_text(n: nat) -> Seq<char>
    decreases n,
{
    if n < 10 {
        seq![digit_char(n as int)]
    } else {
        decimal_text(n / 10).push(digit_char((n % 10) as int))
    }
}

/// The decimal text of a number: a minus sign before the digits of a negative one.
pub open spec fn number_text(n: int) -> Seq<char> {
    if n < 0 {
        seq!['-'] + decimal_text((-n) as nat)
    } else {
        decimal_text(n as nat)
    }
}

/// The value of a run of digits is not negative, and a digit more does not make
/// it smaller.
pub proof fn lemma_decimal_value_grows(digits: Seq<char>)
    requires
        all_digits(digits),
    ensures
        decimal_value(digits) >= 0,
        digits.len() >= 1 ==> decimal_value(digits) >= decimal_value(digits.drop_last()),
    decreases digits.len(),
{
    if digits.len() >= 1 {
        let shorter = digits.drop_last();
        assert forall|i: int| 0 <= i < shorter.len() implies is_digit(#[trigger] shorter[i]) by {
            assert(shorter[i] == digits[i]);
        }
        lemma_decimal_value_grows(shorter);
        assert(is_digit(digits[digits.len() - 1]));
    }
}

/// The decimal digits of a number are digits, one at least, and stand for the
/// number.
pub proof fn lemma_decimal_text(n: nat)
    ensures
        decimal_text(n).len() >= 1,
        all_digits(decimal_text(n)),
        decimal_value(decimal_text(n)) == n,
    decreases n,
{
    let text = decimal_text(n);
    if n < 10 {
        assert(text.drop_last() =~= Seq::<char>::empty());
        assert(decimal_value(text.drop_last()) == 0);
        assert(text.last() == digit_char(n as int));
    } else {
        lemma_decimal_text(n / 10);
        let shorter = decimal_text(n / 10);
        assert(text.drop_last() =~= shorter);
        assert(text.last() == digit_char((n % 10) as int));
        assert forall|i: int| 0 <= i < text.len() implies is_digit(#[trigger] text[i]) by {
            if i < shorter.len() {
                assert(text[i] == shorter[i]);
            }
        }
    }
}

/// The decimal text of a number that 32 bits with a sign can hold is read back
/// as that number.
pub proof fn lemma_number_round_trip(n: int)
    requires
        i32::MIN <= n <= i32::MAX,
    ensures
        number_of(number_text(n)) == Some(n),
{
    let text = number_text(n);
    if n < 0 {
        let digits = decimal_text((-n) as nat);
        lemma_decimal_text((-n) as nat);
        assert(text[0] == '-');
        assert(text.subrange(1, text.len() as int) =~= digits);
    } else {
        lemma_decimal_text(n as nat);
        assert(is_digit(text[0]));
    }
}

/// Reads a number from decimal text.
pub fn parse_number(text: &str) -> (n: Option<i32>)
    ensures
        n matches Some(value) ==> number_of(text@) == Some(value as int),
        n is None ==> number_of(text@) is None,
{
    let len = text.unicode_len();
    if len == 0 {
        return None;
    }
    let first = text.get_char(0);
    let signed = first == '-' || first == '+';
    let negative = first == '-';
    let ghost start: int = if signed { 1 } else { 0 };
    let ghost digits = text@.subrange(start, text@.len() as int);
    let mut valid = true;
    let mut too_large = false;
    let mut value: i64 = 0;
    let mut seen: usize = 0;
    for c in it: text.chars()
        invariant
            it.seq() == text@,
            seen == it.index(),
            len == text@.len(),
            len >= 1,
            first == text@[0],
            signed == (first == '-' || first == '+'),
            start == (if signed { 1int } else { 0int }),
            digits == text@.subrange(start, text@.len() as int),
            valid == (forall|i: int| start <= i < seen ==> is_digit(#[trigger] text@[i])),
            valid && seen >= start ==> all_digits(text@.subrange(start, seen as int)),
            0 <= value <= 0x8000_0001,
            !too_large ==> value <= 0x8000_0000,
            seen < start ==> value == 0 && valid && !too_large,
            valid && !too_large && seen >= start ==> value == decimal_value(
                text@.subrange(start, seen as int),
            ),
            valid && too_large ==> seen >= start && decimal_value(
                text@.subrange(start, seen as int),
            ) > 0x8000_0000,
            !valid ==> !all_digits(digits),
    {
        if seen == 0 && signed {
        } else if valid {
            let ghost before = text@.subrange(start, seen as int);
            let ghost after = text@.subrange(start, seen + 1);
            proof {
                assert(after.drop_last() =~= before);
                assert(after.last() == c);
            }
            if '0' <= c && c <= '9' {
                proof {
                    assert forall|i: int| 0 <= i < after.len() implies is_digit(
                        #[trigger] after[i],
                    ) by {
                        assert(after[i] == text@[start + i]);
                    }
                    lemma_decimal_value_grows(after);
                }
                if !too_large {
                    let digit = (c as u32 - '0' as u32) as i64;
                    value = value * 10 + digit;
                    if value > 0x8000_0000 {
                        too_large = true;
                        value = 0x8000_0001;
                    }
                }
            } else {
                valid = false;
                proof {
                    assert(digits[seen - start] == c);
                }
            }
        }
        seen += 1;
    }
    proof {
        assert(text@.subrange(start, seen as int) =~= digits);
        assert(seen == len);
        assert(seen >= start);
        assert(valid ==> all_digits(digits));
        assert(!valid ==> !all_digits(digits));
        assert(valid && too_large ==> decimal_value(digits) > 0x8000_0000);
        assert(valid && !too_large ==> value == decimal_value(digits));
        assert(negative == (text@[0] == '-'));
        assert(signed == (text@.len() >= 1 && (text@[0] == '-' || text@[0] == '+')));
        assert(text@.subrange(0, text@.len() as int) =~= text@);
    }
    if !valid || too_large || (signed && len == 1) {
        assert(number_of(text@) is None);
        None
    } else if negative {
        let opposite: i64 = -value;
        assert(number_of(text@) == Some(opposite as int));
        Some(opposite as i32)
    } else if value > 0x7fff_ffff {
        assert(number_of(text@) is None);
        None
    } else {
        assert(number_of(text@) == Some(value as int));
        Some(value as i32)
    }
}

/// The digit for a value below ten.
pub fn digit(value: u64) -> (c: char)
    requires
        value < 10,
    ensures
        c == digit_char(value as int),
{
    if value == 0 {
        '0'
    } else if value == 1 {
        '1'
    } else if value == 2 {
        '2'
    } else if value == 3 {
        '3'
    } else if value == 4 {
        '4'
    } else if value == 5 {
        '5'
    } else if value == 6 {
        '6'
    } else if value == 7 {
        '7'
    } else if value == 8 {
        '8'
    } else {
        '9'
    }
}

/// Appends the decimal digits of `n` to `out`.
pub fn push_decimal(out: &mut String, n: u64)
    ensures
        final(out)@ == old(out)@ + decimal_text(n as nat),
    decreases n,
{
    if n >= 10 {
        push_decimal(out, n / 10);
    }
    out.push(digit(n % 10));
    proof {
        if n >= 10 {
            assert(final(out)@ =~= old(out)@ + decimal_text(n as nat));
        } else {
            assert(final(out)@ =~= old(out)@ + decimal_text(n as nat));
        }
    }
}

/// Appends the decimal text of `n` to `out`.
pub fn push_number(out: &mut String, n: i32)
    ensures
        final(out)@ == old(out)@ + number_text(n as int),
{
    if n < 0 {
        out.push('-');
        let magnitude: i64 = -(n as i64);
        push_decimal(out, magnitude as u64);
        proof {
            assert(final(out)@ =~= old(out)@ + number_text(n as int));
        }
    } else {
        push_decimal(out, n as u64);
    }
}

/// The decimal text of `n`.
pub fn number_to_string(n: i32) -> (out: String)
    ensures
        out@ == number_text(n as int),
{
    let mut out = String::new();
    push_number(&mut out, n);
    proof {
        assert(Seq::<char>::empty() + number_text(n as int) =~= number_text(n as int));
    }
    out
}

} // verus!
