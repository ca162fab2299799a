//! The message of a parse error.

use vstd::prelude::*;
use vstd::string::StringExecFns;
use crate::failure::ParseError;
use crate::number::{decimal_text, push_decimal};

verus! {

/// The hexadecimal digit for a value below sixteen.
pub open spec fn hex_digit_char(value: int) -> char {
    if value < 10 {
        (value + '0' as int) as char
    } else {
        (value - 10 + 'a' as int) as char
    }
}

/// The hexadecimal digits of a number, without leading zeros.
pub open spec fn hex_text(n: nat) -> Seq<char>
    decreases n,
{
    if n < 16 {
        seq![hex_digit_char(n as int)]
    } else {
        hex_text(n / 16).push(hex_digit_char((n % 16) as int))
    }
}

/// A character as it is shown in a message: a tab, a carriage return, a line
/// feed, a quote, a double quote and a backslash go behind a backslash, as `t`,
/// `r`, `n` and as themselves; the other characters from the space to the tilde
/// stand for themselves; any other is shown by its number, in hexadecimal
/// digits between `\u{` and `}`.
pub open spec fn escaped_char(c: char) -> Seq<char> {
    if c == '\t' {
        seq!['\\', 't']
    } else if c == '\r' {
        seq!['\\', 'r']
    } else if c == '\n' {
        seq!['\\', 'n']
    } else if c == '\'' || c == '"' || c == '\\' {
        seq!['\\', c]
    } else if ' ' <= c <= '~' {
        seq![c]
    } else {
        seq!['\\', 'u', '{'] + hex_text(c as nat) + seq!['}']
    }
}

/// The first `n` characters of a text as they are shown in a message.
pub open spec fn escaped_text(text: Seq<char>, n: nat) -> Seq<char>
    decreases n,
{
    if n == 0 {
        Seq::empty()
    } else {
        escaped_text(text, (n - 1) as nat) + escaped_char(text[n - 1])
    }
}

/// The descriptions from the second to the `n`-th, each behind a comma and
/// between backquotes.
pub open spec fn alternatives_text(expected: Seq<&'static str>, n: nat) -> Seq<char>
    decreases n,
{
    if n <= 1 {
        Seq::empty()
    } else {
        alternatives_text(expected, (n - 1) as nat) + ", `"@ + escaped_text(
            expected[n - 1]@,
            expected[n - 1]@.len(),
        ) + "`"@
    }
}

/// What was expected: the end of the input where nothing is listed, the one
/// description that is listed, or the choice among several.
pub open spec fn expected_text(expected: Seq<&'static str>) -> Seq<char> {
    if expected.len() == 0 {
        "EOF"@
    } else if expected.len() == 1 {
        "`"@ + escaped_text(expected[0]@, expected[0]@.len()) + "`"@
    } else {
        "one of `"@ + escaped_text(expected[0]@, expected[0]@.len()) + "`"@ + alternatives_text(
            expected,
            expected.len(),
        )
    }
}

/// The message of an error at the given line and column.
pub open spec fn message_text(line: nat, column: nat, expected: Seq<&'static str>) -> Seq<char> {
    "error at "@ + decimal_text(line) + ":"@ + decimal_text(column) + ": expected "@
        + expected_text(expected)
}

/// The hexadecimal digit for a value below sixteen.
pub fn hex_digit(value: u32) -> (c: char)
    requires
        value < 16,
    ensures
        c == hex_digit_char(value as int),
{
    if value < 10 {
        crate::number::digit(value as u64)
    } else if value == 10 {
        'a'
    } else if value == 11 {
        'b'
    } else if value == 12 {
        'c'
    } else if value == 13 {
        'd'
    } else if value == 14 {
        'e'
    } else {
        'f'
    }
}

/// Appends the hexadecimal digits of `n` to `out`.
pub fn push_hex(out: &mut String, n: u32)
    ensures
        final(out)@ == old(out)@ + hex_text(n as nat),
    decreases n,
{
    if n >= 16 {
        push_hex(out, n / 16);
    }
    out.push(hex_digit(n % 16));
    proof {
        assert(final(out)@ =~= old(out)@ + hex_text(n as nat));
    }
}

/// Appends a character as it is shown in a message.
pub fn push_escaped_char(out: &mut String, c: char)
    ensures
        final(out)@ == old(out)@ + escaped_char(c),
{
    if c == '\t' {
        out.push('\\');
        out.push('t');
    } else if c == '\r' {
        out.push('\\');
        out.push('r');
    } else if c == '\n' {
        out.push('\\');
        out.push('n');
    } else if c == '\'' || c == '"' || c == '\\' {
        out.push('\\');
        out.push(c);
    } else if ' ' <= c && c <= '~' {
        out.push(c);
    } else {
        out.push('\\');
        out.push('u');
        out.push('{');
        push_hex(out, c as u32);
        out.push('}');
    }
    proof {
        assert(final(out)@ =~= old(out)@ + escaped_char(c));
    }
}

/// Appends a text as it is shown in a message.
pub fn push_escaped(out: &mut String, text: &str)
    ensures
        final(out)@ == old(out)@ + escaped_text(text@, text@.len()),
{
    proof {
        assert(out@ =~= old(out)@ + escaped_text(text@, 0));
    }
    for c in it: text.chars()
        invariant
            it.seq() == text@,
            out@ == old(out)@ + escaped_text(text@, it.index() as nat),
    {
        push_escaped_char(out, c);
        proof {
            assert(out@ =~= old(out)@ + escaped_text(text@, (it.index() + 1) as nat));
        }
    }
}

/// A text as it is shown in a message.
pub fn escape_default(s: &str) -> (out: String)
    ensures
        out@ == escaped_text(s@, s@.len()),
{
    let mut out = String::new();
    push_escaped(&mut out, s);
    proof {
        assert(Seq::<char>::empty() + escaped_text(s@, s@.len()) =~= escaped_text(s@, s@.len()));
    }
    out
}

impl ParseError {
    /// The message of the error: where it is, and what was expected there.
    pub fn to_string(&self) -> (out: String)
        ensures
            out@ == message_text(self.line as nat, self.column as nat, self.expected@),
    {
        let mut out = String::new();
        out.append("error at ");
        push_decimal(&mut out, self.line as u64);
        out.append(":");
        push_decimal(&mut out, self.column as u64);
        out.append(": expected ");
        let ghost head = out@;
        proof {
            assert(head =~= "error at "@ + decimal_text(self.line as nat) + ":"@ + decimal_text(
                self.column as nat,
            ) + ": expected "@);
        }
        if self.expected.len() == 0 {
            out.append("EOF");
        } else if self.expected.len() == 1 {
            out.append("`");
            push_escaped(&mut out, self.expected[0]);
            out.append("`");
            proof {
                assert(out@ =~= head + expected_text(self.expected@));
            }
        } else {
            out.append("one of `");
            push_escaped(&mut out, self.expected[0]);
            out.append("`");
            let ghost first = out@;
            proof {
                assert(out@ =~= first + alternatives_text(self.expected@, 1));
            }
            let mut i: usize = 1;
            while i < self.expected.len()
                invariant
                    1 <= i <= self.expected@.len(),
                    out@ == first + alternatives_text(self.expected@, i as nat),
                decreases self.expected@.len() - i,
            {
                out.append(", `");
                push_escaped(&mut out, self.expected[i]);
                out.append("`");
                proof {
                    assert(out@ =~= first + alternatives_text(self.expected@, (i + 1) as nat));
                }
                i += 1;
            }
            proof {
                assert(out@ =~= head + expected_text(self.expected@));
            }
        }
        out
    }
}

} // verus!
