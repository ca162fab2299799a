//! The escaping of property values: how raw text is decoded into the text it
//! stands for, and how text is encoded to be stored as a value.
//!
//! Each rule is a replacement of the matches of a regular expression, which the
//! `regex` crate makes.

use vstd::prelude::*;

verus! {

/// A soft line break: a backslash and the line break behind it.
pub const SOFT_LINE_BREAK: &'static str = r"\\(\r\n|\n\r|\n|\r)";

/// An escaped character: a backslash and the character behind it.
pub const ESCAPED: &'static str = r"\\(.)";

/// A line break, in each of its four forms.
pub const LINE_BREAK: &'static str = r"\r\n|\n\r|\n|\r";

/// A character that is escaped in a value: `]`, `\` or `:`.
pub const SPECIAL: &'static str = r"([\]\\:])";

/// Whether `regex::Regex::new` compiles `pattern`.
pub uninterp spec fn regex_compiles(pattern: Seq<char>) -> bool;

/// What `regex::Regex::replace_all` gives for the regular expression compiled
/// from `pattern`, the text `haystack` and the replacement `rep`.
pub uninterp spec fn regex_replace_all(
    pattern: Seq<char>,
    haystack: Seq<char>,
    rep: Seq<char>,
) -> Seq<char>;

/// Compiles `pattern` with `regex::Regex::new` and, where it compiles, replaces
/// with `regex::Regex::replace_all` every match in `haystack` by `rep`, in which
/// `$1` stands for what the first group matched. Nothing is claimed of what a
/// pattern matches: whether it compiles and what comes out are only named, as
/// what the two functions give for these arguments.
#[verifier::external_body]
fn replace_all(pattern: &str, haystack: &str, rep: &str) -> (out: Option<String>)
    ensures
        out is Some <==> regex_compiles(pattern@),
        out matches Some(text) ==> text@ == regex_replace_all(pattern@, haystack@, rep@),
{
    match regex::Regex::new(pattern) {
        Ok(re) => Some(re.replace_all(haystack, rep).into_owned()),
        Err(_) => None,
    }
}

/// The text with every match of `pattern` replaced by `rep`; the text itself
/// where the pattern is no regular expression.
pub open spec fn replaced(pattern: Seq<char>, text: Seq<char>, rep: Seq<char>) -> Seq<char> {
    if regex_compiles(pattern) {
        regex_replace_all(pattern, text, rep)
    } else {
        text
    }
}

/// What a replacement gave, or the text itself where it gave nothing.
pub fn or_unchanged(outcome: Option<String>, text: &str) -> (out: String)
    ensures
        out@ == match outcome {
            Some(changed) => changed@,
            None => text@,
        },
{
    match outcome {
        Some(changed) => changed,
        None => text.to_owned(),
    }
}

/// Replaces every match of `pattern` in `text` by `rep`.
pub fn replace(pattern: &str, text: &str, rep: &str) -> (out: String)
    ensures
        out@ == replaced(pattern@, text@, rep@),
{
    or_unchanged(replace_all(pattern, text, rep), text)
}

/// Raw text without its soft line breaks.
pub open spec fn unwrapped(raw: Seq<char>) -> Seq<char> {
    replaced(SOFT_LINE_BREAK@, raw, ""@)
}

/// The text that a raw value stands for: first the soft line breaks are taken
/// out, then each escaped character that is left stands for itself.
pub open spec fn decoded_text(raw: Seq<char>) -> Seq<char> {
    replaced(ESCAPED@, unwrapped(raw), "$1"@)
}

/// The one line that a raw value stands for: the decoded text with a space in
/// place of each line break.
pub open spec fn decoded_simple_text(raw: Seq<char>) -> Seq<char> {
    replaced(LINE_BREAK@, decoded_text(raw), " "@)
}

/// The raw value for a text: a backslash goes before each of `]`, `\` and `:`.
pub open spec fn encoded_text(text: Seq<char>) -> Seq<char> {
    replaced(SPECIAL@, text, "\\$1"@)
}

/// Decodes a raw value as text.
pub fn decode_text(s: &str) -> (out: String)
    ensures
        out@ == decoded_text(s@),
{
    let unwrapped = replace(SOFT_LINE_BREAK, s, "");
    replace(ESCAPED, unwrapped.as_str(), "$1")
}

/// Decodes a raw value as text of one line.
pub fn decode_simple_text(s: &str) -> (out: String)
    ensures
        out@ == decoded_simple_text(s@),
{
    let text = decode_text(s);
    replace(LINE_BREAK, text.as_str(), " ")
}

/// Encodes a text as a raw value.
pub fn encode_text(s: &str) -> (out: String)
    ensures
        out@ == encoded_text(s@),
{
    replace(SPECIAL, s, "\\$1")
}

} // verus!
