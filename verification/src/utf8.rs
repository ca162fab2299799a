//! Byte-level facts about UTF-8 text and the few string operations built on them.

use vstd::prelude::*;
use vstd::string::StringSliceAdditionalSpecFns;
use vstd::utf8::*;

verus! {

/// The text that the bytes from `start` up to `end` encode.
pub open spec fn text_between(bytes: Seq<u8>, start: int, end: int) -> Seq<char> {
    decode_utf8(bytes.subrange(start, end))
}

/// The width in bytes of the character whose encoding starts at `pos`.
pub open spec fn char_width_at(bytes: Seq<u8>, pos: int) -> int {
    length_of_first_scalar(bytes.subrange(pos, bytes.len() as int))
}

/// A character boundary before the end is followed by a whole character, and the
/// position behind that character is a boundary again.
pub proof fn lemma_boundary_step(bytes: Seq<u8>, pos: int)
    requires
        valid_utf8(bytes),
        is_char_boundary(bytes, pos),
        0 <= pos < bytes.len(),
    ensures
        1 <= char_width_at(bytes, pos) <= 4,
        pos + char_width_at(bytes, pos) <= bytes.len(),
        is_char_boundary(bytes, pos + char_width_at(bytes, pos)),
    decreases bytes.len(),
{
    let k = length_of_first_scalar(bytes);
    if pos == 0 {
        assert(bytes.subrange(0, bytes.len() as int) =~= bytes);
        is_char_boundary_start_end_of_seq(pop_first_scalar(bytes));
        reveal_with_fuel(is_char_boundary, 2);
    } else {
        reveal_with_fuel(is_char_boundary, 2);
        let rest = pop_first_scalar(bytes);
        assert(is_char_boundary(rest, pos - k));
        assert(pos - k >= 0) by {
            if pos - k < 0 {
                assert(!is_char_boundary(rest, pos - k));
            }
        }
        assert(pos - k < rest.len()) by {
            if pos - k == rest.len() {
            }
        }
        lemma_boundary_step(rest, pos - k);
        assert(rest.subrange(pos - k, rest.len() as int) =~= bytes.subrange(
            pos,
            bytes.len() as int,
        ));
    }
}

/// A position that holds an ASCII byte is a character boundary, and so is the next.
pub proof fn lemma_ascii_boundary(bytes: Seq<u8>, pos: int)
    requires
        valid_utf8(bytes),
        0 <= pos < bytes.len(),
        bytes[pos] <= 0x7f,
    ensures
        is_char_boundary(bytes, pos),
        is_char_boundary(bytes, pos + 1),
        char_width_at(bytes, pos) == 1,
{
    is_char_boundary_iff_not_is_continuation_byte(bytes, pos);
    lemma_boundary_step(bytes, pos);
}

/// Between two boundaries of valid text lies valid text, and the start of the
/// span is a boundary of the prefix that ends where the span ends.
pub proof fn lemma_span_valid(bytes: Seq<u8>, start: int, end: int)
    requires
        valid_utf8(bytes),
        is_char_boundary(bytes, start),
        is_char_boundary(bytes, end),
        0 <= start <= end <= bytes.len(),
    ensures
        valid_utf8(bytes.subrange(0, end)),
        is_char_boundary(bytes.subrange(0, end), start),
        valid_utf8(bytes.subrange(start, end)),
{
    let prefix = bytes.subrange(0, end);
    valid_utf8_split(bytes, end);
    if start == end {
        is_char_boundary_start_end_of_seq(prefix);
    } else {
        is_char_boundary_iff_not_is_continuation_byte(bytes, start);
        is_char_boundary_iff_not_is_continuation_byte(prefix, start);
    }
    valid_utf8_split(prefix, start);
    assert(prefix.subrange(start, prefix.len() as int) =~= bytes.subrange(start, end));
}

/// The bytes of a string determine its characters.
pub proof fn lemma_bytes_determine_text(a: Seq<char>, b: Seq<char>)
    requires
        encode_utf8(a) == encode_utf8(b),
    ensures
        a == b,
{
    encode_utf8_decode_utf8(a);
    encode_utf8_decode_utf8(b);
}

/// Valid text that is not empty starts with a character: the one that its first
/// bytes encode.
pub proof fn lemma_first_char(bytes: Seq<u8>)
    requires
        valid_utf8(bytes),
        bytes.len() > 0,
    ensures
        decode_utf8(bytes).len() >= 1,
        decode_utf8(bytes)[0] == decode_first_scalar(bytes) as char,
{
}

/// The width in bytes of a character, from the first byte of its encoding.
pub fn char_width(first: u8) -> (width: usize)
    ensures
        1 <= width <= 4,
        forall|bytes: Seq<u8>, pos: int|
            0 <= pos < bytes.len() && bytes[pos] == first ==> #[trigger] char_width_at(bytes, pos)
                == width,
{
    if first <= 0x7f {
        1
    } else if 0xc0 <= first && first <= 0xdf {
        2
    } else if 0xe0 <= first && first <= 0xef {
        3
    } else {
        4
    }
}

/// The character whose encoding starts at the boundary `pos`, and the position
/// behind it.
pub fn char_range_at(s: &str, pos: usize) -> (r: (char, usize))
    requires
        pos < s.spec_bytes().len(),
        is_char_boundary(s.spec_bytes(), pos as int),
    ensures
        r.0 == text_between(s.spec_bytes(), pos as int, s.spec_bytes().len() as int)[0],
        r.1 == pos + char_width_at(s.spec_bytes(), pos as int),
        r.1 <= s.spec_bytes().len(),
{
    let bytes = s.as_bytes();
    proof {
        encode_utf8_valid_utf8(s@);
        lemma_boundary_step(bytes@, pos as int);
        valid_utf8_split(bytes@, pos as int);
        lemma_first_char(bytes@.subrange(pos as int, bytes@.len() as int));
    }
    let (_, rest) = s.split_at(pos);
    proof {
        encode_utf8_decode_utf8(rest@);
    }
    let c = rest.get_char(0);
    (c, pos + char_width(bytes[pos]))
}

/// Copies the text between two character boundaries of `input`.
pub fn substring(input: &str, start: usize, end: usize) -> (out: String)
    requires
        start <= end <= input.spec_bytes().len(),
        is_char_boundary(input.spec_bytes(), start as int),
        is_char_boundary(input.spec_bytes(), end as int),
    ensures
        out@ == text_between(input.spec_bytes(), start as int, end as int),
{
    proof {
        encode_utf8_valid_utf8(input@);
        lemma_span_valid(input.spec_bytes(), start as int, end as int);
    }
    let (prefix, _) = input.split_at(end);
    let (_, middle) = prefix.split_at(start);
    proof {
        assert(middle.spec_bytes() =~= input.spec_bytes().subrange(start as int, end as int));
        encode_utf8_decode_utf8(middle@);
    }
    middle.to_owned()
}

/// Whether two strings hold the same characters.
pub fn str_eq(a: &str, b: &str) -> (same: bool)
    ensures
        same == (a@ == b@),
{
    let x = a.as_bytes();
    let y = b.as_bytes();
    if x.len() != y.len() {
        return false;
    }
    let mut i: usize = 0;
    while i < x.len()
        invariant
            x@.len() == y@.len(),
            0 <= i <= x@.len(),
            x@ == a.spec_bytes(),
            y@ == b.spec_bytes(),
            forall|j: int| 0 <= j < i ==> x@[j] == y@[j],
        decreases x@.len() - i,
    {
        if x[i] != y[i] {
            return false;
        }
        i += 1;
    }
    proof {
        assert(x@ =~= y@);
        lemma_bytes_determine_text(a@, b@);
    }
    true
}

} // verus!
