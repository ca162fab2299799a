//! The grammar of game records, as functions on the bytes of the input.
//!
//! ```text
//! Collection := (Ws GameTree)+
//! GameTree   := Ws "(" Sequence (Ws GameTree)* Ws ")"
//! Sequence   := Ws Node+ Ws
//! Node       := Ws ";" Property*
//! Property   := Ws PropIdent PropValue+ Ws
//! PropIdent  := [A-Z]+
//! PropValue  := Ws "[" ( "\]" | any character but "]" )* "]" Ws
//! Ws         := ( " " | tab | CR | LF | "v" )*
//! ```
//!
//! Each rule is a function of the input, the record of the furthest failure so
//! far and a position. It gives the position behind what it matched with the
//! value built from it, or nothing, and the record as the attempt leaves it. A
//! repetition takes elements until one fails and keeps those it took.

use vstd::prelude::*;
use vstd::utf8::*;
use crate::failure::{ErrorModel, Tracker};
use crate::model::{attach, chain, single, unique_keys, valued, NodeModel, PropertyModel};
use crate::utf8::{char_width_at, lemma_ascii_boundary, lemma_boundary_step, text_between};

verus! {

/// What a failed blank is described as.
pub const BLANK: &'static str = "[ \t\r\nv]";

/// What a failed upper-case letter is described as.
pub const UPPER: &'static str = "[A-Z]";

/// What a failed character of a value is described as.
pub const NOT_CLOSE: &'static str = "[^]]";

/// What a failed character of any kind is described as.
pub const CHARACTER: &'static str = "<character>";

/// What a node that binds an identifier twice is described as.
pub const DUPLICATED: &'static str = "duplicated properties";

/// The escaped closing bracket inside a value.
pub const ESCAPED_CLOSE: &'static str = "\\]";

/// A byte that the grammar skips between tokens: space, tab, carriage return,
/// line feed, and the letter `v`.
pub open spec fn is_blank(byte: u8) -> bool {
    byte == 0x20 || byte == 0x09 || byte == 0x0d || byte == 0x0a || byte == 0x76
}

/// An upper-case letter from `A` to `Z`.
pub open spec fn is_upper(byte: u8) -> bool {
    0x41 <= byte <= 0x5a
}

/// The closing bracket.
pub open spec fn is_close(byte: u8) -> bool {
    byte == 0x5d
}

/// The end of the longest run of blanks that starts at `pos`.
pub open spec fn blank_end(bytes: Seq<u8>, pos: int) -> int
    decreases bytes.len() - pos,
{
    if 0 <= pos < bytes.len() && is_blank(bytes[pos]) {
        blank_end(bytes, pos + 1)
    } else {
        pos
    }
}

/// The end of the longest run of upper-case letters that starts at `pos`.
pub open spec fn upper_end(bytes: Seq<u8>, pos: int) -> int
    decreases bytes.len() - pos,
{
    if 0 <= pos < bytes.len() && is_upper(bytes[pos]) {
        upper_end(bytes, pos + 1)
    } else {
        pos
    }
}

/// Whether the bytes at `pos` are those of `literal`.
pub open spec fn literal_at(bytes: Seq<u8>, pos: int, literal: Seq<u8>) -> bool {
    0 <= pos && pos + literal.len() <= bytes.len() && bytes.subrange(pos, pos + literal.len())
        == literal
}

/// The bytes of the grammar's literals.
pub proof fn lemma_literal_bytes()
    ensures
        encode_utf8("("@) == seq![0x28u8],
        encode_utf8(")"@) == seq![0x29u8],
        encode_utf8(";"@) == seq![0x3bu8],
        encode_utf8("["@) == seq![0x5bu8],
        encode_utf8("]"@) == seq![0x5du8],
        encode_utf8(ESCAPED_CLOSE@) == seq![0x5cu8, 0x5du8],
{
    reveal_strlit("(");
    reveal_strlit(")");
    reveal_strlit(";");
    reveal_strlit("[");
    reveal_strlit("]");
    reveal_strlit("\\]");
    is_ascii_chars_encode_utf8("("@);
    is_ascii_chars_encode_utf8(")"@);
    is_ascii_chars_encode_utf8(";"@);
    is_ascii_chars_encode_utf8("["@);
    is_ascii_chars_encode_utf8("]"@);
    is_ascii_chars_encode_utf8(ESCAPED_CLOSE@);
    assert(encode_utf8("("@) =~= seq![0x28u8]);
    assert(encode_utf8(")"@) =~= seq![0x29u8]);
    assert(encode_utf8(";"@) =~= seq![0x3bu8]);
    assert(encode_utf8("["@) =~= seq![0x5bu8]);
    assert(encode_utf8("]"@) =~= seq![0x5du8]);
    assert(encode_utf8(ESCAPED_CLOSE@) =~= seq![0x5cu8, 0x5du8]);
}

/// A run of blanks lies inside the input and ends where no blank follows.
pub proof fn lemma_blank_end(bytes: Seq<u8>, pos: int)
    ensures
        pos <= blank_end(bytes, pos),
        pos <= bytes.len() ==> blank_end(bytes, pos) <= bytes.len(),
        forall|i: int| pos <= i < blank_end(bytes, pos) ==> 0 <= i && is_blank(#[trigger] bytes[i]),
        0 <= blank_end(bytes, pos) < bytes.len() ==> !is_blank(bytes[blank_end(bytes, pos)]),
        blank_end(bytes, blank_end(bytes, pos)) == blank_end(bytes, pos),
    decreases bytes.len() - pos,
{
    if 0 <= pos < bytes.len() && is_blank(bytes[pos]) {
        lemma_blank_end(bytes, pos + 1);
    }
}

/// A run of upper-case letters lies inside the input and ends where none follows.
pub proof fn lemma_upper_end(bytes: Seq<u8>, pos: int)
    ensures
        pos <= upper_end(bytes, pos),
        pos <= bytes.len() ==> upper_end(bytes, pos) <= bytes.len(),
        forall|i: int| pos <= i < upper_end(bytes, pos) ==> 0 <= i && is_upper(#[trigger] bytes[i]),
        0 <= upper_end(bytes, pos) < bytes.len() ==> !is_upper(bytes[upper_end(bytes, pos)]),
        pos < upper_end(bytes, pos) ==> 0 <= pos,
    decreases bytes.len() - pos,
{
    if 0 <= pos < bytes.len() && is_upper(bytes[pos]) {
        lemma_upper_end(bytes, pos + 1);
    }
}

/// `Ws`: skips a run of blanks. It always matches; the blank that was missing at
/// its end is recorded.
pub open spec fn skip_blank(bytes: Seq<u8>, t: Tracker, pos: int) -> (int, Tracker) {
    let end = blank_end(bytes, pos);
    (end, t.mark(end as nat, BLANK@))
}

/// A literal: matches the text itself, and is described by it where it fails.
pub open spec fn literal(bytes: Seq<u8>, t: Tracker, pos: int, text: Seq<char>) -> (
    Option<int>,
    Tracker,
) {
    if literal_at(bytes, pos, encode_utf8(text)) {
        (Some(pos + encode_utf8(text).len()), t)
    } else {
        (None, t.mark(pos as nat, text))
    }
}

/// Any one character: matches before the end of the input.
pub open spec fn any_char(bytes: Seq<u8>, t: Tracker, pos: int) -> (Option<int>, Tracker) {
    if 0 <= pos < bytes.len() {
        (Some(pos + char_width_at(bytes, pos)), t)
    } else {
        (None, t.mark(pos as nat, CHARACTER@))
    }
}

/// `PropIdent`: one or more upper-case letters, as many as there are.
pub open spec fn prop_ident(bytes: Seq<u8>, t: Tracker, pos: int) -> (
    Option<(int, Seq<char>)>,
    Tracker,
) {
    let end = upper_end(bytes, pos);
    let t1 = t.mark(end as nat, UPPER@);
    if end > pos {
        (Some((end, text_between(bytes, pos, end))), t1)
    } else {
        (None, t1)
    }
}

/// The inside of a value: escaped closing brackets and characters other than the
/// closing bracket, as many as there are. A character is at most four bytes wide.
pub open spec fn value_end(bytes: Seq<u8>, t: Tracker, pos: int) -> (int, Tracker)
    decreases bytes.len() + 4 - pos,
    via value_end_terminates
{
    let (escaped, t1) = literal(bytes, t, pos, ESCAPED_CLOSE@);
    match escaped {
        Some(next) => value_end(bytes, t1, next),
        None => {
            if 0 <= pos < bytes.len() && !is_close(bytes[pos]) {
                value_end(bytes, t1, pos + char_width_at(bytes, pos))
            } else {
                (pos, t1.mark(pos as nat, NOT_CLOSE@))
            }
        },
    }
}

#[via_fn]
proof fn value_end_terminates(bytes: Seq<u8>, t: Tracker, pos: int) {
    lemma_literal_bytes();
}

/// `PropValue`: a value in brackets, with blanks around it. The value is the
/// text between the brackets as it stands, escapes included.
pub open spec fn prop_value(bytes: Seq<u8>, t: Tracker, pos: int) -> (
    Option<(int, Seq<char>)>,
    Tracker,
) {
    let (at1, t1) = skip_blank(bytes, t, pos);
    let (open, t2) = literal(bytes, t1, at1, "["@);
    match open {
        None => (None, t2),
        Some(at2) => {
            let (at3, t3) = value_end(bytes, t2, at2);
            let (close, t4) = literal(bytes, t3, at3, "]"@);
            match close {
                None => (None, t4),
                Some(at4) => {
                    let (at5, t5) = skip_blank(bytes, t4, at4);
                    (Some((at5, text_between(bytes, at2, at3))), t5)
                },
            }
        },
    }
}

/// The inside of a value ends at or behind its start.
pub proof fn lemma_value_end_grows(bytes: Seq<u8>, t: Tracker, pos: int)
    ensures
        pos <= value_end(bytes, t, pos).0,
    decreases bytes.len() + 4 - pos,
{
    lemma_literal_bytes();
    let (escaped, t1) = literal(bytes, t, pos, ESCAPED_CLOSE@);
    match escaped {
        Some(next) => {
            lemma_value_end_grows(bytes, t1, next);
        },
        None => {
            if 0 <= pos < bytes.len() && !is_close(bytes[pos]) {
                lemma_value_end_grows(bytes, t1, pos + char_width_at(bytes, pos));
            }
        },
    }
}

/// In valid text the inside of a value ends on a character boundary: at a closing
/// bracket or at the end of the input.
pub proof fn lemma_value_end(bytes: Seq<u8>, t: Tracker, pos: int)
    requires
        valid_utf8(bytes),
        0 <= pos <= bytes.len(),
        is_char_boundary(bytes, pos),
    ensures
        pos <= value_end(bytes, t, pos).0 <= bytes.len(),
        is_char_boundary(bytes, value_end(bytes, t, pos).0),
        value_end(bytes, t, pos).0 < bytes.len() ==> is_close(bytes[value_end(bytes, t, pos).0]),
    decreases bytes.len() + 4 - pos,
{
    lemma_literal_bytes();
    let (escaped, t1) = literal(bytes, t, pos, ESCAPED_CLOSE@);
    match escaped {
        Some(next) => {
            assert(bytes.subrange(pos, pos + 2)[1] == 0x5d);
            lemma_ascii_boundary(bytes, pos + 1);
            lemma_value_end(bytes, t1, next);
        },
        None => {
            if 0 <= pos < bytes.len() && !is_close(bytes[pos]) {
                lemma_boundary_step(bytes, pos);
                lemma_value_end(bytes, t1, pos + char_width_at(bytes, pos));
            }
        },
    }
}

/// A value that matched took at least its brackets, and lies inside the input.
pub proof fn lemma_prop_value_advances(bytes: Seq<u8>, t: Tracker, pos: int)
    ensures
        prop_value(bytes, t, pos).0 matches Some((next, _)) ==> 0 <= pos < next <= bytes.len(),
{
    lemma_literal_bytes();
    lemma_blank_end(bytes, pos);
    let (at1, t1) = skip_blank(bytes, t, pos);
    let (open, t2) = literal(bytes, t1, at1, "["@);
    if let Some(at2) = open {
        lemma_value_end_grows(bytes, t2, at2);
        let (at3, t3) = value_end(bytes, t2, at2);
        let (close, t4) = literal(bytes, t3, at3, "]"@);
        if let Some(at4) = close {
            lemma_blank_end(bytes, at4);
        }
    }
}

/// `PropValue*`: the values taken, the position behind the last, and the record
/// after the attempt that ended the repetition.
pub open spec fn prop_values(bytes: Seq<u8>, t: Tracker, pos: int) -> (
    Seq<Seq<char>>,
    int,
    Tracker,
)
    decreases bytes.len() - pos,
    via prop_values_terminates
{
    let (value, t1) = prop_value(bytes, t, pos);
    match value {
        Some((next, text)) => {
            let (rest, end, t2) = prop_values(bytes, t1, next);
            (seq![text] + rest, end, t2)
        },
        None => (Seq::empty(), pos, t1),
    }
}

#[via_fn]
proof fn prop_values_terminates(bytes: Seq<u8>, t: Tracker, pos: int) {
    lemma_prop_value_advances(bytes, t, pos);
}

/// A repetition of values ends at or behind its start, and inside the input
/// where it took any.
pub proof fn lemma_prop_values_bounds(bytes: Seq<u8>, t: Tracker, pos: int)
    ensures
        pos <= prop_values(bytes, t, pos).1,
        prop_values(bytes, t, pos).0.len() >= 1 ==> 0 <= pos && prop_values(bytes, t, pos).1
            <= bytes.len(),
    decreases bytes.len() - pos,
{
    lemma_prop_value_advances(bytes, t, pos);
    let (value, t1) = prop_value(bytes, t, pos);
    if let Some((next, text)) = value {
        lemma_prop_values_bounds(bytes, t1, next);
    }
}

/// `Property`: an identifier and its values, one at least, with blanks around.
pub open spec fn property(bytes: Seq<u8>, t: Tracker, pos: int) -> (
    Option<(int, PropertyModel)>,
    Tracker,
) {
    let (at1, t1) = skip_blank(bytes, t, pos);
    let (ident, t2) = prop_ident(bytes, t1, at1);
    match ident {
        None => (None, t2),
        Some((at2, name)) => {
            let (values, at3, t3) = prop_values(bytes, t2, at2);
            if values.len() >= 1 {
                let (at4, t4) = skip_blank(bytes, t3, at3);
                (Some((at4, (name, values))), t4)
            } else {
                (None, t3)
            }
        },
    }
}

/// A property that matched took at least its identifier, lies inside the input,
/// and has a value.
pub proof fn lemma_property_advances(bytes: Seq<u8>, t: Tracker, pos: int)
    ensures
        property(bytes, t, pos).0 matches Some((next, p)) ==> 0 <= pos < next <= bytes.len()
            && p.1.len() >= 1,
{
    lemma_blank_end(bytes, pos);
    let (at1, t1) = skip_blank(bytes, t, pos);
    lemma_upper_end(bytes, at1);
    let (ident, t2) = prop_ident(bytes, t1, at1);
    if let Some((at2, name)) = ident {
        lemma_prop_values_bounds(bytes, t2, at2);
        let (values, at3, t3) = prop_values(bytes, t2, at2);
        lemma_blank_end(bytes, at3);
    }
}

/// `Property*`.
pub open spec fn properties(bytes: Seq<u8>, t: Tracker, pos: int) -> (
    Seq<PropertyModel>,
    int,
    Tracker,
)
    decreases bytes.len() - pos,
    via properties_terminates
{
    let (prop, t1) = property(bytes, t, pos);
    match prop {
        Some((next, p)) => {
            let (rest, end, t2) = properties(bytes, t1, next);
            (seq![p] + rest, end, t2)
        },
        None => (Seq::empty(), pos, t1),
    }
}

#[via_fn]
proof fn properties_terminates(bytes: Seq<u8>, t: Tracker, pos: int) {
    lemma_property_advances(bytes, t, pos);
}

/// A repetition of properties ends at or behind its start, inside the input
/// where the start is, and each property it took has a value.
pub proof fn lemma_properties_bounds(bytes: Seq<u8>, t: Tracker, pos: int)
    ensures
        pos <= properties(bytes, t, pos).1,
        pos <= bytes.len() ==> properties(bytes, t, pos).1 <= bytes.len(),
        valued(properties(bytes, t, pos).0),
    decreases bytes.len() - pos,
{
    lemma_property_advances(bytes, t, pos);
    let (prop, t1) = property(bytes, t, pos);
    if let Some((next, p)) = prop {
        lemma_properties_bounds(bytes, t1, next);
    }
}

/// `Node`: a semicolon and the properties behind it. A node that binds an
/// identifier twice fails behind its properties, as duplicated.
pub open spec fn node(bytes: Seq<u8>, t: Tracker, pos: int) -> (Option<(int, NodeModel)>, Tracker) {
    let (at1, t1) = skip_blank(bytes, t, pos);
    let (semicolon, t2) = literal(bytes, t1, at1, ";"@);
    match semicolon {
        None => (None, t2),
        Some(at2) => {
            let (props, at3, t3) = properties(bytes, t2, at2);
            if unique_keys(props) {
                (Some((at3, single(props))), t3)
            } else {
                (None, t3.mark(at3 as nat, DUPLICATED@))
            }
        },
    }
}

/// A node that matched took at least its semicolon and lies inside the input. It
/// has no children, binds no identifier twice, and each of its properties has a
/// value.
pub proof fn lemma_node_advances(bytes: Seq<u8>, t: Tracker, pos: int)
    ensures
        node(bytes, t, pos).0 matches Some((next, n)) ==> {
            &&& 0 <= pos < next <= bytes.len()
            &&& n.children.len() == 0
            &&& unique_keys(n.properties)
            &&& valued(n.properties)
        },
{
    lemma_literal_bytes();
    lemma_blank_end(bytes, pos);
    let (at1, t1) = skip_blank(bytes, t, pos);
    let (semicolon, t2) = literal(bytes, t1, at1, ";"@);
    if let Some(at2) = semicolon {
        lemma_properties_bounds(bytes, t2, at2);
    }
}

/// `Node*`.
pub open spec fn nodes(bytes: Seq<u8>, t: Tracker, pos: int) -> (Seq<NodeModel>, int, Tracker)
    decreases bytes.len() - pos,
    via nodes_terminates
{
    let (first, t1) = node(bytes, t, pos);
    match first {
        Some((next, n)) => {
            let (rest, end, t2) = nodes(bytes, t1, next);
            (seq![n] + rest, end, t2)
        },
        None => (Seq::empty(), pos, t1),
    }
}

#[via_fn]
proof fn nodes_terminates(bytes: Seq<u8>, t: Tracker, pos: int) {
    lemma_node_advances(bytes, t, pos);
}

/// A repetition of nodes ends at or behind its start, and inside the input where
/// it took any. None of the nodes has children.
pub proof fn lemma_nodes_bounds(bytes: Seq<u8>, t: Tracker, pos: int)
    ensures
        pos <= nodes(bytes, t, pos).1,
        nodes(bytes, t, pos).0.len() >= 1 ==> 0 <= pos < nodes(bytes, t, pos).1 <= bytes.len(),
        forall|i: int|
            0 <= i < nodes(bytes, t, pos).0.len() ==> (#[trigger] nodes(bytes, t, pos).0[i]).children.len()
                == 0,
    decreases bytes.len() - pos,
{
    lemma_node_advances(bytes, t, pos);
    let (first, t1) = node(bytes, t, pos);
    if let Some((next, n)) = first {
        lemma_nodes_bounds(bytes, t1, next);
    }
}

/// `Sequence`: one or more nodes, made into a straight line.
pub open spec fn sequence(bytes: Seq<u8>, t: Tracker, pos: int) -> (
    Option<(int, NodeModel)>,
    Tracker,
) {
    let (at1, t1) = skip_blank(bytes, t, pos);
    let (line, at2, t2) = nodes(bytes, t1, at1);
    if line.len() >= 1 {
        let (at3, t3) = skip_blank(bytes, t2, at2);
        (Some((at3, chain(line))), t3)
    } else {
        (None, t2)
    }
}

/// A sequence that matched took at least one node and lies inside the input.
pub proof fn lemma_sequence_advances(bytes: Seq<u8>, t: Tracker, pos: int)
    ensures
        sequence(bytes, t, pos).0 matches Some((next, _)) ==> 0 <= pos < next <= bytes.len(),
{
    lemma_blank_end(bytes, pos);
    let (at1, t1) = skip_blank(bytes, t, pos);
    lemma_nodes_bounds(bytes, t1, at1);
    let (line, at2, t2) = nodes(bytes, t1, at1);
    lemma_blank_end(bytes, at2);
}

/// `GameTree`: a sequence in parentheses, and behind the sequence the game trees
/// that vary it, which go below the last node of its main line.
pub open spec fn game_tree(bytes: Seq<u8>, t: Tracker, pos: int) -> (
    Option<(int, NodeModel)>,
    Tracker,
)
    decreases bytes.len() - pos, 0nat,
    via game_tree_terminates
{
    let (at1, t1) = skip_blank(bytes, t, pos);
    let (open, t2) = literal(bytes, t1, at1, "("@);
    match open {
        None => (None, t2),
        Some(at2) => {
            let (main_line, t3) = sequence(bytes, t2, at2);
            match main_line {
                None => (None, t3),
                Some((at3, line)) => {
                    let (variations, at4, t4) = game_trees(bytes, t3, at3);
                    let (at5, t5) = skip_blank(bytes, t4, at4);
                    let (close, t6) = literal(bytes, t5, at5, ")"@);
                    match close {
                        None => (None, t6),
                        Some(at6) => (Some((at6, attach(line, variations))), t6),
                    }
                },
            }
        },
    }
}

#[via_fn]
proof fn game_tree_terminates(bytes: Seq<u8>, t: Tracker, pos: int) {
    lemma_literal_bytes();
    lemma_blank_end(bytes, pos);
    let (at1, t1) = skip_blank(bytes, t, pos);
    let (open, t2) = literal(bytes, t1, at1, "("@);
    if let Some(at2) = open {
        lemma_sequence_advances(bytes, t2, at2);
    }
}

/// `(Ws GameTree)*`. A game tree that matched took at least its parentheses
/// (`lemma_game_tree_advances`), so the test that it went forward never ends the
/// repetition: it is there for the definition to be well founded.
pub open spec fn game_trees(bytes: Seq<u8>, t: Tracker, pos: int) -> (
    Seq<NodeModel>,
    int,
    Tracker,
)
    decreases bytes.len() - pos, 1nat,
    via game_trees_terminates
{
    let (at1, t1) = skip_blank(bytes, t, pos);
    let (tree, t2) = game_tree(bytes, t1, at1);
    match tree {
        Some((next, root)) if pos < next <= bytes.len() => {
            let (rest, end, t3) = game_trees(bytes, t2, next);
            (seq![root] + rest, end, t3)
        },
        _ => (Seq::empty(), pos, t2),
    }
}

#[via_fn]
proof fn game_trees_terminates(bytes: Seq<u8>, t: Tracker, pos: int) {
    lemma_blank_end(bytes, pos);
}

/// A game tree that matched took at least its parentheses and lies inside the
/// input.
pub proof fn lemma_game_tree_advances(bytes: Seq<u8>, t: Tracker, pos: int)
    ensures
        game_tree(bytes, t, pos).0 matches Some((next, _)) ==> 0 <= pos < next <= bytes.len(),
{
    lemma_literal_bytes();
    lemma_blank_end(bytes, pos);
    let (at1, t1) = skip_blank(bytes, t, pos);
    let (open, t2) = literal(bytes, t1, at1, "("@);
    if let Some(at2) = open {
        lemma_sequence_advances(bytes, t2, at2);
        let (main_line, t3) = sequence(bytes, t2, at2);
        if let Some((at3, line)) = main_line {
            lemma_game_trees_bounds(bytes, t3, at3);
            let (variations, at4, t4) = game_trees(bytes, t3, at3);
            lemma_blank_end(bytes, at4);
        }
    }
}

/// A repetition of game trees ends at or behind its start, and inside the input
/// where the start is.
pub proof fn lemma_game_trees_bounds(bytes: Seq<u8>, t: Tracker, pos: int)
    ensures
        pos <= game_trees(bytes, t, pos).1,
        pos <= bytes.len() ==> game_trees(bytes, t, pos).1 <= bytes.len(),
        game_trees(bytes, t, pos).0.len() >= 1 ==> 0 <= pos < game_trees(bytes, t, pos).1,
    decreases bytes.len() - pos,
{
    let (at1, t1) = skip_blank(bytes, t, pos);
    let (tree, t2) = game_tree(bytes, t1, at1);
    match tree {
        Some((next, root)) if pos < next <= bytes.len() => {
            lemma_game_trees_bounds(bytes, t2, next);
        },
        _ => {},
    }
}

/// `Collection`: one or more game trees.
pub open spec fn collection(bytes: Seq<u8>, t: Tracker, pos: int) -> (
    Option<(int, Seq<NodeModel>)>,
    Tracker,
) {
    let (trees, end, t1) = game_trees(bytes, t, pos);
    if trees.len() >= 1 {
        (Some((end, trees)), t1)
    } else {
        (None, t1)
    }
}

/// The number of line feeds before `pos`.
pub open spec fn line_feeds_before(bytes: Seq<u8>, pos: int) -> int
    decreases pos,
{
    if pos <= 0 {
        0
    } else {
        line_feeds_before(bytes, pos - 1) + if bytes[pos - 1] == 0x0a {
            1int
        } else {
            0int
        }
    }
}

/// Where the line that holds `pos` starts: behind the last line feed before
/// `pos`, or at the start of the input.
pub open spec fn line_start(bytes: Seq<u8>, pos: int) -> int
    decreases pos,
{
    if pos <= 0 {
        0
    } else if bytes[pos - 1] == 0x0a {
        pos
    } else {
        line_start(bytes, pos - 1)
    }
}

/// The number of characters that start at or behind `from` and before `to`: each
/// byte that does not continue a character starts one.
pub open spec fn chars_between(bytes: Seq<u8>, from: int, to: int) -> int
    decreases to - from,
{
    if to <= from {
        0
    } else {
        chars_between(bytes, from, to - 1) + if is_continuation_byte(bytes[to - 1]) {
            0int
        } else {
            1int
        }
    }
}

/// The line of `pos`, counted from one.
pub open spec fn line_of(bytes: Seq<u8>, pos: int) -> int {
    1 + line_feeds_before(bytes, pos)
}

/// The column of `pos`, counted from one, in characters.
pub open spec fn column_of(bytes: Seq<u8>, pos: int) -> int {
    1 + chars_between(bytes, line_start(bytes, pos), pos)
}

/// A count as a machine holds it: the largest number where the count is larger.
pub open spec fn clip(count: int) -> int {
    if count <= usize::MAX {
        count
    } else {
        usize::MAX as int
    }
}

/// A position has a line and a column of at least one, and neither is more than
/// one above the position: a position that a machine number holds has a line
/// and a column that a machine number holds, unless it is the largest of all.
pub proof fn lemma_line_column_bounds(bytes: Seq<u8>, pos: int)
    requires
        0 <= pos,
    ensures
        1 <= line_of(bytes, pos) <= pos + 1,
        1 <= column_of(bytes, pos) <= pos + 1,
        0 <= line_start(bytes, pos) <= pos,
        pos < usize::MAX ==> clip(line_of(bytes, pos)) == line_of(bytes, pos) && clip(
            column_of(bytes, pos),
        ) == column_of(bytes, pos),
    decreases pos,
{
    if pos > 0 {
        lemma_line_column_bounds(bytes, pos - 1);
    }
    lemma_chars_between_bounds(bytes, line_start(bytes, pos), pos);
}

/// Between two positions there are no more characters than bytes.
pub proof fn lemma_chars_between_bounds(bytes: Seq<u8>, from: int, to: int)
    requires
        from <= to,
    ensures
        0 <= chars_between(bytes, from, to) <= to - from,
    decreases to - from,
{
    if from < to {
        lemma_chars_between_bounds(bytes, from, to - 1);
    }
}

/// The error that a record of the furthest failure gives.
pub open spec fn error_at(bytes: Seq<u8>, t: Tracker) -> ErrorModel {
    ErrorModel {
        line: clip(line_of(bytes, t.max_err_pos as int)),
        column: clip(column_of(bytes, t.max_err_pos as int)),
        offset: t.max_err_pos as int,
        expected: t.expected,
    }
}

/// A parse: the game trees of the collection where the collection rule matches
/// the input to its end, and else the error of the furthest failure.
pub open spec fn parse(bytes: Seq<u8>) -> Result<Seq<NodeModel>, ErrorModel> {
    let (matched, t) = collection(bytes, Tracker::start(), 0);
    match matched {
        Some((end, trees)) if end == bytes.len() => Ok(trees),
        _ => Err(error_at(bytes, t)),
    }
}

/// How many bytes the collection rule takes from the start of the input, where
/// it matches.
pub open spec fn consumed(bytes: Seq<u8>) -> Option<int> {
    match collection(bytes, Tracker::start(), 0).0 {
        Some((end, _)) => Some(end),
        None => None,
    }
}

/// An input is accepted only as a whole: where a parse gives game trees, the
/// collection rule took every byte of the input, and the game trees are those
/// that it built, one at least.
pub proof fn lemma_accepted_to_the_end(bytes: Seq<u8>)
    requires
        parse(bytes) is Ok,
    ensures
        consumed(bytes) == Some(bytes.len() as int),
        collection(bytes, Tracker::start(), 0).0 matches Some((_, trees)) && parse(bytes) == Ok::<
            Seq<NodeModel>,
            ErrorModel,
        >(trees) && trees.len() >= 1,
{
}

/// An input of which the collection rule takes only a part, or nothing, is
/// refused.
pub proof fn lemma_refused_unless_whole(bytes: Seq<u8>)
    requires
        consumed(bytes) != Some(bytes.len() as int),
    ensures
        parse(bytes) is Err,
{
}

} // verus!
