//! What the rules of the grammar do to the record of the furthest failure, and
//! what that says of the error of a parse.

use vstd::prelude::*;
use vstd::utf8::{is_char_boundary, valid_utf8};
use crate::failure::Tracker;
use crate::grammar::{
    collection,
    consumed,
    game_tree,
    game_trees,
    lemma_blank_end,
    lemma_literal_bytes,
    lemma_node_advances,
    lemma_nodes_bounds,
    lemma_prop_value_advances,
    lemma_prop_values_bounds,
    lemma_properties_bounds,
    lemma_property_advances,
    lemma_sequence_advances,
    lemma_upper_end,
    literal,
    node,
    nodes,
    parse,
    prop_ident,
    prop_value,
    prop_values,
    properties,
    property,
    sequence,
    skip_blank,
    value_end,
    BLANK,
    DUPLICATED,
    ESCAPED_CLOSE,
    NOT_CLOSE,
    UPPER,
};
use crate::utf8::{char_width_at, lemma_ascii_boundary, lemma_boundary_step};

verus! {

/// The record names something that was expected.
pub open spec fn informed(t: Tracker) -> bool {
    exists|what: Seq<char>| t.expected.contains(what)
}

/// A record is sound where it names something that was expected, or has not
/// moved from the start.
pub open spec fn sound(t: Tracker) -> bool {
    t.max_err_pos == 0 || informed(t)
}

/// How the record after a rule that was tried at `pos`, in an input of `len`
/// bytes, stands to the record before it: the furthest failure has not moved
/// back, has stayed inside the input, and what made the record sound is kept.
pub open spec fn follows(before: Tracker, after: Tracker, pos: int, len: nat) -> bool {
    &&& after.suppress_fail == before.suppress_fail
    &&& after.max_err_pos >= before.max_err_pos
    &&& (sound(before) ==> sound(after))
    &&& (informed(before) ==> informed(after))
    &&& (before.within(len) && pos <= len ==> after.within(len))
}

/// The record after holds a failure at `pos` or further on, unless failures were
/// suppressed.
pub open spec fn records(before: Tracker, after: Tracker, pos: int) -> bool {
    before.suppress_fail == 0 ==> after.max_err_pos >= pos && (sound(before) ==> informed(after))
}

/// What one failure does to the record.
pub proof fn lemma_mark_follows(t: Tracker, pos: nat, what: Seq<char>, len: nat)
    ensures
        follows(t, t.mark(pos, what), pos as int, len),
        records(t, t.mark(pos, what), pos as int),
{
    let after = t.mark(pos, what);
    if t.suppress_fail == 0 && pos >= t.max_err_pos {
        assert(after.expected.contains(what));
    }
    if informed(t) && t.suppress_fail == 0 && pos == t.max_err_pos {
        let known = choose|known: Seq<char>| t.expected.contains(known);
        assert(after.expected.contains(known));
    }
}

/// What skipping blanks does to the record.
pub proof fn lemma_skip_blank_follows(bytes: Seq<u8>, t: Tracker, pos: int)
    requires
        0 <= pos,
    ensures
        follows(t, skip_blank(bytes, t, pos).1, pos, bytes.len()),
        records(t, skip_blank(bytes, t, pos).1, skip_blank(bytes, t, pos).0),
        pos <= skip_blank(bytes, t, pos).0,
        pos <= bytes.len() ==> skip_blank(bytes, t, pos).0 <= bytes.len(),
{
    lemma_blank_end(bytes, pos);
    lemma_mark_follows(t, skip_blank(bytes, t, pos).0 as nat, BLANK@, bytes.len());
}

/// What a literal does to the record.
pub proof fn lemma_literal_follows(bytes: Seq<u8>, t: Tracker, pos: int, text: Seq<char>)
    requires
        0 <= pos,
    ensures
        follows(t, literal(bytes, t, pos, text).1, pos, bytes.len()),
        literal(bytes, t, pos, text).0 matches Some(next) ==> pos <= next <= bytes.len(),
{
    lemma_mark_follows(t, pos as nat, text, bytes.len());
}

/// What an identifier does to the record.
pub proof fn lemma_prop_ident_follows(bytes: Seq<u8>, t: Tracker, pos: int)
    requires
        0 <= pos,
    ensures
        follows(t, prop_ident(bytes, t, pos).1, pos, bytes.len()),
        prop_ident(bytes, t, pos).0 matches Some((next, _)) ==> pos < next <= bytes.len(),
{
    lemma_upper_end(bytes, pos);
    lemma_mark_follows(t, crate::grammar::upper_end(bytes, pos) as nat, UPPER@, bytes.len());
}

/// What the inside of a value does to the record, in valid text.
pub proof fn lemma_value_end_follows(bytes: Seq<u8>, t: Tracker, pos: int)
    requires
        valid_utf8(bytes),
        0 <= pos <= bytes.len(),
        is_char_boundary(bytes, pos),
    ensures
        follows(t, value_end(bytes, t, pos).1, pos, bytes.len()),
    decreases bytes.len() + 4 - pos,
{
    lemma_literal_bytes();
    lemma_literal_follows(bytes, t, pos, ESCAPED_CLOSE@);
    let (escaped, t1) = literal(bytes, t, pos, ESCAPED_CLOSE@);
    match escaped {
        Some(next) => {
            assert(bytes.subrange(pos, pos + 2)[1] == 0x5d);
            lemma_ascii_boundary(bytes, pos + 1);
            lemma_value_end_follows(bytes, t1, next);
        },
        None => {
            if 0 <= pos < bytes.len() && !crate::grammar::is_close(bytes[pos]) {
                lemma_boundary_step(bytes, pos);
                lemma_value_end_follows(bytes, t1, pos + char_width_at(bytes, pos));
            } else {
                lemma_mark_follows(t1, pos as nat, NOT_CLOSE@, bytes.len());
            }
        },
    }
}

/// What a value does to the record, in valid text.
pub proof fn lemma_prop_value_follows(bytes: Seq<u8>, t: Tracker, pos: int)
    requires
        valid_utf8(bytes),
        0 <= pos,
    ensures
        follows(t, prop_value(bytes, t, pos).1, pos, bytes.len()),
        records(t, prop_value(bytes, t, pos).1, pos),
        prop_value(bytes, t, pos).0 matches Some((next, _)) ==> records(
            t,
            prop_value(bytes, t, pos).1,
            next,
        ),
{
    lemma_literal_bytes();
    lemma_skip_blank_follows(bytes, t, pos);
    let (at1, t1) = skip_blank(bytes, t, pos);
    lemma_literal_follows(bytes, t1, at1, "["@);
    let (open, t2) = literal(bytes, t1, at1, "["@);
    if let Some(at2) = open {
        assert(bytes.subrange(at1, at1 + 1)[0] == 0x5b);
        lemma_ascii_boundary(bytes, at1);
        crate::grammar::lemma_value_end(bytes, t2, at2);
        lemma_value_end_follows(bytes, t2, at2);
        let (at3, t3) = value_end(bytes, t2, at2);
        lemma_literal_follows(bytes, t3, at3, "]"@);
        let (close, t4) = literal(bytes, t3, at3, "]"@);
        if let Some(at4) = close {
            lemma_skip_blank_follows(bytes, t4, at4);
        }
    }
}

/// What a repetition of values does to the record, in valid text.
pub proof fn lemma_prop_values_follows(bytes: Seq<u8>, t: Tracker, pos: int)
    requires
        valid_utf8(bytes),
        0 <= pos,
    ensures
        follows(t, prop_values(bytes, t, pos).2, pos, bytes.len()),
        records(t, prop_values(bytes, t, pos).2, prop_values(bytes, t, pos).1),
    decreases bytes.len() - pos,
{
    lemma_prop_value_advances(bytes, t, pos);
    lemma_prop_value_follows(bytes, t, pos);
    let (value, t1) = prop_value(bytes, t, pos);
    if let Some((next, _)) = value {
        lemma_prop_values_follows(bytes, t1, next);
    }
}

/// What a property does to the record, in valid text.
pub proof fn lemma_property_follows(bytes: Seq<u8>, t: Tracker, pos: int)
    requires
        valid_utf8(bytes),
        0 <= pos,
    ensures
        follows(t, property(bytes, t, pos).1, pos, bytes.len()),
        records(t, property(bytes, t, pos).1, pos),
        property(bytes, t, pos).0 matches Some((next, _)) ==> records(
            t,
            property(bytes, t, pos).1,
            next,
        ),
{
    lemma_skip_blank_follows(bytes, t, pos);
    let (at1, t1) = skip_blank(bytes, t, pos);
    lemma_prop_ident_follows(bytes, t1, at1);
    let (ident, t2) = prop_ident(bytes, t1, at1);
    if let Some((at2, _)) = ident {
        lemma_prop_values_follows(bytes, t2, at2);
        lemma_prop_values_bounds(bytes, t2, at2);
        let (values, at3, t3) = prop_values(bytes, t2, at2);
        if values.len() >= 1 {
            lemma_skip_blank_follows(bytes, t3, at3);
        }
    }
}

/// What a repetition of properties does to the record, in valid text.
pub proof fn lemma_properties_follows(bytes: Seq<u8>, t: Tracker, pos: int)
    requires
        valid_utf8(bytes),
        0 <= pos,
    ensures
        follows(t, properties(bytes, t, pos).2, pos, bytes.len()),
        records(t, properties(bytes, t, pos).2, properties(bytes, t, pos).1),
    decreases bytes.len() - pos,
{
    lemma_property_advances(bytes, t, pos);
    lemma_property_follows(bytes, t, pos);
    let (prop, t1) = property(bytes, t, pos);
    if let Some((next, _)) = prop {
        lemma_properties_follows(bytes, t1, next);
    }
}

/// What a node does to the record, in valid text.
pub proof fn lemma_node_follows(bytes: Seq<u8>, t: Tracker, pos: int)
    requires
        valid_utf8(bytes),
        0 <= pos,
    ensures
        follows(t, node(bytes, t, pos).1, pos, bytes.len()),
        records(t, node(bytes, t, pos).1, pos),
{
    lemma_literal_bytes();
    lemma_skip_blank_follows(bytes, t, pos);
    let (at1, t1) = skip_blank(bytes, t, pos);
    lemma_literal_follows(bytes, t1, at1, ";"@);
    let (semicolon, t2) = literal(bytes, t1, at1, ";"@);
    if let Some(at2) = semicolon {
        lemma_properties_follows(bytes, t2, at2);
        lemma_properties_bounds(bytes, t2, at2);
        let (props, at3, t3) = properties(bytes, t2, at2);
        lemma_mark_follows(t3, at3 as nat, DUPLICATED@, bytes.len());
    }
}

/// What a repetition of nodes does to the record, in valid text.
pub proof fn lemma_nodes_follows(bytes: Seq<u8>, t: Tracker, pos: int)
    requires
        valid_utf8(bytes),
        0 <= pos,
    ensures
        follows(t, nodes(bytes, t, pos).2, pos, bytes.len()),
        records(t, nodes(bytes, t, pos).2, nodes(bytes, t, pos).1),
    decreases bytes.len() - pos,
{
    lemma_node_advances(bytes, t, pos);
    lemma_node_follows(bytes, t, pos);
    let (first, t1) = node(bytes, t, pos);
    if let Some((next, _)) = first {
        lemma_nodes_follows(bytes, t1, next);
    }
}

/// What a sequence does to the record, in valid text.
pub proof fn lemma_sequence_follows(bytes: Seq<u8>, t: Tracker, pos: int)
    requires
        valid_utf8(bytes),
        0 <= pos,
    ensures
        follows(t, sequence(bytes, t, pos).1, pos, bytes.len()),
        records(t, sequence(bytes, t, pos).1, pos),
{
    lemma_skip_blank_follows(bytes, t, pos);
    let (at1, t1) = skip_blank(bytes, t, pos);
    lemma_nodes_follows(bytes, t1, at1);
    lemma_nodes_bounds(bytes, t1, at1);
    let (line, at2, t2) = nodes(bytes, t1, at1);
    if line.len() >= 1 {
        lemma_skip_blank_follows(bytes, t2, at2);
    }
}

/// What a game tree does to the record, in valid text.
pub proof fn lemma_game_tree_follows(bytes: Seq<u8>, t: Tracker, pos: int)
    requires
        valid_utf8(bytes),
        0 <= pos,
    ensures
        follows(t, game_tree(bytes, t, pos).1, pos, bytes.len()),
        records(t, game_tree(bytes, t, pos).1, pos),
    decreases bytes.len() - pos, 0nat,
{
    lemma_literal_bytes();
    lemma_skip_blank_follows(bytes, t, pos);
    let (at1, t1) = skip_blank(bytes, t, pos);
    lemma_literal_follows(bytes, t1, at1, "("@);
    let (open, t2) = literal(bytes, t1, at1, "("@);
    if let Some(at2) = open {
        lemma_sequence_advances(bytes, t2, at2);
        lemma_sequence_follows(bytes, t2, at2);
        let (main_line, t3) = sequence(bytes, t2, at2);
        if let Some((at3, _)) = main_line {
            lemma_game_trees_follows(bytes, t3, at3);
            crate::grammar::lemma_game_trees_bounds(bytes, t3, at3);
            let (variations, at4, t4) = game_trees(bytes, t3, at3);
            lemma_skip_blank_follows(bytes, t4, at4);
            let (at5, t5) = skip_blank(bytes, t4, at4);
            lemma_literal_follows(bytes, t5, at5, ")"@);
        }
    }
}

/// What a repetition of game trees does to the record, in valid text.
pub proof fn lemma_game_trees_follows(bytes: Seq<u8>, t: Tracker, pos: int)
    requires
        valid_utf8(bytes),
        0 <= pos,
    ensures
        follows(t, game_trees(bytes, t, pos).2, pos, bytes.len()),
        records(t, game_trees(bytes, t, pos).2, game_trees(bytes, t, pos).1),
    decreases bytes.len() - pos, 1nat,
{
    lemma_skip_blank_follows(bytes, t, pos);
    let (at1, t1) = skip_blank(bytes, t, pos);
    lemma_game_tree_follows(bytes, t1, at1);
    let (tree, t2) = game_tree(bytes, t1, at1);
    match tree {
        Some((next, _)) if pos < next <= bytes.len() => {
            lemma_game_trees_follows(bytes, t2, next);
        },
        _ => {},
    }
}

/// The error of a parse of valid text lies inside the input, at or behind the
/// end of what the collection rule took, and names something that was expected
/// there.
pub proof fn lemma_error_is_furthest(bytes: Seq<u8>)
    requires
        valid_utf8(bytes),
    ensures
        parse(bytes) matches Err(e) ==> {
            &&& 0 <= e.offset <= bytes.len()
            &&& exists|what: Seq<char>| e.expected.contains(what)
            &&& (consumed(bytes) matches Some(end) ==> end <= e.offset)
        },
{
    let start = Tracker::start();
    lemma_game_trees_follows(bytes, start, 0);
    let (trees, end, t) = game_trees(bytes, start, 0);
    assert(sound(start));
    if let Err(e) = parse(bytes) {
        assert(e.expected == t.expected);
        let known = choose|known: Seq<char>| t.expected.contains(known);
        assert(e.expected.contains(known));
    }
}

} // verus!
