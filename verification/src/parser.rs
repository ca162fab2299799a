//! The rules of the grammar as executable functions. Each does to the input and
//! to the record of the furthest failure what the rule of the same name in
//! `grammar` says.

use vstd::prelude::*;
use vstd::string::StringSliceAdditionalSpecFns;
use vstd::utf8::*;
use crate::failure::{distinct, ParseError, ParseResult, ParseState, RuleResult, Tracker};
use crate::grammar;
use crate::grammar::{BLANK, CHARACTER, DUPLICATED, ESCAPED_CLOSE, NOT_CLOSE, UPPER};
use crate::model::{NodeModel, PropertyModel};
use crate::properties::{entry_model, entry_models, texts, PropertyMap};
use crate::sgf_node::{collection_model, models, SgfCollection, SgfNode};
use crate::utf8::{
    char_range_at,
    char_width,
    char_width_at,
    lemma_ascii_boundary,
    lemma_boundary_step,
    substring,
};

verus! {

/// Whether a byte is one that the grammar skips between tokens.
pub fn is_blank(byte: u8) -> (blank: bool)
    ensures
        blank == grammar::is_blank(byte),
{
    byte == 0x20 || byte == 0x09 || byte == 0x0d || byte == 0x0a || byte == 0x76
}

/// Matches `m` at `pos`.
pub fn slice_eq(input: &str, state: &mut ParseState, pos: usize, m: &'static str) -> (r:
    RuleResult<()>)
    ensures
        (r.position(), final(state)@) == grammar::literal(
            input.spec_bytes(),
            old(state)@,
            pos as int,
            m@,
        ),
{
    let bytes = input.as_bytes();
    let literal = m.as_bytes();
    let l = literal.len();
    if pos <= bytes.len() && l <= bytes.len() - pos {
        let mut i: usize = 0;
        while i < l
            invariant
                0 <= i <= l,
                l == literal@.len(),
                pos + l <= bytes@.len() <= usize::MAX,
                bytes@ == input.spec_bytes(),
                literal@ == m.spec_bytes(),
                *state == *old(state),
                forall|j: int| 0 <= j < i ==> bytes@[pos + j] == literal@[j],
            decreases l - i,
        {
            if bytes[pos + i] != literal[i] {
                assert(bytes@.subrange(pos as int, pos + l)[i as int] != literal@[i as int]);
                return state.mark_failure(pos, m);
            }
            i += 1;
        }
        assert(bytes@.subrange(pos as int, pos + l) =~= literal@);
        RuleResult::Matched(pos + l, ())
    } else {
        state.mark_failure(pos, m)
    }
}

/// Matches any one character: `pos` is a character boundary of the input.
pub fn any_char(input: &str, state: &mut ParseState, pos: usize) -> (r: RuleResult<()>)
    requires
        pos < input.spec_bytes().len() ==> is_char_boundary(input.spec_bytes(), pos as int),
    ensures
        (r.position(), final(state)@) == grammar::any_char(
            input.spec_bytes(),
            old(state)@,
            pos as int,
        ),
{
    if input.as_bytes().len() > pos {
        let (_, next) = char_range_at(input, pos);
        RuleResult::Matched(next, ())
    } else {
        state.mark_failure(pos, CHARACTER)
    }
}

/// The line and the column of `pos`, both counted from one, the column in
/// characters: each is held to what a machine number can hold.
pub fn pos_to_line(input: &str, pos: usize) -> (r: (usize, usize))
    requires
        pos <= input.spec_bytes().len(),
    ensures
        r.0 == grammar::clip(grammar::line_of(input.spec_bytes(), pos as int)),
        r.1 == grammar::clip(grammar::column_of(input.spec_bytes(), pos as int)),
{
    let bytes = input.as_bytes();
    let mut line: usize = 1;
    let mut column: usize = 1;
    let mut i: usize = 0;
    while i < pos
        invariant
            bytes@ == input.spec_bytes(),
            0 <= i <= pos <= bytes@.len(),
            line == grammar::clip(grammar::line_of(bytes@, i as int)),
            column == grammar::clip(grammar::column_of(bytes@, i as int)),
            grammar::line_feeds_before(bytes@, i as int) >= 0,
            0 <= grammar::line_start(bytes@, i as int) <= i,
            grammar::chars_between(bytes@, grammar::line_start(bytes@, i as int), i as int) >= 0,
        decreases pos - i,
    {
        let byte = bytes[i];
        if byte == 0x0a {
            if line < usize::MAX {
                line += 1;
            }
            column = 1;
        } else if !(0x80 <= byte && byte <= 0xbf) {
            if column < usize::MAX {
                column += 1;
            }
        }
        i += 1;
    }
    (line, column)
}

/// `Ws`: skips the blanks at `pos`.
pub fn parse_ws(input: &str, state: &mut ParseState, pos: usize) -> (end: usize)
    ensures
        (end as int, final(state)@) == grammar::skip_blank(
            input.spec_bytes(),
            old(state)@,
            pos as int,
        ),
        pos <= end,
        pos <= input.spec_bytes().len() ==> end <= input.spec_bytes().len(),
{
    let bytes = input.as_bytes();
    proof {
        grammar::lemma_blank_end(bytes@, pos as int);
    }
    let mut end = pos;
    while end < bytes.len() && is_blank(bytes[end])
        invariant
            bytes@ == input.spec_bytes(),
            grammar::blank_end(bytes@, end as int) == grammar::blank_end(bytes@, pos as int),
            *state == *old(state),
        decreases bytes@.len() - end,
    {
        end += 1;
    }
    state.mark_failure(end, BLANK);
    end
}

/// `PropIdent`.
pub fn parse_prop_ident(input: &str, state: &mut ParseState, pos: usize) -> (r: RuleResult<String>)
    ensures
        (r.outcome(), final(state)@) == grammar::prop_ident(
            input.spec_bytes(),
            old(state)@,
            pos as int,
        ),
{
    let bytes = input.as_bytes();
    proof {
        grammar::lemma_upper_end(bytes@, pos as int);
    }
    let mut end = pos;
    while end < bytes.len() && 0x41 <= bytes[end] && bytes[end] <= 0x5a
        invariant
            bytes@ == input.spec_bytes(),
            grammar::upper_end(bytes@, end as int) == grammar::upper_end(bytes@, pos as int),
            pos <= end,
            end > pos ==> end <= bytes@.len() && grammar::is_upper(bytes@[end - 1])
                && grammar::is_upper(bytes@[pos as int]),
            *state == *old(state),
        decreases bytes@.len() - end,
    {
        end += 1;
    }
    state.mark_failure(end, UPPER);
    if end > pos {
        proof {
            encode_utf8_valid_utf8(input@);
            lemma_ascii_boundary(bytes@, pos as int);
            lemma_ascii_boundary(bytes@, end - 1);
        }
        RuleResult::Matched(end, substring(input, pos, end))
    } else {
        RuleResult::Failed
    }
}

/// `PropValue`.
pub fn parse_prop_value(input: &str, state: &mut ParseState, pos: usize) -> (r: RuleResult<String>)
    ensures
        (r.outcome(), final(state)@) == grammar::prop_value(
            input.spec_bytes(),
            old(state)@,
            pos as int,
        ),
{
    let bytes = input.as_bytes();
    proof {
        encode_utf8_valid_utf8(input@);
        grammar::lemma_literal_bytes();
    }
    let at1 = parse_ws(input, state, pos);
    let at2 = match slice_eq(input, state, at1, "[") {
        RuleResult::Matched(next, _) => next,
        RuleResult::Failed => {
            return RuleResult::Failed;
        },
    };
    let ghost t2 = state@;
    proof {
        assert(bytes@.subrange(at1 as int, at1 + 1)[0] == 0x5b);
        lemma_ascii_boundary(bytes@, at1 as int);
        grammar::lemma_value_end(bytes@, t2, at2 as int);
    }
    let mut at3 = at2;
    loop
        invariant_except_break
            grammar::value_end(bytes@, state@, at3 as int) == grammar::value_end(
                bytes@,
                t2,
                at2 as int,
            ),
        invariant
            bytes@ == input.spec_bytes(),
            valid_utf8(bytes@),
            at2 <= at3 <= bytes@.len(),
            is_char_boundary(bytes@, at3 as int),
            encode_utf8(ESCAPED_CLOSE@) == seq![0x5cu8, 0x5du8],
        ensures
            (at3 as int, state@) == grammar::value_end(bytes@, t2, at2 as int),
        decreases bytes@.len() - at3,
    {
        match slice_eq(input, state, at3, ESCAPED_CLOSE) {
            RuleResult::Matched(next, _) => {
                proof {
                    assert(bytes@.subrange(at3 as int, at3 + 2)[1] == 0x5d);
                    lemma_ascii_boundary(bytes@, at3 + 1);
                }
                at3 = next;
            },
            RuleResult::Failed => {
                if at3 < bytes.len() && bytes[at3] != 0x5d {
                    proof {
                        lemma_boundary_step(bytes@, at3 as int);
                    }
                    at3 = at3 + char_width(bytes[at3]);
                } else {
                    state.mark_failure(at3, NOT_CLOSE);
                    break ;
                }
            },
        }
    }
    let at4 = match slice_eq(input, state, at3, "]") {
        RuleResult::Matched(next, _) => next,
        RuleResult::Failed => {
            return RuleResult::Failed;
        },
    };
    let at5 = parse_ws(input, state, at4);
    proof {
        assert(bytes@.subrange(at3 as int, at3 + 1)[0] == 0x5d);
        lemma_ascii_boundary(bytes@, at3 as int);
    }
    RuleResult::Matched(at5, substring(input, at2, at3))
}

/// A property as a rule hands it back, as a mathematical value.
pub open spec fn property_outcome(r: RuleResult<(String, Vec<String>)>) -> Option<
    (int, PropertyModel),
> {
    match r {
        RuleResult::Matched(next, entry) => Some((next as int, entry_model(entry))),
        RuleResult::Failed => None,
    }
}

/// `Property`.
pub fn parse_property(input: &str, state: &mut ParseState, pos: usize) -> (r: RuleResult<
    (String, Vec<String>),
>)
    ensures
        (property_outcome(r), final(state)@) == grammar::property(
            input.spec_bytes(),
            old(state)@,
            pos as int,
        ),
{
    let ghost bytes = input.spec_bytes();
    let at1 = parse_ws(input, state, pos);
    proof {
        grammar::lemma_upper_end(bytes, at1 as int);
    }
    let (at2, name) = match parse_prop_ident(input, state, at1) {
        RuleResult::Matched(next, name) => (next, name),
        RuleResult::Failed => {
            return RuleResult::Failed;
        },
    };
    let ghost t2 = state@;
    let mut values: Vec<String> = Vec::new();
    let mut at3 = at2;
    loop
        invariant_except_break
            grammar::prop_values(bytes, t2, at2 as int) == (
                texts(values@) + grammar::prop_values(bytes, state@, at3 as int).0,
                grammar::prop_values(bytes, state@, at3 as int).1,
                grammar::prop_values(bytes, state@, at3 as int).2,
            ),
        invariant
            bytes == input.spec_bytes(),
            pos <= bytes.len() ==> at3 <= bytes.len(),
        ensures
            (texts(values@), at3 as int, state@) == grammar::prop_values(bytes, t2, at2 as int),
        decreases bytes.len() - at3,
    {
        proof {
            grammar::lemma_prop_value_advances(bytes, state@, at3 as int);
        }
        let ghost before = state@;
        match parse_prop_value(input, state, at3) {
            RuleResult::Matched(next, value) => {
                proof {
                    let rest = grammar::prop_values(bytes, state@, next as int).0;
                    assert(texts(values@.push(value)) + rest =~= texts(values@) + (seq![value@]
                        + rest));
                }
                values.push(value);
                at3 = next;
            },
            RuleResult::Failed => {
                proof {
                    assert(texts(values@) + Seq::<Seq<char>>::empty() =~= texts(values@));
                }
                break ;
            },
        }
    }
    if values.len() >= 1 {
        let at4 = parse_ws(input, state, at3);
        RuleResult::Matched(at4, (name, values))
    } else {
        RuleResult::Failed
    }
}

/// `Node`.
pub fn parse_node(input: &str, state: &mut ParseState, pos: usize) -> (r: RuleResult<SgfNode>)
    ensures
        (r.outcome(), final(state)@) == grammar::node(input.spec_bytes(), old(state)@, pos as int),
{
    let ghost bytes = input.spec_bytes();
    proof {
        grammar::lemma_literal_bytes();
        grammar::lemma_blank_end(bytes, pos as int);
    }
    let at1 = parse_ws(input, state, pos);
    let at2 = match slice_eq(input, state, at1, ";") {
        RuleResult::Matched(next, _) => next,
        RuleResult::Failed => {
            return RuleResult::Failed;
        },
    };
    let ghost t2 = state@;
    let mut props: Vec<(String, Vec<String>)> = Vec::new();
    let mut at3 = at2;
    proof {
        assert(entry_models(props@) + grammar::properties(bytes, t2, at2 as int).0
            =~= grammar::properties(bytes, t2, at2 as int).0);
    }
    loop
        invariant_except_break
            grammar::properties(bytes, t2, at2 as int) == (
                entry_models(props@) + grammar::properties(bytes, state@, at3 as int).0,
                grammar::properties(bytes, state@, at3 as int).1,
                grammar::properties(bytes, state@, at3 as int).2,
            ),
        invariant
            bytes == input.spec_bytes(),
            at3 <= bytes.len(),
        ensures
            (entry_models(props@), at3 as int, state@) == grammar::properties(bytes, t2, at2 as int),
        decreases bytes.len() - at3,
    {
        proof {
            grammar::lemma_property_advances(bytes, state@, at3 as int);
        }
        match parse_property(input, state, at3) {
            RuleResult::Matched(next, entry) => {
                proof {
                    let rest = grammar::properties(bytes, state@, next as int).0;
                    assert(entry_models(props@.push(entry)) + rest =~= entry_models(props@) + (
                    seq![entry_model(entry)] + rest));
                }
                props.push(entry);
                at3 = next;
            },
            RuleResult::Failed => {
                proof {
                    assert(entry_models(props@) + Seq::<PropertyModel>::empty() =~= entry_models(
                        props@,
                    ));
                }
                break ;
            },
        }
    }
    proof {
        grammar::lemma_properties_bounds(bytes, t2, at2 as int);
    }
    match PropertyMap::from_entries(props) {
        Some(map) => RuleResult::Matched(at3, SgfNode::new(map)),
        None => {
            state.mark_failure(at3, DUPLICATED);
            RuleResult::Failed
        },
    }
}

/// `Sequence`.
pub fn parse_sequence(input: &str, state: &mut ParseState, pos: usize) -> (r: RuleResult<SgfNode>)
    ensures
        (r.outcome(), final(state)@) == grammar::sequence(
            input.spec_bytes(),
            old(state)@,
            pos as int,
        ),
{
    let ghost bytes = input.spec_bytes();
    proof {
        grammar::lemma_blank_end(bytes, pos as int);
    }
    let at1 = parse_ws(input, state, pos);
    let ghost t1 = state@;
    let mut line: Vec<SgfNode> = Vec::new();
    let mut at2 = at1;
    proof {
        assert(models(line@) + grammar::nodes(bytes, t1, at1 as int).0 =~= grammar::nodes(
            bytes,
            t1,
            at1 as int,
        ).0);
    }
    loop
        invariant_except_break
            grammar::nodes(bytes, t1, at1 as int) == (
                models(line@) + grammar::nodes(bytes, state@, at2 as int).0,
                grammar::nodes(bytes, state@, at2 as int).1,
                grammar::nodes(bytes, state@, at2 as int).2,
            ),
        invariant
            bytes == input.spec_bytes(),
            pos <= bytes.len() ==> at2 <= bytes.len(),
        ensures
            (models(line@), at2 as int, state@) == grammar::nodes(bytes, t1, at1 as int),
        decreases bytes.len() - at2,
    {
        proof {
            grammar::lemma_node_advances(bytes, state@, at2 as int);
        }
        match parse_node(input, state, at2) {
            RuleResult::Matched(next, node) => {
                proof {
                    let rest = grammar::nodes(bytes, state@, next as int).0;
                    assert(models(line@.push(node)) + rest =~= models(line@) + (seq![node@]
                        + rest));
                }
                line.push(node);
                at2 = next;
            },
            RuleResult::Failed => {
                proof {
                    assert(models(line@) + Seq::<NodeModel>::empty() =~= models(line@));
                }
                break ;
            },
        }
    }
    if line.len() >= 1 {
        proof {
            grammar::lemma_blank_end(bytes, at2 as int);
        }
        let at3 = parse_ws(input, state, at2);
        RuleResult::Matched(at3, SgfNode::chain(line))
    } else {
        RuleResult::Failed
    }
}

/// `GameTree`.
pub fn parse_game_tree(input: &str, state: &mut ParseState, pos: usize) -> (r: RuleResult<SgfNode>)
    ensures
        (r.outcome(), final(state)@) == grammar::game_tree(
            input.spec_bytes(),
            old(state)@,
            pos as int,
        ),
    decreases input.spec_bytes().len() - pos,
{
    let ghost bytes = input.spec_bytes();
    proof {
        grammar::lemma_literal_bytes();
        grammar::lemma_blank_end(bytes, pos as int);
    }
    let at1 = parse_ws(input, state, pos);
    let at2 = match slice_eq(input, state, at1, "(") {
        RuleResult::Matched(next, _) => next,
        RuleResult::Failed => {
            return RuleResult::Failed;
        },
    };
    proof {
        grammar::lemma_sequence_advances(bytes, state@, at2 as int);
    }
    let (at3, mut root) = match parse_sequence(input, state, at2) {
        RuleResult::Matched(next, line) => (next, line),
        RuleResult::Failed => {
            return RuleResult::Failed;
        },
    };
    let ghost line = root@;
    let ghost t3 = state@;
    let mut variations: Vec<SgfNode> = Vec::new();
    let mut at4 = at3;
    proof {
        assert(models(variations@) + grammar::game_trees(bytes, t3, at3 as int).0
            =~= grammar::game_trees(bytes, t3, at3 as int).0);
    }
    loop
        invariant_except_break
            grammar::game_trees(bytes, t3, at3 as int) == (
                models(variations@) + grammar::game_trees(bytes, state@, at4 as int).0,
                grammar::game_trees(bytes, state@, at4 as int).1,
                grammar::game_trees(bytes, state@, at4 as int).2,
            ),
        invariant
            bytes == input.spec_bytes(),
            pos < at3 <= at4 <= bytes.len(),
        ensures
            (models(variations@), at4 as int, state@) == grammar::game_trees(bytes, t3, at3 as int),
        decreases bytes.len() - at4,
    {
        proof {
            grammar::lemma_blank_end(bytes, at4 as int);
        }
        let start = parse_ws(input, state, at4);
        proof {
            grammar::lemma_game_tree_advances(bytes, state@, start as int);
        }
        match parse_game_tree(input, state, start) {
            RuleResult::Matched(next, tree) => {
                proof {
                    let rest = grammar::game_trees(bytes, state@, next as int).0;
                    assert(models(variations@.push(tree)) + rest =~= models(variations@) + (
                    seq![tree@] + rest));
                }
                variations.push(tree);
                at4 = next;
            },
            RuleResult::Failed => {
                proof {
                    assert(models(variations@) + Seq::<NodeModel>::empty() =~= models(
                        variations@,
                    ));
                }
                break ;
            },
        }
    }
    proof {
        grammar::lemma_blank_end(bytes, at4 as int);
    }
    let at5 = parse_ws(input, state, at4);
    let at6 = match slice_eq(input, state, at5, ")") {
        RuleResult::Matched(next, _) => next,
        RuleResult::Failed => {
            return RuleResult::Failed;
        },
    };
    root.attach(variations);
    RuleResult::Matched(at6, root)
}

/// `Collection`.
pub fn parse_collection(input: &str, state: &mut ParseState, pos: usize) -> (r: RuleResult<
    SgfCollection,
>)
    ensures
        (r.outcome(), final(state)@) == grammar::collection(
            input.spec_bytes(),
            old(state)@,
            pos as int,
        ),
{
    let ghost bytes = input.spec_bytes();
    let ghost t0 = state@;
    let mut trees: Vec<SgfNode> = Vec::new();
    let mut end = pos;
    proof {
        assert(models(trees@) + grammar::game_trees(bytes, t0, pos as int).0
            =~= grammar::game_trees(bytes, t0, pos as int).0);
    }
    loop
        invariant_except_break
            grammar::game_trees(bytes, t0, pos as int) == (
                models(trees@) + grammar::game_trees(bytes, state@, end as int).0,
                grammar::game_trees(bytes, state@, end as int).1,
                grammar::game_trees(bytes, state@, end as int).2,
            ),
        invariant
            bytes == input.spec_bytes(),
            pos <= end,
            pos <= bytes.len() ==> end <= bytes.len(),
        ensures
            (models(trees@), end as int, state@) == grammar::game_trees(bytes, t0, pos as int),
        decreases bytes.len() - end,
    {
        let start = parse_ws(input, state, end);
        proof {
            grammar::lemma_game_tree_advances(bytes, state@, start as int);
        }
        match parse_game_tree(input, state, start) {
            RuleResult::Matched(next, tree) => {
                proof {
                    let rest = grammar::game_trees(bytes, state@, next as int).0;
                    assert(models(trees@.push(tree)) + rest =~= models(trees@) + (seq![tree@]
                        + rest));
                }
                trees.push(tree);
                end = next;
            },
            RuleResult::Failed => {
                proof {
                    assert(models(trees@) + Seq::<NodeModel>::empty() =~= models(trees@));
                }
                break ;
            },
        }
    }
    if trees.len() >= 1 {
        RuleResult::Matched(end, SgfCollection::new(trees))
    } else {
        RuleResult::Failed
    }
}

/// Parses a collection: the whole input is one or more game trees, or the parse
/// fails with the furthest position that any rule reached and what was
/// expected there.
pub fn collection(input: &str) -> (r: ParseResult<SgfCollection>)
    ensures
        collection_model(r) == grammar::parse(input.spec_bytes()),
        r is Ok ==> grammar::consumed(input.spec_bytes()) == Some(input.spec_bytes().len() as int),
        r matches Err(e) ==> distinct(e.expected@) && e.expected@.len() >= 1 && e.offset
            <= input.spec_bytes().len(),
{
    proof {
        encode_utf8_valid_utf8(input@);
        crate::furthest::lemma_game_trees_follows(input.spec_bytes(), Tracker::start(), 0);
    }
    let mut state = ParseState::new();
    match parse_collection(input, &mut state, 0) {
        RuleResult::Matched(end, value) => {
            if end == input.as_bytes().len() {
                return Ok(value);
            }
        },
        RuleResult::Failed => {},
    }
    let offset = state.max_err_pos();
    let (line, column) = pos_to_line(input, offset);
    let expected = state.into_expected();
    proof {
        let known = choose|known: Seq<char>| state@.expected.contains(known);
        assert(crate::failure::described(expected@).contains(known));
    }
    Err(ParseError { line, column, offset, expected })
}

} // verus!
