//! Reading and writing the properties of a node by kind of value: points,
//! numbers, colours, text, and pairs of them joined by a colon.

use vstd::prelude::*;
use vstd::string::StringExecFns;
use crate::model::{has_key, position_of, unique_keys, valued, NodeModel};
use crate::number::{number_of, number_text, number_to_string, parse_number};
use crate::properties::{texts, with_binding};
use crate::sgf_node::{lemma_node_view, SgfNode};
use crate::text::{
    decode_simple_text,
    decode_text,
    decoded_simple_text,
    decoded_text,
    encode_text,
    encoded_text,
};

verus! {

/// A point of the board, as it is written.
pub type SgfPoint = String;

/// A colour, as it is written: one character.
pub type SgfColor = char;

/// A whole number.
pub type SgfNumber = i32;

/// One of two grades, as it is written: one character.
pub type SgfDouble = char;

/// Text, which may run over several lines.
pub type SgfText = String;

/// Text of one line.
pub type SgfSimpleText = String;

/// Why a property could not be read.
#[derive(Debug, Clone, Copy, PartialEq, Eq)]
pub enum SgfError {
    /// The node has no property of that name.
    NoProperties,
    /// The value lacks a part that was asked for.
    EmptyProperty,
    /// The value is not written as the kind that was asked for.
    ParseError,
}

/// The values of the property named `id`, if the node has it.
pub open spec fn values_of(node: NodeModel, id: Seq<char>) -> Option<Seq<Seq<char>>> {
    if has_key(node.properties, id) {
        Some(node.properties[position_of(node.properties, id)].1)
    } else {
        None
    }
}

/// The first value of the property named `id`, raw.
pub open spec fn raw_value(node: NodeModel, id: Seq<char>) -> Result<Seq<char>, SgfError> {
    match values_of(node, id) {
        Some(values) => Ok(values[0]),
        None => Err(SgfError::NoProperties),
    }
}

/// The node with `id` bound to `values` and to nothing else.
pub open spec fn bound(node: NodeModel, id: Seq<char>, values: Seq<Seq<char>>) -> NodeModel {
    NodeModel { properties: with_binding(node.properties, id, values), children: node.children }
}

/// The first value of the property named `id`, read as a number.
pub open spec fn number_value(node: NodeModel, id: Seq<char>) -> Result<int, SgfError> {
    match raw_value(node, id) {
        Ok(raw) => match number_of(raw) {
            Some(n) => Ok(n),
            None => Err(SgfError::ParseError),
        },
        Err(e) => Err(e),
    }
}

/// The first character of the first value of the property named `id`.
pub open spec fn char_value(node: NodeModel, id: Seq<char>) -> Result<char, SgfError> {
    match raw_value(node, id) {
        Ok(raw) => if raw.len() >= 1 {
            Ok(raw[0])
        } else {
            Err(SgfError::EmptyProperty)
        },
        Err(e) => Err(e),
    }
}

/// The two parts of the first value of the property named `id`, raw: the value
/// is split at its first colon, and has no second part where it has no colon.
pub open spec fn pair_value(node: NodeModel, id: Seq<char>) -> Result<
    (Seq<char>, Seq<char>),
    SgfError,
> {
    match raw_value(node, id) {
        Ok(raw) => match after_colon(raw) {
            Some(second) => Ok((before_colon(raw), second)),
            None => Err(SgfError::EmptyProperty),
        },
        Err(e) => Err(e),
    }
}

/// The first part of the first value of the property named `id`, read as a
/// number, and its second part, raw. The first part is read before the second
/// is looked for.
pub open spec fn number_pair_value(node: NodeModel, id: Seq<char>) -> Result<
    (int, Seq<char>),
    SgfError,
> {
    match raw_value(node, id) {
        Ok(raw) => match number_of(before_colon(raw)) {
            Some(first) => match after_colon(raw) {
                Some(second) => Ok((first, second)),
                None => Err(SgfError::EmptyProperty),
            },
            None => Err(SgfError::ParseError),
        },
        Err(e) => Err(e),
    }
}

/// The two parts of the first value of the property named `id`, each read as a
/// number.
pub open spec fn number_number_value(node: NodeModel, id: Seq<char>) -> Result<
    (int, int),
    SgfError,
> {
    match number_pair_value(node, id) {
        Ok((first, raw)) => match number_of(raw) {
            Some(second) => Ok((first, second)),
            None => Err(SgfError::ParseError),
        },
        Err(e) => Err(e),
    }
}

/// A property that was bound is read back as it was bound, and the other
/// properties are read as before.
pub proof fn lemma_read_bound(node: NodeModel, id: Seq<char>, values: Seq<Seq<char>>, other: Seq<char>)
    requires
        unique_keys(node.properties),
    ensures
        values_of(bound(node, id, values), id) == Some(values),
        other != id ==> values_of(bound(node, id, values), other) == values_of(node, other),
{
    crate::properties::lemma_with_binding(node.properties, id, values);
    if other != id {
        crate::properties::lemma_kept_binding(node.properties, id, values, other);
    }
}

/// A number that was bound is read back.
pub proof fn lemma_read_bound_number(node: NodeModel, id: Seq<char>, n: int)
    requires
        unique_keys(node.properties),
        i32::MIN <= n <= i32::MAX,
    ensures
        number_value(bound(node, id, seq![number_text(n)]), id) == Ok::<int, SgfError>(n),
{
    lemma_read_bound(node, id, seq![number_text(n)], id);
    crate::number::lemma_number_round_trip(n);
}

/// A pair that was bound is read back, where the first of the two has no colon.
pub proof fn lemma_read_bound_pair(
    node: NodeModel,
    id: Seq<char>,
    first: Seq<char>,
    second: Seq<char>,
)
    requires
        unique_keys(node.properties),
        forall|j: int| 0 <= j < first.len() ==> first[j] != ':',
    ensures
        pair_value(bound(node, id, seq![joined(first, second)]), id) == Ok::<
            (Seq<char>, Seq<char>),
            SgfError,
        >((first, second)),
{
    lemma_read_bound(node, id, seq![joined(first, second)], id);
    lemma_split_joined(first, second);
}

/// Where the first colon of a text stands: its length where it has none.
pub open spec fn colon_at(text: Seq<char>) -> int
    decreases text.len(),
{
    if text.len() == 0 || text[0] == ':' {
        0
    } else {
        1 + colon_at(text.drop_first())
    }
}

/// The part of a text before its first colon: the whole text where it has none.
pub open spec fn before_colon(text: Seq<char>) -> Seq<char> {
    text.subrange(0, colon_at(text))
}

/// The part of a text behind its first colon, if it has one.
pub open spec fn after_colon(text: Seq<char>) -> Option<Seq<char>> {
    if colon_at(text) < text.len() {
        Some(text.subrange(colon_at(text) + 1, text.len() as int))
    } else {
        None
    }
}

/// Two texts joined by a colon.
pub open spec fn joined(first: Seq<char>, second: Seq<char>) -> Seq<char> {
    first + seq![':'] + second
}

/// The first colon stands where no character before it is one.
pub proof fn lemma_colon_at(text: Seq<char>, at: int)
    requires
        0 <= at <= text.len(),
        forall|j: int| 0 <= j < at ==> text[j] != ':',
        at < text.len() ==> text[at] == ':',
    ensures
        colon_at(text) == at,
    decreases text.len(),
{
    if text.len() == 0 || text[0] == ':' {
    } else {
        let rest = text.drop_first();
        assert forall|j: int| 0 <= j < at - 1 implies rest[j] != ':' by {
            assert(rest[j] == text[j + 1]);
        }
        lemma_colon_at(rest, at - 1);
    }
}

/// A text without a colon, joined to another, is split again into the two.
pub proof fn lemma_split_joined(first: Seq<char>, second: Seq<char>)
    requires
        forall|j: int| 0 <= j < first.len() ==> first[j] != ':',
    ensures
        before_colon(joined(first, second)) == first,
        after_colon(joined(first, second)) == Some(second),
{
    let text = joined(first, second);
    assert forall|j: int| 0 <= j < first.len() implies text[j] != ':' by {
        assert(text[j] == first[j]);
    }
    assert(text[first.len() as int] == ':');
    lemma_colon_at(text, first.len() as int);
    assert(text.subrange(0, first.len() as int) =~= first);
    assert(text.subrange(first.len() as int + 1, text.len() as int) =~= second);
}

/// Splits a text at its first colon.
pub fn split_compose(text: &str) -> (parts: (String, Option<String>))
    ensures
        parts.0@ == before_colon(text@),
        match parts.1 {
            Some(second) => after_colon(text@) == Some(second@),
            None => after_colon(text@) is None,
        },
{
    let len = text.unicode_len();
    let mut at: usize = len;
    let mut seen: usize = 0;
    for c in it: text.chars()
        invariant
            it.seq() == text@,
            seen == it.index(),
            len == text@.len(),
            at < len ==> at < seen && text@[at as int] == ':',
            at <= len,
            forall|j: int| 0 <= j < at && j < seen ==> text@[j] != ':',
    {
        if at == len && c == ':' {
            at = seen;
        }
        seen += 1;
    }
    proof {
        lemma_colon_at(text@, at as int);
    }
    let first = text.substring_char(0, at).to_owned();
    if at < len {
        let second = text.substring_char(at + 1, len).to_owned();
        (first, Some(second))
    } else {
        (first, None)
    }
}

/// A copy of a list of strings.
pub fn clone_strings(list: &Vec<String>) -> (copy: Vec<String>)
    ensures
        copy@ == list@,
{
    let mut copy: Vec<String> = Vec::new();
    let mut i: usize = 0;
    while i < list.len()
        invariant
            0 <= i <= list@.len(),
            copy@ == list@.subrange(0, i as int),
        decreases list@.len() - i,
    {
        copy.push(list[i].clone());
        proof {
            assert(copy@ =~= list@.subrange(0, i + 1));
        }
        i += 1;
    }
    proof {
        assert(list@.subrange(0, list@.len() as int) =~= list@);
    }
    copy
}

/// The text of one character.
pub fn char_to_string(c: char) -> (out: String)
    ensures
        out@ == seq![c],
{
    let mut out = String::new();
    out.push(c);
    proof {
        assert(out@ =~= seq![c]);
    }
    out
}

/// Two texts joined by a colon.
pub fn join_compose(first: &str, second: &str) -> (out: String)
    ensures
        out@ == joined(first@, second@),
{
    let mut out = first.to_owned();
    out.push(':');
    out.append(second);
    out
}

/// The list that holds one text.
pub fn one_value(text: String) -> (values: Vec<String>)
    ensures
        values@ == seq![text],
        texts(values@) == seq![text@],
{
    let mut values: Vec<String> = Vec::new();
    values.push(text);
    proof {
        assert(values@ =~= seq![text]);
        assert(texts(values@) =~= seq![text@]);
    }
    values
}

impl SgfNode {
    /// The values of the property named `id`: one at least.
    pub fn get_property(&self, id: &str) -> (r: Result<&Vec<String>, SgfError>)
        ensures
            match r {
                Ok(values) => values_of(self@, id@) == Some(texts(values@)) && values@.len() >= 1,
                Err(e) => e == SgfError::NoProperties && values_of(self@, id@) is None,
            },
            unique_keys(self@.properties),
            valued(self@.properties),
    {
        proof {
            lemma_node_view(*self);
        }
        match self.properties.get(id) {
            Some(values) => Ok(values),
            None => Err(SgfError::NoProperties),
        }
    }

    /// Binds `id` to `value`, in place of what it was bound to.
    pub fn set_property(&mut self, id: &str, value: Vec<String>) -> (node: &mut SgfNode)
        requires
            value@.len() >= 1,
        ensures
            node@ == bound(old(self)@, id@, texts(value@)),
            unique_keys(node@.properties),
            valued(node@.properties),
            *final(self) == *final(node),
    {
        proof {
            lemma_node_view(*self);
        }
        self.properties.insert(id.to_owned(), value);
        proof {
            lemma_node_view(*self);
        }
        self
    }

    /// The first value of the property named `id`, as a point.
    pub fn get_point(&self, id: &str) -> (r: Result<SgfPoint, SgfError>)
        ensures
            match r {
                Ok(point) => raw_value(self@, id@) == Ok::<Seq<char>, SgfError>(point@),
                Err(e) => raw_value(self@, id@) == Err::<Seq<char>, SgfError>(e),
            },
    {
        match self.get_property(id) {
            Ok(values) => {
                assert(texts(values@)[0] == values@[0]@);
                Ok(values[0].clone())
            },
            Err(e) => Err(e),
        }
    }

    /// Binds `id` to the one point `value`.
    pub fn set_point(&mut self, id: &str, value: SgfPoint) -> (node: &mut SgfNode)
        ensures
            node@ == bound(old(self)@, id@, seq![value@]),
            *final(self) == *final(node),
    {
        self.set_property(id, one_value(value))
    }
    /// The first value of the property named `id`, as a number.
    pub fn get_number(&self, id: &str) -> (r: Result<SgfNumber, SgfError>)
        ensures
            match r {
                Ok(n) => number_value(self@, id@) == Ok::<int, SgfError>(n as int),
                Err(e) => number_value(self@, id@) == Err::<int, SgfError>(e),
            },
    {
        match self.get_property(id) {
            Ok(values) => {
                assert(texts(values@)[0] == values@[0]@);
                match parse_number(values[0].as_str()) {
                    Some(n) => Ok(n),
                    None => Err(SgfError::ParseError),
                }
            },
            Err(e) => Err(e),
        }
    }

    /// Binds `id` to the one number `value`.
    pub fn set_number(&mut self, id: &str, value: SgfNumber) -> (node: &mut SgfNode)
        ensures
            node@ == bound(old(self)@, id@, seq![number_text(value as int)]),
            *final(self) == *final(node),
    {
        self.set_property(id, one_value(number_to_string(value)))
    }

    /// The values of the property named `id`, as points.
    pub fn get_points(&self, id: &str) -> (r: Result<Vec<SgfPoint>, SgfError>)
        ensures
            match r {
                Ok(points) => values_of(self@, id@) == Some(texts(points@)) && points@.len() >= 1,
                Err(e) => e == SgfError::NoProperties && values_of(self@, id@) is None,
            },
    {
        match self.get_property(id) {
            Ok(values) => Ok(clone_strings(values)),
            Err(e) => Err(e),
        }
    }

    /// Binds `id` to the points `value`: one at least.
    pub fn set_points(&mut self, id: &str, value: Vec<SgfPoint>) -> (node: &mut SgfNode)
        requires
            value@.len() >= 1,
        ensures
            node@ == bound(old(self)@, id@, texts(value@)),
            *final(self) == *final(node),
    {
        self.set_property(id, value)
    }

    /// The first character of the first value of the property named `id`.
    fn get_char(&self, id: &str) -> (r: Result<char, SgfError>)
        ensures
            match r {
                Ok(c) => char_value(self@, id@) == Ok::<char, SgfError>(c),
                Err(e) => char_value(self@, id@) == Err::<char, SgfError>(e),
            },
    {
        match self.get_property(id) {
            Ok(values) => {
                assert(texts(values@)[0] == values@[0]@);
                let raw = values[0].as_str();
                if raw.is_empty() {
                    Err(SgfError::EmptyProperty)
                } else {
                    Ok(raw.get_char(0))
                }
            },
            Err(e) => Err(e),
        }
    }

    /// The first value of the property named `id`, as a colour.
    pub fn get_color(&self, id: &str) -> (r: Result<SgfColor, SgfError>)
        ensures
            match r {
                Ok(c) => char_value(self@, id@) == Ok::<char, SgfError>(c),
                Err(e) => char_value(self@, id@) == Err::<char, SgfError>(e),
            },
    {
        self.get_char(id)
    }

    /// Binds `id` to the one colour `value`.
    pub fn set_color(&mut self, id: &str, value: SgfColor) -> (node: &mut SgfNode)
        ensures
            node@ == bound(old(self)@, id@, seq![seq![value]]),
            *final(self) == *final(node),
    {
        self.set_property(id, one_value(char_to_string(value)))
    }

    /// The first value of the property named `id`, as a grade.
    pub fn get_double(&self, id: &str) -> (r: Result<SgfDouble, SgfError>)
        ensures
            match r {
                Ok(c) => char_value(self@, id@) == Ok::<char, SgfError>(c),
                Err(e) => char_value(self@, id@) == Err::<char, SgfError>(e),
            },
    {
        self.get_char(id)
    }

    /// Binds `id` to the one grade `value`.
    pub fn set_double(&mut self, id: &str, value: SgfDouble) -> (node: &mut SgfNode)
        ensures
            node@ == bound(old(self)@, id@, seq![seq![value]]),
            *final(self) == *final(node),
    {
        self.set_property(id, one_value(char_to_string(value)))
    }

    /// The first value of the property named `id`, decoded as text.
    pub fn get_text(&self, id: &str) -> (r: Result<SgfText, SgfError>)
        ensures
            match r {
                Ok(text) => raw_value(self@, id@) is Ok && text@ == decoded_text(
                    raw_value(self@, id@)->Ok_0,
                ),
                Err(e) => raw_value(self@, id@) == Err::<Seq<char>, SgfError>(e),
            },
    {
        match self.get_property(id) {
            Ok(values) => {
                assert(texts(values@)[0] == values@[0]@);
                Ok(decode_text(values[0].as_str()))
            },
            Err(e) => Err(e),
        }
    }

    /// Binds `id` to the one text `value`, encoded.
    pub fn set_text(&mut self, id: &str, value: String) -> (node: &mut SgfNode)
        ensures
            node@ == bound(old(self)@, id@, seq![encoded_text(value@)]),
            *final(self) == *final(node),
    {
        self.set_property(id, one_value(encode_text(value.as_str())))
    }

    /// The first value of the property named `id`, decoded as text of one line.
    pub fn get_simple_text(&self, id: &str) -> (r: Result<SgfSimpleText, SgfError>)
        ensures
            match r {
                Ok(text) => raw_value(self@, id@) is Ok && text@ == decoded_simple_text(
                    raw_value(self@, id@)->Ok_0,
                ),
                Err(e) => raw_value(self@, id@) == Err::<Seq<char>, SgfError>(e),
            },
    {
        match self.get_property(id) {
            Ok(values) => {
                assert(texts(values@)[0] == values@[0]@);
                Ok(decode_simple_text(values[0].as_str()))
            },
            Err(e) => Err(e),
        }
    }

    /// Binds `id` to the one text `value`, encoded.
    pub fn set_simple_text(&mut self, id: &str, value: String) -> (node: &mut SgfNode)
        ensures
            node@ == bound(old(self)@, id@, seq![encoded_text(value@)]),
            *final(self) == *final(node),
    {
        self.set_property(id, one_value(encode_text(value.as_str())))
    }

    /// The two parts of the first value of the property named `id`, raw.
    fn get_pair(&self, id: &str) -> (r: Result<(String, String), SgfError>)
        ensures
            match r {
                Ok(pair) => pair_value(self@, id@) == Ok::<(Seq<char>, Seq<char>), SgfError>(
                    (pair.0@, pair.1@),
                ),
                Err(e) => pair_value(self@, id@) == Err::<(Seq<char>, Seq<char>), SgfError>(e),
            },
    {
        match self.get_property(id) {
            Ok(values) => {
                assert(texts(values@)[0] == values@[0]@);
                let (first, rest) = split_compose(values[0].as_str());
                match rest {
                    Some(second) => Ok((first, second)),
                    None => Err(SgfError::EmptyProperty),
                }
            },
            Err(e) => Err(e),
        }
    }

    /// The first part of the first value of the property named `id`, as a
    /// number, and its second part, raw.
    fn get_number_pair(&self, id: &str) -> (r: Result<(i32, String), SgfError>)
        ensures
            match r {
                Ok(pair) => number_pair_value(self@, id@) == Ok::<(int, Seq<char>), SgfError>(
                    (pair.0 as int, pair.1@),
                ),
                Err(e) => number_pair_value(self@, id@) == Err::<(int, Seq<char>), SgfError>(e),
            },
    {
        match self.get_property(id) {
            Ok(values) => {
                assert(texts(values@)[0] == values@[0]@);
                let (first, rest) = split_compose(values[0].as_str());
                match parse_number(first.as_str()) {
                    Some(n) => match rest {
                        Some(second) => Ok((n, second)),
                        None => Err(SgfError::EmptyProperty),
                    },
                    None => Err(SgfError::ParseError),
                }
            },
            Err(e) => Err(e),
        }
    }

    /// The first value of the property named `id`, as two points.
    pub fn get_point_point(&self, id: &str) -> (r: Result<(SgfPoint, SgfPoint), SgfError>)
        ensures
            match r {
                Ok(pair) => pair_value(self@, id@) == Ok::<(Seq<char>, Seq<char>), SgfError>(
                    (pair.0@, pair.1@),
                ),
                Err(e) => pair_value(self@, id@) == Err::<(Seq<char>, Seq<char>), SgfError>(e),
            },
    {
        self.get_pair(id)
    }

    /// Binds `id` to the one pair of points `value`.
    pub fn set_point_point(&mut self, id: &str, value: (SgfPoint, SgfPoint)) -> (node: &mut SgfNode)
        ensures
            node@ == bound(old(self)@, id@, seq![joined(value.0@, value.1@)]),
            *final(self) == *final(node),
    {
        self.set_property(id, one_value(join_compose(value.0.as_str(), value.1.as_str())))
    }

    /// The first value of the property named `id`, as a point and a text of
    /// one line.
    pub fn get_point_simple_text(&self, id: &str) -> (r: Result<(SgfPoint, SgfSimpleText), SgfError>)
        ensures
            match r {
                Ok(pair) => pair_value(self@, id@) is Ok && pair.0@ == pair_value(
                    self@,
                    id@,
                )->Ok_0.0 && pair.1@ == decoded_simple_text(pair_value(self@, id@)->Ok_0.1),
                Err(e) => pair_value(self@, id@) == Err::<(Seq<char>, Seq<char>), SgfError>(e),
            },
    {
        match self.get_pair(id) {
            Ok((first, second)) => Ok((first, decode_simple_text(second.as_str()))),
            Err(e) => Err(e),
        }
    }

    /// Binds `id` to the one pair `value` of a point and a text, the text encoded.
    pub fn set_point_simple_text(&mut self, id: &str, value: (SgfPoint, SgfSimpleText)) -> (node:
        &mut SgfNode)
        ensures
            node@ == bound(old(self)@, id@, seq![joined(value.0@, encoded_text(value.1@))]),
            *final(self) == *final(node),
    {
        let second = encode_text(value.1.as_str());
        self.set_property(id, one_value(join_compose(value.0.as_str(), second.as_str())))
    }

    /// The first value of the property named `id`, as two texts of one line.
    pub fn get_simple_text_simple_text(&self, id: &str) -> (r: Result<
        (SgfSimpleText, SgfSimpleText),
        SgfError,
    >)
        ensures
            match r {
                Ok(pair) => pair_value(self@, id@) is Ok && pair.0@ == decoded_simple_text(
                    pair_value(self@, id@)->Ok_0.0,
                ) && pair.1@ == decoded_simple_text(pair_value(self@, id@)->Ok_0.1),
                Err(e) => pair_value(self@, id@) == Err::<(Seq<char>, Seq<char>), SgfError>(e),
            },
    {
        match self.get_pair(id) {
            Ok((first, second)) => Ok(
                (decode_simple_text(first.as_str()), decode_simple_text(second.as_str())),
            ),
            Err(e) => Err(e),
        }
    }

    /// Binds `id` to the one pair of texts `value`, each encoded.
    pub fn set_simple_text_simple_text(
        &mut self,
        id: &str,
        value: (SgfSimpleText, SgfSimpleText),
    ) -> (node: &mut SgfNode)
        ensures
            node@ == bound(
                old(self)@,
                id@,
                seq![joined(encoded_text(value.0@), encoded_text(value.1@))],
            ),
            *final(self) == *final(node),
    {
        let first = encode_text(value.0.as_str());
        let second = encode_text(value.1.as_str());
        self.set_property(id, one_value(join_compose(first.as_str(), second.as_str())))
    }

    /// The first value of the property named `id`, as two numbers.
    pub fn get_number_number(&self, id: &str) -> (r: Result<(SgfNumber, SgfNumber), SgfError>)
        ensures
            match r {
                Ok(pair) => number_number_value(self@, id@) == Ok::<(int, int), SgfError>(
                    (pair.0 as int, pair.1 as int),
                ),
                Err(e) => number_number_value(self@, id@) == Err::<(int, int), SgfError>(e),
            },
    {
        match self.get_number_pair(id) {
            Ok((first, raw)) => match parse_number(raw.as_str()) {
                Some(second) => Ok((first, second)),
                None => Err(SgfError::ParseError),
            },
            Err(e) => Err(e),
        }
    }

    /// Binds `id` to the one pair of numbers `value`.
    pub fn set_number_number(&mut self, id: &str, value: (SgfNumber, SgfNumber)) -> (node:
        &mut SgfNode)
        ensures
            node@ == bound(
                old(self)@,
                id@,
                seq![joined(number_text(value.0 as int), number_text(value.1 as int))],
            ),
            *final(self) == *final(node),
    {
        let first = number_to_string(value.0);
        let second = number_to_string(value.1);
        self.set_property(id, one_value(join_compose(first.as_str(), second.as_str())))
    }

    /// The first value of the property named `id`, as a number and a text of
    /// one line.
    pub fn get_number_simple_text(&self, id: &str) -> (r: Result<
        (SgfNumber, SgfSimpleText),
        SgfError,
    >)
        ensures
            match r {
                Ok(pair) => number_pair_value(self@, id@) is Ok && pair.0 as int
                    == number_pair_value(self@, id@)->Ok_0.0 && pair.1@ == decoded_simple_text(
                    number_pair_value(self@, id@)->Ok_0.1,
                ),
                Err(e) => number_pair_value(self@, id@) == Err::<(int, Seq<char>), SgfError>(e),
            },
    {
        match self.get_number_pair(id) {
            Ok((first, raw)) => Ok((first, decode_simple_text(raw.as_str()))),
            Err(e) => Err(e),
        }
    }

    /// Binds `id` to the one pair `value` of a number and a text, the text encoded.
    pub fn set_number_simple_text(&mut self, id: &str, value: (SgfNumber, SgfSimpleText)) -> (node:
        &mut SgfNode)
        ensures
            node@ == bound(
                old(self)@,
                id@,
                seq![joined(number_text(value.0 as int), encoded_text(value.1@))],
            ),
            *final(self) == *final(node),
    {
        let first = number_to_string(value.0);
        let second = encode_text(value.1.as_str());
        self.set_property(id, one_value(join_compose(first.as_str(), second.as_str())))
    }
}

} // verus!
