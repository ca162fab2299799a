//! Game records in the Smart Game Format: a parser from text to a tree of nodes,
//! the accessors that read and write the properties of a node, and the rules by
//! which the text of a property value is escaped.

use vstd::prelude::*;
use vstd::string::StringSliceAdditionalSpecFns;

pub mod accessors;
pub mod failure;
pub mod furthest;
pub mod grammar;
pub mod message;
pub mod model;
pub mod number;
pub mod parser;
pub mod properties;
pub mod sgf_node;
pub mod shape;
pub mod text;
pub mod utf8;
pub mod writer;

pub use crate::accessors::{
    SgfColor,
    SgfDouble,
    SgfError,
    SgfNumber,
    SgfPoint,
    SgfSimpleText,
    SgfText,
};
pub use crate::failure::{ParseError, ParseResult};
pub use crate::parser::collection;
pub use crate::properties::PropertyMap;
pub use crate::sgf_node::{SgfCollection, SgfNode};
pub use crate::text::{decode_simple_text, decode_text, encode_text};
pub use crate::writer::write_sgf;

verus! {

/// What parsing gave, as a mathematical value.
pub open spec fn games_model(r: ParseResult<Vec<SgfNode>>) -> Result<
    Seq<crate::model::NodeModel>,
    crate::failure::ErrorModel,
> {
    match r {
        Ok(games) => Ok(crate::sgf_node::models(games@)),
        Err(e) => Err(e@),
    }
}

/// Parses a collection and gives its game trees, each as its root node.
pub fn sgf_parse(input: &str) -> (r: ParseResult<Vec<SgfNode>>)
    ensures
        games_model(r) == crate::grammar::parse(input.spec_bytes()),
        r is Ok ==> crate::grammar::consumed(input.spec_bytes()) == Some(
            input.spec_bytes().len() as int,
        ),
        r matches Err(e) ==> crate::failure::distinct(e.expected@) && e.expected@.len() >= 1
            && e.offset <= input.spec_bytes().len(),
{
    match collection(input) {
        Ok(c) => {
            proof {
                c.lemma_view();
            }
            Ok(c.into_games())
        },
        Err(e) => Err(e),
    }
}

} // verus!
