//! Game records as text, in the form without blanks.

use vstd::prelude::*;
use vstd::string::StringExecFns;
use crate::model::{NodeModel, PropertyModel};
use crate::properties::texts;
use crate::sgf_node::{lemma_node_view, models, SgfNode};

verus! {

/// The first `n` values, each in brackets.
pub open spec fn values_text(values: Seq<Seq<char>>, n: nat) -> Seq<char>
    decreases n,
{
    if n == 0 {
        Seq::empty()
    } else {
        values_text(values, (n - 1) as nat) + seq!['['] + values[n - 1] + seq![']']
    }
}

/// A property: its identifier and its values.
pub open spec fn property_text(property: PropertyModel) -> Seq<char> {
    property.0 + values_text(property.1, property.1.len())
}

/// The first `n` properties, one behind the other.
pub open spec fn properties_text(properties: Seq<PropertyModel>, n: nat) -> Seq<char>
    decreases n,
{
    if n == 0 {
        Seq::empty()
    } else {
        properties_text(properties, (n - 1) as nat) + property_text(properties[n - 1])
    }
}

/// A node and what is below it: a semicolon, the properties, and then the only
/// child as it is, or each of several children in parentheses.
pub open spec fn node_text(node: NodeModel) -> Seq<char>
    decreases node, 0nat,
{
    seq![';'] + properties_text(node.properties, node.properties.len()) + (if node.children.len()
        == 1 {
        node_text(node.children[0])
    } else {
        trees_text(node.children, node.children.len())
    })
}

/// The first `n` game trees, each in parentheses.
pub open spec fn trees_text(trees: Seq<NodeModel>, n: nat) -> Seq<char>
    decreases trees, n,
{
    if n == 0 || n > trees.len() {
        Seq::empty()
    } else {
        trees_text(trees, (n - 1) as nat) + seq!['('] + node_text(trees[n - 1]) + seq![')']
    }
}

/// A collection: each of its game trees in parentheses.
pub open spec fn collection_text(trees: Seq<NodeModel>) -> Seq<char> {
    trees_text(trees, trees.len())
}

/// The first `n` properties, each on a line of its own: the identifier, a colon
/// and the value, or each of several values in brackets.
pub open spec fn properties_listing(properties: Seq<PropertyModel>, n: nat) -> Seq<char>
    decreases n,
{
    if n == 0 {
        Seq::empty()
    } else {
        properties_listing(properties, (n - 1) as nat) + "    "@ + properties[n - 1].0 + ": "@ + (
        if properties[n - 1].1.len() == 1 {
            properties[n - 1].1[0]
        } else {
            values_text(properties[n - 1].1, properties[n - 1].1.len())
        }) + "\n"@
    }
}

/// The properties of a node in braces, one on each line.
pub open spec fn node_listing(node: NodeModel) -> Seq<char> {
    "{\n"@ + properties_listing(node.properties, node.properties.len()) + "}"@
}

/// Appends the values, each in brackets.
pub fn write_values(out: &mut String, values: &Vec<String>)
    ensures
        final(out)@ == old(out)@ + values_text(texts(values@), values@.len()),
{
    let mut i: usize = 0;
    proof {
        assert(out@ =~= old(out)@ + values_text(texts(values@), 0));
    }
    while i < values.len()
        invariant
            0 <= i <= values@.len(),
            out@ == old(out)@ + values_text(texts(values@), i as nat),
        decreases values@.len() - i,
    {
        let ghost before = out@;
        out.push('[');
        out.append(values[i].as_str());
        out.push(']');
        proof {
            assert(texts(values@)[i as int] == values@[i as int]@);
            assert(out@ =~= old(out)@ + values_text(texts(values@), (i + 1) as nat));
        }
        i += 1;
    }
}

impl SgfNode {
    /// Appends the properties of the node, one behind the other.
    pub fn write_properties(&self, out: &mut String)
        ensures
            final(out)@ == old(out)@ + properties_text(self@.properties, self@.properties.len()),
    {
        proof {
            lemma_node_view(*self);
            assert(out@ =~= old(out)@ + properties_text(self@.properties, 0));
        }
        let mut i: usize = 0;
        while i < self.properties.len()
            invariant
                0 <= i <= self.properties@.len(),
                self@.properties == self.properties@,
                out@ == old(out)@ + properties_text(self@.properties, i as nat),
            decreases self.properties@.len() - i,
        {
            out.append(self.properties.key_at(i).as_str());
            write_values(out, self.properties.values_at(i));
            proof {
                assert(out@ =~= old(out)@ + properties_text(self@.properties, (i + 1) as nat));
            }
            i += 1;
        }
    }

    /// Appends the node and what is below it.
    pub fn fmt_sgf(&self, out: &mut String)
        ensures
            final(out)@ == old(out)@ + node_text(self@),
        decreases self,
    {
        proof {
            lemma_node_view(*self);
        }
        out.push(';');
        self.write_properties(out);
        if self.children.len() == 1 {
            self.children[0].fmt_sgf(out);
            proof {
                assert(out@ =~= old(out)@ + node_text(self@));
            }
        } else {
            let ghost start = out@;
            let ghost below = models(self.children@);
            let mut i: usize = 0;
            proof {
                assert(out@ =~= start + trees_text(below, 0));
            }
            while i < self.children.len()
                invariant
                    0 <= i <= self.children@.len(),
                    below == models(self.children@),
                    out@ == start + trees_text(below, i as nat),
                decreases self.children@.len() - i,
            {
                out.push('(');
                self.children[i].fmt_sgf(out);
                out.push(')');
                proof {
                    assert(out@ =~= start + trees_text(below, (i + 1) as nat));
                }
                i += 1;
            }
            proof {
                assert(out@ =~= old(out)@ + node_text(self@));
            }
        }
    }

    /// The node and what is below it, as text.
    pub fn to_string(&self) -> (out: String)
        ensures
            out@ == node_text(self@),
    {
        let mut out = String::new();
        self.fmt_sgf(&mut out);
        proof {
            assert(Seq::<char>::empty() + node_text(self@) =~= node_text(self@));
        }
        out
    }

    /// The properties of the node, listed in braces.
    pub fn debug_string(&self) -> (out: String)
        ensures
            out@ == node_listing(self@),
    {
        proof {
            lemma_node_view(*self);
        }
        let mut out = String::new();
        out.append("{\n");
        let ghost start = out@;
        let mut i: usize = 0;
        proof {
            assert(out@ =~= start + properties_listing(self@.properties, 0));
        }
        while i < self.properties.len()
            invariant
                0 <= i <= self.properties@.len(),
                self@.properties == self.properties@,
                out@ == start + properties_listing(self@.properties, i as nat),
            decreases self.properties@.len() - i,
        {
            let values = self.properties.values_at(i);
            out.append("    ");
            out.append(self.properties.key_at(i).as_str());
            out.append(": ");
            if values.len() == 1 {
                proof {
                    assert(texts(values@)[0] == values@[0]@);
                }
                out.append(values[0].as_str());
            } else {
                write_values(&mut out, values);
            }
            out.append("\n");
            proof {
                assert(out@ =~= start + properties_listing(self@.properties, (i + 1) as nat));
            }
            i += 1;
        }
        out.append("}");
        proof {
            assert(out@ =~= node_listing(self@));
        }
        out
    }
}

/// `core::fmt::Error` of the standard library, declared so that the result of
/// writing can be a `core::fmt::Result`. Nothing is claimed of it.
#[verifier::external_type_specification]
#[verifier::external_body]
pub struct ExFmtError(core::fmt::Error);

/// Appends a collection to `f`: each game tree in parentheses. Appending to a
/// string does not fail.
pub fn write_sgf(f: &mut String, collection: &Vec<SgfNode>) -> (r: core::fmt::Result)
    ensures
        r is Ok,
        final(f)@ == old(f)@ + collection_text(models(collection@)),
{
    let ghost trees = models(collection@);
    let mut i: usize = 0;
    proof {
        assert(f@ =~= old(f)@ + trees_text(trees, 0));
    }
    while i < collection.len()
        invariant
            0 <= i <= collection@.len(),
            trees == models(collection@),
            f@ == old(f)@ + trees_text(trees, i as nat),
        decreases collection@.len() - i,
    {
        f.push('(');
        collection[i].fmt_sgf(f);
        f.push(')');
        proof {
            assert(f@ =~= old(f)@ + trees_text(trees, (i + 1) as nat));
        }
        i += 1;
    }
    Ok(())
}

} // verus!
