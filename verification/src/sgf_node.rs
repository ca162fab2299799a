//! The nodes of a game record and the collection of game trees.

use vstd::prelude::*;
use vstd::string::StringSliceAdditionalSpecFns;
use crate::failure::{distinct, ErrorModel, ParseResult};
use crate::grammar;
use crate::model::{attach, chain, main_leaf, single, NodeModel};
use crate::parser::collection;
use crate::properties::PropertyMap;

verus! {

/// A collection: the game trees of one input, each as its root node.
#[derive(Debug)]
pub struct SgfCollection(Vec<SgfNode>);

impl View for SgfCollection {
    type V = Seq<NodeModel>;

    closed spec fn view(&self) -> Seq<NodeModel> {
        models(self.0@)
    }
}

impl SgfCollection {
    /// The root nodes.
    pub closed spec fn games(&self) -> Seq<SgfNode> {
        self.0@
    }

    /// A collection as a mathematical value holds its root nodes as
    /// mathematical values.
    pub proof fn lemma_view(&self)
        ensures
            self@ == models(self.games()),
    {
    }

    /// Parses a collection.
    pub fn from_sgf(sgf_str: &str) -> (r: ParseResult<SgfCollection>)
        ensures
            collection_model(r) == grammar::parse(sgf_str.spec_bytes()),
            r is Ok ==> grammar::consumed(sgf_str.spec_bytes()) == Some(
                sgf_str.spec_bytes().len() as int,
            ),
            r matches Err(e) ==> distinct(e.expected@) && e.expected@.len() >= 1 && e.offset
                <= sgf_str.spec_bytes().len(),
    {
        collection(sgf_str)
    }

    /// The collection of the given game trees.
    pub fn new(games: Vec<SgfNode>) -> (c: SgfCollection)
        ensures
            c.games() == games@,
            c@ == models(games@),
    {
        SgfCollection(games)
    }

    /// The collection as text: each game tree in parentheses.
    pub fn to_string(&self) -> (out: String)
        ensures
            out@ == crate::writer::collection_text(self@),
    {
        let mut out = String::new();
        let _ = crate::writer::write_sgf(&mut out, &self.0);
        proof {
            assert(Seq::<char>::empty() + crate::writer::collection_text(self@)
                =~= crate::writer::collection_text(self@));
        }
        out
    }

    /// The game trees of the collection.
    pub fn into_games(self) -> (games: Vec<SgfNode>)
        ensures
            games@ == self.games(),
    {
        self.0
    }
}

impl core::ops::Deref for SgfCollection {
    type Target = [SgfNode];

    fn deref(&self) -> (games: &[SgfNode])
        ensures
            games@ == self.games(),
    {
        self.0.as_slice()
    }
}

impl core::ops::DerefMut for SgfCollection {
    fn deref_mut(&mut self) -> (games: &mut [SgfNode])
        ensures
            games@ == old(self).games(),
            final(games)@ == final(self).games(),
    {
        self.0.as_mut_slice()
    }
}

/// What parsing a collection gave, as a mathematical value.
pub open spec fn collection_model(r: ParseResult<SgfCollection>) -> Result<
    Seq<NodeModel>,
    ErrorModel,
> {
    match r {
        Ok(c) => Ok(c@),
        Err(e) => Err(e@),
    }
}

/// A node with the game trees below it: a node stands for the game tree that it
/// is the root of. The first child continues the main line; the others are
/// variations.
#[derive(Debug)]
pub struct SgfNode {
    pub properties: PropertyMap,
    pub children: Vec<SgfNode>,
}

/// A node as a mathematical value.
pub open spec fn node_model(node: SgfNode) -> NodeModel
    decreases node,
{
    NodeModel {
        properties: node.properties@,
        children: Seq::new(
            node.children@.len(),
            |i: int|
                if 0 <= i < node.children@.len() {
                    node_model(node.children@[i])
                } else {
                    arbitrary()
                },
        ),
    }
}

impl View for SgfNode {
    type V = NodeModel;

    open spec fn view(&self) -> NodeModel {
        node_model(*self)
    }
}

/// A list of nodes as mathematical values.
pub open spec fn models(nodes: Seq<SgfNode>) -> Seq<NodeModel> {
    Seq::new(nodes.len(), |i: int| nodes[i]@)
}

/// A node as a mathematical value has the node's properties, and for children
/// the node's children as mathematical values.
pub proof fn lemma_node_view(node: SgfNode)
    ensures
        node@.properties == node.properties@,
        node@.children == models(node.children@),
{
    assert(node@.children =~= models(node.children@));
}

impl SgfNode {
    /// The node at the end of the main line.
    pub open spec fn spec_leaf(self) -> SgfNode
        decreases self,
    {
        if self.children@.len() == 0 {
            self
        } else {
            self.children@[0].spec_leaf()
        }
    }

    /// Whether `after` is `self` with `leaf` in place of the node at the end of
    /// the main line, and nothing else changed.
    pub open spec fn leaf_replaced(self, after: SgfNode, leaf: SgfNode) -> bool
        decreases self,
    {
        if self.children@.len() == 0 {
            after == leaf
        } else {
            &&& after.properties == self.properties
            &&& after.children@.len() == self.children@.len()
            &&& after.children@ == self.children@.update(0, after.children@[0])
            &&& self.children@[0].leaf_replaced(after.children@[0], leaf)
        }
    }

    /// A node with the given properties and no children.
    pub fn new(properties: PropertyMap) -> (node: SgfNode)
        ensures
            node@ == single(properties@),
            node.properties == properties,
            node.children@.len() == 0,
    {
        let node = SgfNode { properties, children: Vec::new() };
        proof {
            lemma_node_view(node);
            assert(models(node.children@) =~= Seq::empty());
        }
        node
    }

    /// The node at the end of the main line, to be changed in place: the first
    /// child, and again the first child, down to a node without children.
    pub fn leaf_mut(&mut self) -> (leaf: &mut SgfNode)
        ensures
            *leaf == old(self).spec_leaf(),
            leaf@ == main_leaf(old(self)@),
            leaf.children@.len() == 0,
            old(self).leaf_replaced(*final(self), *final(leaf)),
        decreases *old(self),
    {
        proof {
            lemma_leaf_view(*self);
        }
        if self.children.len() == 0 {
            self
        } else {
            self.children[0].leaf_mut()
        }
    }

    /// The straight line of the given nodes, the first of them as its root.
    pub fn chain(nodes: Vec<SgfNode>) -> (root: SgfNode)
        requires
            nodes@.len() >= 1,
        ensures
            root@ == chain(models(nodes@)),
    {
        let mut nodes = nodes;
        let ghost all = models(nodes@);
        let mut line = nodes.pop().unwrap();
        proof {
            assert(all.subrange(all.len() - 1, all.len() as int) =~= seq![line@]);
        }
        while nodes.len() > 0
            invariant
                nodes@.len() < all.len(),
                models(nodes@) =~= all.subrange(0, nodes@.len() as int),
                line@ == chain(all.subrange(nodes@.len() as int, all.len() as int)),
            decreases nodes@.len(),
        {
            let ghost k = nodes@.len() as int;
            let ghost below = line@;
            let ghost shorter = nodes@;
            let mut parent = nodes.pop().unwrap();
            let ghost bare = parent;
            parent.children.push(line);
            line = parent;
            proof {
                let tail = all.subrange(k - 1, all.len() as int);
                assert(tail.drop_first() =~= all.subrange(k, all.len() as int));
                assert(models(shorter)[k - 1] == bare@);
                assert(tail[0] == bare@);
                assert(models(nodes@) =~= all.subrange(0, k - 1));
                lemma_node_view(bare);
                lemma_node_view(line);
                assert(models(line.children@) =~= models(bare.children@).push(below));
            }
        }
        proof {
            assert(all.subrange(0, all.len() as int) =~= all);
        }
        line
    }

    /// Appends `variations` to the children of the node at the end of the main line.
    pub fn attach(&mut self, variations: Vec<SgfNode>)
        ensures
            final(self)@ == attach(old(self)@, models(variations@)),
    {
        let mut variations = variations;
        let ghost added = variations@;
        let leaf = self.leaf_mut();
        leaf.children.append(&mut variations);
        proof {
            assert(leaf.children@ =~= added);
            lemma_leaf_replaced(*old(self), *self, *leaf);
        }
    }
}

/// The node at the end of the main line, as a mathematical value, is the node at
/// the end of the main line of the tree as a mathematical value.
pub proof fn lemma_leaf_view(node: SgfNode)
    ensures
        node.spec_leaf()@ == main_leaf(node@),
    decreases node,
{
    lemma_node_view(node);
    if node.children@.len() != 0 {
        lemma_leaf_view(node.children@[0]);
    }
}

/// What putting another node in place of the one at the end of the main line
/// does to the tree as a mathematical value, where the new node has the
/// properties of the old one.
pub proof fn lemma_leaf_replaced(before: SgfNode, after: SgfNode, grown: SgfNode)
    requires
        before.leaf_replaced(after, grown),
        grown.properties == before.spec_leaf().properties,
    ensures
        after@ == attach(before@, models(grown.children@)),
    decreases before,
{
    lemma_node_view(before);
    lemma_node_view(after);
    if before.children@.len() == 0 {
    } else {
        lemma_leaf_replaced(before.children@[0], after.children@[0], grown);
        assert(models(after.children@) =~= models(before.children@).update(
            0,
            after.children@[0]@,
        ));
    }
}

} // verus!
