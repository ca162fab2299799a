//! The game record as a mathematical value: a tree of nodes, each with an
//! ordered list of properties, and the two steps that give the tree its shape.

use vstd::prelude::*;

verus! {

/// A property: its identifier and its values, each as raw text.
pub type PropertyModel = (Seq<char>, Seq<Seq<char>>);

/// A node of a game record, with the game trees below it.
pub struct NodeModel {
    pub properties: Seq<PropertyModel>,
    pub children: Seq<NodeModel>,
}

/// The position of the first property named `id`, or the length of the list
/// where it holds none.
pub open spec fn position_of(properties: Seq<PropertyModel>, id: Seq<char>) -> int
    decreases properties.len(),
{
    if properties.len() == 0 || properties[0].0 == id {
        0
    } else {
        1 + position_of(properties.drop_first(), id)
    }
}

/// Whether a property named `id` is in the list.
pub open spec fn has_key(properties: Seq<PropertyModel>, id: Seq<char>) -> bool {
    exists|i: int| 0 <= i < properties.len() && #[trigger] properties[i].0 == id
}

/// No identifier is bound twice.
pub open spec fn unique_keys(properties: Seq<PropertyModel>) -> bool {
    forall|i: int, j: int|
        0 <= i < j < properties.len() ==> #[trigger] properties[i].0 != #[trigger] properties[j].0
}

/// Every property has at least one value.
pub open spec fn valued(properties: Seq<PropertyModel>) -> bool {
    forall|i: int| 0 <= i < properties.len() ==> (#[trigger] properties[i]).1.len() >= 1
}

/// A node with the given properties and nothing below it.
pub open spec fn single(properties: Seq<PropertyModel>) -> NodeModel {
    NodeModel { properties, children: Seq::empty() }
}

/// The straight line of the given nodes: each is put below the one before it,
/// so that the first is the root and the last the only leaf.
pub open spec fn chain(nodes: Seq<NodeModel>) -> NodeModel
    recommends
        nodes.len() >= 1,
    decreases nodes.len(),
{
    if nodes.len() <= 1 {
        nodes[0]
    } else {
        NodeModel {
            properties: nodes[0].properties,
            children: nodes[0].children.push(chain(nodes.drop_first())),
        }
    }
}

/// The node at the end of the main line: the first child, and again the first
/// child, down to a node without children.
pub open spec fn main_leaf(node: NodeModel) -> NodeModel
    decreases node,
{
    if node.children.len() == 0 {
        node
    } else {
        main_leaf(node.children[0])
    }
}

/// The tree with `variations` appended to the children of the node at the end
/// of its main line.
pub open spec fn attach(node: NodeModel, variations: Seq<NodeModel>) -> NodeModel
    decreases node,
{
    if node.children.len() == 0 {
        NodeModel { properties: node.properties, children: variations }
    } else {
        NodeModel {
            properties: node.properties,
            children: node.children.update(0, attach(node.children[0], variations)),
        }
    }
}

/// The main line of a chain of childless nodes ends in the last of them.
pub proof fn lemma_chain_leaf(nodes: Seq<NodeModel>)
    requires
        nodes.len() >= 1,
        forall|i: int| 0 <= i < nodes.len() ==> (#[trigger] nodes[i]).children.len() == 0,
    ensures
        main_leaf(chain(nodes)) == nodes.last(),
    decreases nodes.len(),
{
    if nodes.len() > 1 {
        let rest = nodes.drop_first();
        lemma_chain_leaf(rest);
        assert(chain(nodes).children[0] == chain(rest));
        assert(rest.last() == nodes.last());
    }
}

/// The node that is reached from `node` by going to the first child `depth` times.
pub open spec fn descend(node: NodeModel, depth: nat) -> NodeModel
    decreases depth,
{
    if depth == 0 || node.children.len() == 0 {
        node
    } else {
        descend(node.children[0], (depth - 1) as nat)
    }
}

/// Variations that are attached to a straight line of childless nodes go below
/// the last of them, in the order given, and nowhere else: the last node of
/// the line keeps its properties and has the variations as its children.
pub proof fn lemma_attach_to_chain(line: Seq<NodeModel>, variations: Seq<NodeModel>)
    requires
        line.len() >= 1,
        forall|i: int| 0 <= i < line.len() ==> (#[trigger] line[i]).children.len() == 0,
    ensures
        descend(attach(chain(line), variations), (line.len() - 1) as nat).children == variations,
        descend(attach(chain(line), variations), (line.len() - 1) as nat).properties
            == line.last().properties,
        attach(chain(line), variations).properties == line[0].properties,
    decreases line.len(),
{
    if line.len() > 1 {
        let rest = line.drop_first();
        lemma_attach_to_chain(rest, variations);
        assert(chain(line).children =~= seq![chain(rest)]);
        assert(attach(chain(line), variations).children[0] == attach(chain(rest), variations));
        assert(rest.last() == line.last());
    }
}

} // verus!
