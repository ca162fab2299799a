//! What holds of every collection that a parse gives.

use vstd::prelude::*;
use crate::failure::Tracker;
use crate::grammar::{
    collection,
    game_tree,
    game_trees,
    lemma_blank_end,
    lemma_literal_bytes,
    lemma_node_advances,
    lemma_sequence_advances,
    literal,
    node,
    nodes,
    parse,
    sequence,
    skip_blank,
};
use crate::model::{attach, chain, unique_keys, valued, NodeModel};

verus! {

/// A tree in which no node binds an identifier twice and every property has a
/// value.
pub open spec fn well_formed(node: NodeModel) -> bool
    decreases node,
{
    &&& unique_keys(node.properties)
    &&& valued(node.properties)
    &&& forall|i: int| 0 <= i < node.children.len() ==> well_formed(#[trigger] node.children[i])
}

/// Every tree of the list is well formed.
pub open spec fn all_well_formed(trees: Seq<NodeModel>) -> bool {
    forall|i: int| 0 <= i < trees.len() ==> well_formed(#[trigger] trees[i])
}

/// A node without children whose properties are in order.
pub open spec fn plain(node: NodeModel) -> bool {
    node.children.len() == 0 && unique_keys(node.properties) && valued(node.properties)
}

/// A straight line of plain nodes is well formed.
pub proof fn lemma_chain_well_formed(line: Seq<NodeModel>)
    requires
        line.len() >= 1,
        forall|i: int| 0 <= i < line.len() ==> plain(#[trigger] line[i]),
    ensures
        well_formed(chain(line)),
    decreases line.len(),
{
    assert(plain(line[0]));
    if line.len() > 1 {
        let rest = line.drop_first();
        assert forall|i: int| 0 <= i < rest.len() implies plain(#[trigger] rest[i]) by {
            assert(rest[i] == line[i + 1]);
        }
        lemma_chain_well_formed(rest);
        assert(chain(line).children =~= seq![chain(rest)]);
    }
}

/// Well-formed variations below the main line of a well-formed tree leave it
/// well formed.
pub proof fn lemma_attach_well_formed(root: NodeModel, variations: Seq<NodeModel>)
    requires
        well_formed(root),
        all_well_formed(variations),
    ensures
        well_formed(attach(root, variations)),
    decreases root,
{
    if root.children.len() != 0 {
        lemma_attach_well_formed(root.children[0], variations);
        let grown = attach(root, variations);
        assert forall|i: int| 0 <= i < grown.children.len() implies well_formed(
            #[trigger] grown.children[i],
        ) by {
            if i != 0 {
                assert(grown.children[i] == root.children[i]);
            }
        }
    }
}

/// The nodes that a repetition of nodes takes are plain.
pub proof fn lemma_nodes_plain(bytes: Seq<u8>, t: Tracker, pos: int)
    ensures
        forall|i: int|
            0 <= i < nodes(bytes, t, pos).0.len() ==> plain(#[trigger] nodes(bytes, t, pos).0[i]),
    decreases bytes.len() - pos,
{
    lemma_node_advances(bytes, t, pos);
    let (first, t1) = node(bytes, t, pos);
    if let Some((next, n)) = first {
        lemma_nodes_plain(bytes, t1, next);
        let rest = nodes(bytes, t1, next).0;
        let all = nodes(bytes, t, pos).0;
        assert forall|i: int| 0 <= i < all.len() implies plain(#[trigger] all[i]) by {
            if i > 0 {
                assert(all[i] == rest[i - 1]);
            }
        }
    }
}

/// The tree that a game tree gives is well formed.
pub proof fn lemma_game_tree_well_formed(bytes: Seq<u8>, t: Tracker, pos: int)
    ensures
        game_tree(bytes, t, pos).0 matches Some((_, root)) ==> well_formed(root),
    decreases bytes.len() - pos, 0nat,
{
    lemma_literal_bytes();
    lemma_blank_end(bytes, pos);
    let (at1, t1) = skip_blank(bytes, t, pos);
    let (open, t2) = literal(bytes, t1, at1, "("@);
    if let Some(at2) = open {
        lemma_sequence_advances(bytes, t2, at2);
        let (main_line, t3) = sequence(bytes, t2, at2);
        if let Some((at3, line)) = main_line {
            let (q1, s1) = skip_blank(bytes, t2, at2);
            lemma_nodes_plain(bytes, s1, q1);
            lemma_chain_well_formed(nodes(bytes, s1, q1).0);
            lemma_game_trees_well_formed(bytes, t3, at3);
            lemma_attach_well_formed(line, game_trees(bytes, t3, at3).0);
        }
    }
}

/// The trees that a repetition of game trees gives are well formed.
pub proof fn lemma_game_trees_well_formed(bytes: Seq<u8>, t: Tracker, pos: int)
    ensures
        all_well_formed(game_trees(bytes, t, pos).0),
    decreases bytes.len() - pos, 1nat,
{
    lemma_blank_end(bytes, pos);
    let (at1, t1) = skip_blank(bytes, t, pos);
    let (tree, t2) = game_tree(bytes, t1, at1);
    match tree {
        Some((next, root)) if pos < next <= bytes.len() => {
            lemma_game_tree_well_formed(bytes, t1, at1);
            lemma_game_trees_well_formed(bytes, t2, next);
        },
        _ => {},
    }
}

/// A parse that succeeds gives one game tree at least, and in each of its trees
/// no node binds an identifier twice and every property has a value.
pub proof fn lemma_parse_well_formed(bytes: Seq<u8>)
    ensures
        parse(bytes) matches Ok(trees) ==> trees.len() >= 1 && all_well_formed(trees),
{
    lemma_game_trees_well_formed(bytes, Tracker::start(), 0);
    let _ = collection(bytes, Tracker::start(), 0);
}

} // verus!
