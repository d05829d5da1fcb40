//! The decision tree that a search builds.

use vstd::prelude::*;

use crate::data_structures::{Action, State};

verus! {

/// A node of a decision tree: the state that `action` led to, and below it
/// one node for each move that the search followed from there. A node
/// without children is a leaf.
pub struct Tree {
    pub state: State,
    pub action: Option<Action>,
    pub children: Vec<Tree>,
}

/// The number of nodes in a list of trees, their descendants included.
pub open spec fn node_total(trees: Seq<Tree>) -> nat
    decreases trees,
{
    if trees.len() == 0 {
        0
    } else {
        node_total(trees.drop_last()) + 1 + node_total(trees.last().children@)
    }
}

/// Adding a tree to a list adds its nodes to the total.
pub proof fn lemma_node_total_push(trees: Seq<Tree>, tree: Tree)
    ensures
        node_total(trees.push(tree)) == node_total(trees) + 1 + node_total(tree.children@),
{
    assert(trees.push(tree).drop_last() =~= trees);
}

} // verus!
