//! The node type and the mathematical model of a tree: its size, the
//! multiset of its values and the order in which each strategy visits them.
use vstd::prelude::*;
use vstd::multiset::Multiset;

verus! {

broadcast use vstd::std_specs::vec::axiom_vec_index_decreases;

/// A tree node: a value and an ordered sequence of owned children.
pub struct Node {
    pub children: Vec<Node>,
    pub value: u64,
}

/// One item emitted by the in-order strategy: a node's value, or the mark
/// that a node with more than two children was met (its subtree is skipped).
#[derive(PartialEq, Eq, Structural, Debug, Clone, Copy)]
pub enum Visit {
    Value(u64),
    NotBinary,
}

/// Number of nodes in the subtree rooted at `n`.
pub open spec fn size(n: Node) -> nat
    decreases n, n.children.len() + 1,
{
    1 + size_upto(n, n.children.len() as int)
}

/// Number of nodes in the subtrees of the first `k` children of `n`.
pub open spec fn size_upto(n: Node, k: int) -> nat
    decreases n, if k >= 0 { k } else { 0 },
{
    if k <= 0 || k > n.children.len() {
        0
    } else {
        size_upto(n, k - 1) + size(n.children[k - 1])
    }
}

/// The multiset of the values held by the nodes of the subtree rooted at `n`.
pub open spec fn node_values(n: Node) -> Multiset<u64>
    decreases n, n.children.len() + 1,
{
    Multiset::singleton(n.value).add(values_upto(n, n.children.len() as int))
}

/// The multiset of values in the subtrees of the first `k` children of `n`.
pub open spec fn values_upto(n: Node, k: int) -> Multiset<u64>
    decreases n, if k >= 0 { k } else { 0 },
{
    if k <= 0 || k > n.children.len() {
        Multiset::empty()
    } else {
        values_upto(n, k - 1).add(node_values(n.children[k - 1]))
    }
}

/// Pre-order: the node, then each child's subtree, left to right.
pub open spec fn preorder(n: Node) -> Seq<u64>
    decreases n, n.children.len() + 1,
{
    seq![n.value] + preorder_upto(n, n.children.len() as int)
}

/// Pre-order sequences of the first `k` children of `n`, concatenated.
pub open spec fn preorder_upto(n: Node, k: int) -> Seq<u64>
    decreases n, if k >= 0 { k } else { 0 },
{
    if k <= 0 || k > n.children.len() {
        Seq::empty()
    } else {
        preorder_upto(n, k - 1) + preorder(n.children[k - 1])
    }
}

/// Post-order: each child's subtree, left to right, then the node.
pub open spec fn postorder(n: Node) -> Seq<u64>
    decreases n, n.children.len() + 1,
{
    postorder_upto(n, n.children.len() as int).push(n.value)
}

/// Post-order sequences of the first `k` children of `n`, concatenated.
pub open spec fn postorder_upto(n: Node, k: int) -> Seq<u64>
    decreases n, if k >= 0 { k } else { 0 },
{
    if k <= 0 || k > n.children.len() {
        Seq::empty()
    } else {
        postorder_upto(n, k - 1) + postorder(n.children[k - 1])
    }
}

/// Mirrored pre-order: the node, then each child's subtree, right to left.
/// This is the order in which a stack that receives the children left to
/// right hands the nodes out.
pub open spec fn mirror_preorder(n: Node) -> Seq<u64>
    decreases n, n.children.len() + 1,
{
    seq![n.value] + mirror_from(n, 0)
}

/// Mirrored pre-order sequences of the children of `n` from the last one
/// down to the child at index `k`, concatenated.
pub open spec fn mirror_from(n: Node, k: int) -> Seq<u64>
    decreases n, if 0 <= k <= n.children.len() { n.children.len() - k } else { 0 },
{
    if k < 0 || k >= n.children.len() {
        Seq::empty()
    } else {
        mirror_from(n, k + 1) + mirror_preorder(n.children[k])
    }
}

/// In-order for binary trees: left subtree, node, right subtree. A lone
/// child counts as the left one; a node with more than two children gives
/// a single `NotBinary` and none of its descendants.
pub open spec fn inorder(n: Node) -> Seq<Visit>
    decreases n,
{
    if n.children.len() == 0 {
        seq![Visit::Value(n.value)]
    } else if n.children.len() == 1 {
        inorder(n.children[0]).push(Visit::Value(n.value))
    } else if n.children.len() == 2 {
        inorder(n.children[0]) + seq![Visit::Value(n.value)] + inorder(n.children[1])
    } else {
        seq![Visit::NotBinary]
    }
}

} // verus!
