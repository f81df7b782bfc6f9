//! The traversal strategies. Each reads the tree and returns the values it
//! visits, in order. The recursive ones use the call stack, so a very deep
//! tree can exhaust it; the iterative ones keep their work on the heap.
use vstd::prelude::*;
use std::collections::VecDeque;
use crate::tree::{
    Node, Visit, size, size_upto, preorder, preorder_upto, postorder, postorder_upto, mirror_preorder,
    mirror_from, inorder,
};
use crate::forest::{
    nodes_of, forest_size, lemma_forest_size_concat, lemma_forest_size_children,
    lemma_forest_size_expand, stack_order, queue_order, level_order, lemma_queue_order_levels,
    lemma_kids_single,
};

verus! {

broadcast use vstd::std_specs::vec::axiom_vec_index_decreases;

/// Appends the pre-order sequence of `n` to `out`.
fn preorder_into(n: &Node, out: &mut Vec<u64>)
    ensures
        final(out)@ == old(out)@ + preorder(*n),
    decreases n,
{
    out.push(n.value);
    let mut i: usize = 0;
    while i < n.children.len()
        invariant
            i <= n.children.len(),
            out@ == old(out)@ + seq![n.value] + preorder_upto(*n, i as int),
        decreases n.children.len() - i,
    {
        preorder_into(&n.children[i], out);
        i = i + 1;
    }
    assert(out@ =~= old(out)@ + preorder(*n));
}

/// Pre-order: each node before its children, children left to right.
pub fn dfs_recursive(n: &Node) -> (r: Vec<u64>)
    ensures
        r@ == preorder(*n),
{
    let mut out: Vec<u64> = Vec::new();
    preorder_into(n, &mut out);
    assert(out@ =~= preorder(*n));
    out
}

/// Appends the post-order sequence of `n` to `out`.
fn postorder_into(n: &Node, out: &mut Vec<u64>)
    ensures
        final(out)@ == old(out)@ + postorder(*n),
    decreases n,
{
    let mut i: usize = 0;
    while i < n.children.len()
        invariant
            i <= n.children.len(),
            out@ == old(out)@ + postorder_upto(*n, i as int),
        decreases n.children.len() - i,
    {
        postorder_into(&n.children[i], out);
        i = i + 1;
    }
    out.push(n.value);
    assert(out@ =~= old(out)@ + postorder(*n));
}

/// Post-order: each node after its children, children left to right.
pub fn dfs_recursive_postorder(n: &Node) -> (r: Vec<u64>)
    ensures
        r@ == postorder(*n),
{
    let mut out: Vec<u64> = Vec::new();
    postorder_into(n, &mut out);
    assert(out@ =~= postorder(*n));
    out
}

/// Appends the in-order sequence of `n` to `out`.
fn inorder_into(n: &Node, out: &mut Vec<Visit>)
    ensures
        final(out)@ == old(out)@ + inorder(*n),
    decreases n,
{
    let len = n.children.len();
    if len == 2 {
        inorder_into(&n.children[0], out);
        out.push(Visit::Value(n.value));
        inorder_into(&n.children[1], out);
    } else if len == 1 {
        inorder_into(&n.children[0], out);
        out.push(Visit::Value(n.value));
    } else if len == 0 {
        out.push(Visit::Value(n.value));
    } else {
        out.push(Visit::NotBinary);
    }
    assert(out@ =~= old(out)@ + inorder(*n));
}

/// In-order for binary trees: left subtree, node, right subtree. A lone
/// child is taken as the left one. A node with more than two children is
/// reported as `NotBinary` and its subtree is skipped; the walk goes on.
pub fn dfs_recursive_inorder_btree(n: &Node) -> (r: Vec<Visit>)
    ensures
        r@ == inorder(*n),
{
    let mut out: Vec<Visit> = Vec::new();
    inorder_into(n, &mut out);
    assert(out@ =~= inorder(*n));
    out
}

/// Depth-first with an explicit stack: pop a node, visit it, push its
/// children left to right. Siblings therefore come out right to left.
pub fn dfs_stack(n: &Node) -> (r: Vec<u64>)
    ensures
        r@ == mirror_preorder(*n),
{
    let mut stack: Vec<&Node> = Vec::new();
    stack.push(n);
    let mut out: Vec<u64> = Vec::new();
    proof {
        assert(nodes_of(stack@) =~= seq![*n]);
        assert(nodes_of(stack@).drop_last() =~= Seq::<Node>::empty());
        assert(nodes_of(stack@).last() == *n);
        assert(stack_order(Seq::<Node>::empty()) =~= Seq::<u64>::empty());
        assert(stack_order(nodes_of(stack@)) =~= mirror_preorder(*n));
    }
    while stack.len() > 0
        invariant
            out@ + stack_order(nodes_of(stack@)) == mirror_preorder(*n),
        decreases forest_size(nodes_of(stack@)),
    {
        let ghost before = nodes_of(stack@);
        let cur = stack.pop().unwrap();
        let ghost rest = nodes_of(stack@);
        proof {
            assert(before.drop_last() =~= rest);
            assert(before.last() == *cur);
            assert(mirror_preorder(*cur) == seq![cur.value] + mirror_from(*cur, 0));
        }
        out.push(cur.value);
        proof {
            assert(out@ + mirror_from(*cur, 0) + stack_order(rest) =~= mirror_preorder(*n));
            assert(rest + cur.children@.take(0) =~= rest);
        }
        let mut i: usize = 0;
        while i < cur.children.len()
            invariant
                i <= cur.children.len(),
                nodes_of(stack@) == rest + cur.children@.take(i as int),
                out@ + mirror_from(*cur, i as int) + stack_order(nodes_of(stack@)) == mirror_preorder(*n),
            decreases cur.children.len() - i,
        {
            let ghost prev = nodes_of(stack@);
            stack.push(&cur.children[i]);
            proof {
                let c = cur.children[i as int];
                assert(nodes_of(stack@) =~= prev.push(c));
                assert(nodes_of(stack@) =~= rest + cur.children@.take(i + 1));
                assert(nodes_of(stack@).drop_last() =~= prev);
                assert(mirror_from(*cur, i as int) == mirror_from(*cur, i + 1) + mirror_preorder(c));
                assert(out@ + mirror_from(*cur, i + 1) + stack_order(nodes_of(stack@)) =~= out@
                    + mirror_from(*cur, i as int) + stack_order(prev));
            }
            i = i + 1;
        }
        proof {
            assert(cur.children@.take(cur.children.len() as int) =~= cur.children@);
            lemma_forest_size_concat(rest, cur.children@);
            lemma_forest_size_children(*cur, cur.children.len() as int);
            assert(before =~= rest.push(*cur));
            assert(forest_size(before) == forest_size(rest) + size(*cur));
            assert(size(*cur) == 1 + size_upto(*cur, cur.children.len() as int));
        }
    }
    assert(out@ =~= mirror_preorder(*n));
    out
}

/// Breadth-first with an explicit queue: dequeue a node, visit it, enqueue
/// its children left to right.
pub fn bfs_queue(n: &Node) -> (r: Vec<u64>)
    ensures
        r@ == level_order(*n),
{
    let mut queue: VecDeque<&Node> = VecDeque::new();
    queue.push_back(n);
    let mut out: Vec<u64> = Vec::new();
    assert(nodes_of(queue@) =~= seq![*n]);
    while queue.len() > 0
        invariant
            out@ + queue_order(nodes_of(queue@)) == queue_order(seq![*n]),
        decreases forest_size(nodes_of(queue@)),
    {
        let ghost before = nodes_of(queue@);
        let cur = queue.pop_front().unwrap();
        let ghost rest = nodes_of(queue@);
        proof {
            assert(before.drop_first() =~= rest);
            assert(before[0] == *cur);
            lemma_forest_size_expand(before);
        }
        out.push(cur.value);
        proof {
            assert(out@ + queue_order(rest + cur.children@) =~= queue_order(seq![*n]));
            assert(rest + cur.children@.take(0) =~= rest);
        }
        let mut i: usize = 0;
        while i < cur.children.len()
            invariant
                i <= cur.children.len(),
                nodes_of(queue@) == rest + cur.children@.take(i as int),
            decreases cur.children.len() - i,
        {
            let ghost prev = nodes_of(queue@);
            queue.push_back(&cur.children[i]);
            assert(nodes_of(queue@) =~= prev.push(cur.children[i as int]));
            assert(nodes_of(queue@) =~= rest + cur.children@.take(i + 1));
            i = i + 1;
        }
        assert(cur.children@.take(cur.children.len() as int) =~= cur.children@);
    }
    proof {
        lemma_queue_order_levels(seq![*n], Seq::empty());
        lemma_kids_single(*n);
        assert(seq![*n] + Seq::<Node>::empty() =~= seq![*n]);
        assert(Seq::<Node>::empty() + n.children@ =~= n.children@);
        assert(out@ =~= level_order(*n));
    }
    out
}

} // verus!
