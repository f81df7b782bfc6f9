//! What holds of every tree and every strategy, proved from the model.
use vstd::prelude::*;
use vstd::multiset::Multiset;
use crate::tree::{
    Node, size, size_upto, node_values, values_upto, preorder, preorder_upto, postorder,
    postorder_upto, mirror_preorder, mirror_from,
};
use crate::forest::{
    vals, kids, level, levels_from, level_order, levels_above, forest_size, lemma_forest_size_kids,
};

verus! {

broadcast use vstd::std_specs::vec::axiom_vec_index_decreases;

/// Breadth-first order puts every node at depth below `d` first, then the
/// nodes at depth `d` left to right, then the deeper ones: the visits are
/// grouped by depth, shallower groups first.
pub proof fn lemma_level_order_by_depth(n: Node, d: nat)
    ensures
        level_order(n) == levels_above(n, d) + levels_from(level(n, d)),
        levels_from(level(n, d)) == vals(level(n, d)) + levels_from(level(n, d + 1)),
    decreases d,
{
    let l = level(n, d);
    assert(level(n, d + 1) == kids(l));
    if l.len() == 0 {
        assert(kids(l) =~= Seq::<Node>::empty());
        assert(vals(l) =~= Seq::<u64>::empty());
        assert(levels_from(l) =~= vals(l) + levels_from(kids(l)));
    }
    if d == 0 {
        assert(levels_above(n, 0) + levels_from(level(n, 0)) =~= level_order(n));
    } else {
        let e = (d - 1) as nat;
        lemma_level_order_by_depth(n, e);
        assert(level(n, d) == kids(level(n, e)));
        assert(levels_above(n, d) == levels_above(n, e) + vals(level(n, e)));
        assert(level_order(n) =~= levels_above(n, d) + levels_from(level(n, d)));
    }
}

pub proof fn lemma_preorder_len(n: Node)
    ensures
        preorder(n).len() == size(n),
    decreases n, n.children.len() + 1,
{
    lemma_preorder_upto_len(n, n.children.len() as int);
}

pub proof fn lemma_preorder_upto_len(n: Node, k: int)
    requires
        0 <= k <= n.children.len(),
    ensures
        preorder_upto(n, k).len() == size_upto(n, k),
    decreases n, k,
{
    if k > 0 {
        lemma_preorder_upto_len(n, k - 1);
        lemma_preorder_len(n.children[k - 1]);
    }
}

/// The first `size_upto(n, k)` values of `preorder_upto(n, j)` are
/// `preorder_upto(n, k)`, for `k <= j`.
proof fn lemma_preorder_upto_prefix(n: Node, k: int, j: int)
    requires
        0 <= k <= j <= n.children.len(),
    ensures
        preorder_upto(n, j).subrange(0, size_upto(n, k) as int) == preorder_upto(n, k),
    decreases j,
{
    lemma_preorder_upto_len(n, k);
    if k == j {
        assert(preorder_upto(n, j).subrange(0, size_upto(n, k) as int) =~= preorder_upto(n, k));
    } else {
        lemma_preorder_upto_prefix(n, k, j - 1);
        lemma_preorder_upto_len(n, j - 1);
        lemma_upto_monotone(n, k, j - 1);
        assert(preorder_upto(n, j).subrange(0, size_upto(n, k) as int) =~= preorder_upto(n, j
            - 1).subrange(0, size_upto(n, k) as int));
    }
}

proof fn lemma_upto_monotone(n: Node, k: int, j: int)
    requires
        0 <= k <= j <= n.children.len(),
    ensures
        size_upto(n, k) <= size_upto(n, j),
    decreases j,
{
    if k < j {
        lemma_upto_monotone(n, k, j - 1);
    }
}

/// Pre-order visits a node strictly before its descendants: the node comes
/// first, and the subtree of its child `i` is visited, in pre-order, at
/// positions after it, following the subtrees of the children to its left.
pub proof fn lemma_preorder_node_first(n: Node, i: int)
    requires
        0 <= i < n.children.len(),
    ensures
        preorder(n).len() == size(n),
        preorder(n)[0] == n.value,
        preorder(n).subrange(1 + size_upto(n, i) as int, 1 + size_upto(n, i + 1) as int) == preorder(
            n.children[i],
        ),
{
    let len = n.children.len() as int;
    lemma_preorder_len(n);
    lemma_preorder_upto_prefix(n, i + 1, len);
    lemma_preorder_upto_len(n, i);
    lemma_preorder_len(n.children[i]);
    lemma_upto_monotone(n, i + 1, len);
    let whole = preorder_upto(n, len);
    assert(preorder(n).subrange(1 + size_upto(n, i) as int, 1 + size_upto(n, i + 1) as int) =~= whole.subrange(
        size_upto(n, i) as int,
        size_upto(n, i + 1) as int,
    ));
    assert(whole.subrange(size_upto(n, i) as int, size_upto(n, i + 1) as int) =~= preorder_upto(
        n,
        i + 1,
    ).subrange(size_upto(n, i) as int, size_upto(n, i + 1) as int));
    assert(preorder_upto(n, i + 1).subrange(size_upto(n, i) as int, size_upto(n, i + 1) as int)
        =~= preorder(n.children[i]));
}

pub proof fn lemma_postorder_len(n: Node)
    ensures
        postorder(n).len() == size(n),
    decreases n, n.children.len() + 1,
{
    lemma_postorder_upto_len(n, n.children.len() as int);
}

pub proof fn lemma_postorder_upto_len(n: Node, k: int)
    requires
        0 <= k <= n.children.len(),
    ensures
        postorder_upto(n, k).len() == size_upto(n, k),
    decreases n, k,
{
    if k > 0 {
        lemma_postorder_upto_len(n, k - 1);
        lemma_postorder_len(n.children[k - 1]);
    }
}

proof fn lemma_postorder_upto_prefix(n: Node, k: int, j: int)
    requires
        0 <= k <= j <= n.children.len(),
    ensures
        postorder_upto(n, j).subrange(0, size_upto(n, k) as int) == postorder_upto(n, k),
    decreases j,
{
    lemma_postorder_upto_len(n, k);
    if k == j {
        assert(postorder_upto(n, j).subrange(0, size_upto(n, k) as int) =~= postorder_upto(n, k));
    } else {
        lemma_postorder_upto_prefix(n, k, j - 1);
        lemma_postorder_upto_len(n, j - 1);
        lemma_upto_monotone(n, k, j - 1);
        assert(postorder_upto(n, j).subrange(0, size_upto(n, k) as int) =~= postorder_upto(n, j
            - 1).subrange(0, size_upto(n, k) as int));
    }
}

/// Post-order visits a node strictly after its descendants: the node comes
/// last, and the subtree of its child `i` is visited, in post-order, at
/// positions before it, following the subtrees of the children to its left.
pub proof fn lemma_postorder_node_last(n: Node, i: int)
    requires
        0 <= i < n.children.len(),
    ensures
        postorder(n).len() == size(n),
        postorder(n)[size(n) - 1] == n.value,
        size_upto(n, i + 1) < size(n),
        postorder(n).subrange(size_upto(n, i) as int, size_upto(n, i + 1) as int) == postorder(
            n.children[i],
        ),
{
    let len = n.children.len() as int;
    lemma_postorder_len(n);
    lemma_postorder_upto_prefix(n, i + 1, len);
    lemma_postorder_upto_len(n, i);
    lemma_postorder_upto_len(n, len);
    lemma_postorder_len(n.children[i]);
    lemma_upto_monotone(n, i + 1, len);
    let whole = postorder_upto(n, len);
    assert(postorder(n).subrange(size_upto(n, i) as int, size_upto(n, i + 1) as int) =~= whole.subrange(
        size_upto(n, i) as int,
        size_upto(n, i + 1) as int,
    ));
    assert(whole.subrange(size_upto(n, i) as int, size_upto(n, i + 1) as int) =~= postorder_upto(
        n,
        i + 1,
    ).subrange(size_upto(n, i) as int, size_upto(n, i + 1) as int));
    assert(postorder_upto(n, i + 1).subrange(size_upto(n, i) as int, size_upto(n, i + 1) as int)
        =~= postorder(n.children[i]));
}

proof fn lemma_empty_to_multiset()
    ensures
        Seq::<u64>::empty().to_multiset() == Multiset::<u64>::empty(),
{
    broadcast use vstd::seq_lib::group_to_multiset_ensures;
    broadcast use vstd::multiset::lemma_multiset_empty_len;

    assert(Seq::<u64>::empty().to_multiset().len() == 0);
}

/// The multiset of values of a sequence of subtrees.
pub open spec fn forest_values(s: Seq<Node>) -> Multiset<u64>
    decreases s.len(),
{
    if s.len() == 0 {
        Multiset::empty()
    } else {
        forest_values(s.drop_last()).add(node_values(s.last()))
    }
}

proof fn lemma_forest_values_concat(a: Seq<Node>, b: Seq<Node>)
    ensures
        forest_values(a + b) == forest_values(a).add(forest_values(b)),
    decreases b.len(),
{
    broadcast use vstd::multiset::group_multiset_axioms;

    if b.len() == 0 {
        assert(a + b =~= a);
        assert(forest_values(a + b) =~= forest_values(a).add(forest_values(b)));
    } else {
        lemma_forest_values_concat(a, b.drop_last());
        assert((a + b).drop_last() =~= a + b.drop_last());
        assert(forest_values(a + b) =~= forest_values(a).add(forest_values(b)));
    }
}

proof fn lemma_forest_values_children(n: Node, k: int)
    requires
        0 <= k <= n.children.len(),
    ensures
        forest_values(n.children@.take(k)) == values_upto(n, k),
    decreases k,
{
    if k > 0 {
        lemma_forest_values_children(n, k - 1);
        assert(n.children@.take(k).drop_last() =~= n.children@.take(k - 1));
    }
}

proof fn lemma_vals_kids_values(s: Seq<Node>)
    ensures
        vals(s).to_multiset().add(forest_values(kids(s))) == forest_values(s),
    decreases s.len(),
{
    broadcast use vstd::multiset::group_multiset_axioms;
    broadcast use vstd::seq_lib::group_to_multiset_ensures;

    if s.len() == 0 {
        assert(vals(s) =~= Seq::<u64>::empty());
        assert(vals(s).to_multiset().add(forest_values(kids(s))) =~= forest_values(s));
    } else {
        let x = s.last();
        let t = s.drop_last();
        lemma_vals_kids_values(t);
        lemma_forest_values_concat(kids(t), x.children@);
        lemma_forest_values_children(x, x.children.len() as int);
        assert(x.children@.take(x.children.len() as int) =~= x.children@);
        assert(vals(s) =~= vals(t).push(x.value));
        assert(node_values(x) == Multiset::singleton(x.value).add(
            values_upto(x, x.children.len() as int),
        ));
        assert(vals(s).to_multiset().add(forest_values(kids(s))) =~= forest_values(s));
    }
}

proof fn lemma_levels_values(s: Seq<Node>)
    ensures
        levels_from(s).to_multiset() == forest_values(s),
    decreases forest_size(s),
{
    broadcast use vstd::multiset::group_multiset_axioms;
    broadcast use vstd::seq_lib::lemma_multiset_commutative;

    if s.len() == 0 {
        lemma_empty_to_multiset();
        assert(levels_from(s).to_multiset() =~= forest_values(s));
    } else {
        lemma_forest_size_kids(s);
        lemma_levels_values(kids(s));
        lemma_vals_kids_values(s);
    }
}

proof fn lemma_preorder_values(n: Node)
    ensures
        preorder(n).to_multiset() == node_values(n),
    decreases n, n.children.len() + 1,
{
    broadcast use vstd::multiset::group_multiset_axioms;
    broadcast use vstd::seq_lib::lemma_multiset_commutative;
    broadcast use vstd::seq_lib::group_to_multiset_ensures;

    lemma_preorder_upto_values(n, n.children.len() as int);
    assert(Seq::<u64>::empty().push(n.value) =~= seq![n.value]);
    assert(seq![n.value].to_multiset() =~= Multiset::singleton(n.value));
}

proof fn lemma_preorder_upto_values(n: Node, k: int)
    requires
        0 <= k <= n.children.len(),
    ensures
        preorder_upto(n, k).to_multiset() == values_upto(n, k),
    decreases n, k,
{
    broadcast use vstd::multiset::group_multiset_axioms;
    broadcast use vstd::seq_lib::lemma_multiset_commutative;

    if k == 0 {
        lemma_empty_to_multiset();
        assert(preorder_upto(n, k).to_multiset() =~= values_upto(n, k));
    } else {
        lemma_preorder_upto_values(n, k - 1);
        lemma_preorder_values(n.children[k - 1]);
    }
}

proof fn lemma_postorder_values(n: Node)
    ensures
        postorder(n).to_multiset() == node_values(n),
    decreases n, n.children.len() + 1,
{
    broadcast use vstd::multiset::group_multiset_axioms;
    broadcast use vstd::seq_lib::group_to_multiset_ensures;

    lemma_postorder_upto_values(n, n.children.len() as int);
    assert(postorder(n).to_multiset() =~= node_values(n));
}

proof fn lemma_postorder_upto_values(n: Node, k: int)
    requires
        0 <= k <= n.children.len(),
    ensures
        postorder_upto(n, k).to_multiset() == values_upto(n, k),
    decreases n, k,
{
    broadcast use vstd::multiset::group_multiset_axioms;
    broadcast use vstd::seq_lib::lemma_multiset_commutative;

    if k == 0 {
        lemma_empty_to_multiset();
        assert(postorder_upto(n, k).to_multiset() =~= values_upto(n, k));
    } else {
        lemma_postorder_upto_values(n, k - 1);
        lemma_postorder_values(n.children[k - 1]);
    }
}

proof fn lemma_mirror_values(n: Node)
    ensures
        mirror_preorder(n).to_multiset() == node_values(n),
    decreases n, n.children.len() + 1,
{
    broadcast use vstd::multiset::group_multiset_axioms;
    broadcast use vstd::seq_lib::lemma_multiset_commutative;
    broadcast use vstd::seq_lib::group_to_multiset_ensures;

    lemma_mirror_from_values(n, 0);
    assert(Seq::<u64>::empty().push(n.value) =~= seq![n.value]);
    assert(seq![n.value].to_multiset() =~= Multiset::singleton(n.value));
    assert(mirror_from(n, 0).to_multiset().add(values_upto(n, 0)) =~= mirror_from(
        n,
        0,
    ).to_multiset());
}

proof fn lemma_mirror_from_values(n: Node, k: int)
    requires
        0 <= k <= n.children.len(),
    ensures
        mirror_from(n, k).to_multiset().add(values_upto(n, k)) == values_upto(
            n,
            n.children.len() as int,
        ),
    decreases n, n.children.len() - k,
{
    broadcast use vstd::multiset::group_multiset_axioms;
    broadcast use vstd::seq_lib::lemma_multiset_commutative;

    if k == n.children.len() {
        lemma_empty_to_multiset();
        assert(mirror_from(n, k).to_multiset().add(values_upto(n, k)) =~= values_upto(n, k));
    } else {
        lemma_mirror_from_values(n, k + 1);
        lemma_mirror_values(n.children[k]);
        assert(values_upto(n, k + 1) == values_upto(n, k).add(node_values(n.children[k])));
        assert(mirror_from(n, k).to_multiset().add(values_upto(n, k)) =~= mirror_from(
            n,
            k + 1,
        ).to_multiset().add(values_upto(n, k + 1)));
    }
}

pub proof fn lemma_node_values_len(n: Node)
    ensures
        node_values(n).len() == size(n),
    decreases n, n.children.len() + 1,
{
    lemma_values_upto_len(n, n.children.len() as int);
}

proof fn lemma_values_upto_len(n: Node, k: int)
    requires
        0 <= k <= n.children.len(),
    ensures
        values_upto(n, k).len() == size_upto(n, k),
    decreases n, k,
{
    if k > 0 {
        lemma_values_upto_len(n, k - 1);
        lemma_node_values_len(n.children[k - 1]);
    }
}

/// Pre-order, post-order, the stack-based and the queue-based strategies
/// each visit every node exactly once: the multiset of values they emit is
/// the multiset of the tree's node values, and they emit one value per node.
pub proof fn lemma_every_node_visited_once(n: Node)
    ensures
        preorder(n).to_multiset() == node_values(n),
        postorder(n).to_multiset() == node_values(n),
        mirror_preorder(n).to_multiset() == node_values(n),
        level_order(n).to_multiset() == node_values(n),
        preorder(n).len() == size(n),
        postorder(n).len() == size(n),
        mirror_preorder(n).len() == size(n),
        level_order(n).len() == size(n),
{
    broadcast use vstd::seq_lib::group_to_multiset_ensures;

    lemma_preorder_values(n);
    lemma_postorder_values(n);
    lemma_mirror_values(n);
    lemma_levels_values(seq![n]);
    assert(seq![n].drop_last() =~= Seq::<Node>::empty());
    assert(seq![n].last() == n);
    assert(forest_values(Seq::<Node>::empty()) =~= Multiset::<u64>::empty());
    assert(forest_values(seq![n]) =~= node_values(n));
    lemma_node_values_len(n);
}

} // verus!
