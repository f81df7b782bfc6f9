//! Sequences of subtrees, as held by the stack and the queue of the
//! iterative strategies, and the orders in which those strategies visit them.
use vstd::prelude::*;
use crate::tree::{Node, size, size_upto, mirror_preorder};

verus! {

broadcast use vstd::std_specs::vec::axiom_vec_index_decreases;

/// The nodes that a sequence of references points to.
pub open spec fn nodes_of(s: Seq<&Node>) -> Seq<Node> {
    s.map_values(|r: &Node| *r)
}

/// Total number of nodes in a sequence of subtrees.
pub open spec fn forest_size(s: Seq<Node>) -> nat
    decreases s.len(),
{
    if s.len() == 0 {
        0
    } else {
        forest_size(s.drop_last()) + size(s.last())
    }
}

pub proof fn lemma_forest_size_concat(a: Seq<Node>, b: Seq<Node>)
    ensures
        forest_size(a + b) == forest_size(a) + forest_size(b),
    decreases b.len(),
{
    if b.len() == 0 {
        assert(a + b =~= a);
    } else {
        lemma_forest_size_concat(a, b.drop_last());
        assert((a + b).drop_last() =~= a + b.drop_last());
    }
}

pub proof fn lemma_forest_size_children(n: Node, k: int)
    requires
        0 <= k <= n.children.len(),
    ensures
        forest_size(n.children@.take(k)) == size_upto(n, k),
    decreases k,
{
    if k > 0 {
        lemma_forest_size_children(n, k - 1);
        assert(n.children@.take(k).drop_last() =~= n.children@.take(k - 1));
    }
}

/// The subtrees of `s[0]`'s children together hold one node fewer than `s[0]`.
pub proof fn lemma_forest_size_expand(s: Seq<Node>)
    requires
        s.len() > 0,
    ensures
        forest_size(s.drop_first() + s[0].children@) + 1 == forest_size(s),
{
    let n = s[0];
    lemma_forest_size_concat(s.drop_first(), n.children@);
    lemma_forest_size_concat(seq![n], s.drop_first());
    assert(seq![n] + s.drop_first() =~= s);
    assert(seq![n].drop_last() =~= Seq::<Node>::empty());
    lemma_forest_size_children(n, n.children.len() as int);
    assert(n.children@.take(n.children.len() as int) =~= n.children@);
    assert(seq![n].last() == n);
    assert(forest_size(Seq::<Node>::empty()) == 0);
    assert(forest_size(seq![n]) == size(n));
    assert(size(n) == 1 + size_upto(n, n.children.len() as int));
}

/// The order in which a stack holding `s` (its top last) hands out the
/// values of its subtrees: each popped node is visited, then its children
/// are pushed left to right.
pub open spec fn stack_order(s: Seq<Node>) -> Seq<u64>
    decreases s.len(),
{
    if s.len() == 0 {
        Seq::empty()
    } else {
        mirror_preorder(s.last()) + stack_order(s.drop_last())
    }
}

/// The order in which a queue holding `q` (its front first) hands out the
/// values of its subtrees: each dequeued node is visited, then its children
/// are enqueued left to right.
pub open spec fn queue_order(q: Seq<Node>) -> Seq<u64>
    decreases forest_size(q),
{
    if q.len() == 0 {
        Seq::empty()
    } else {
        proof {
            lemma_forest_size_expand(q);
        }
        seq![q[0].value] + queue_order(q.drop_first() + q[0].children@)
    }
}

/// The values of a sequence of nodes, in order.
pub open spec fn vals(s: Seq<Node>) -> Seq<u64> {
    s.map_values(|x: Node| x.value)
}

/// The children of the nodes of `s`, in order: the next level down.
pub open spec fn kids(s: Seq<Node>) -> Seq<Node>
    decreases s.len(),
{
    if s.len() == 0 {
        Seq::empty()
    } else {
        kids(s.drop_last()) + s.last().children@
    }
}

pub proof fn lemma_kids_concat(a: Seq<Node>, b: Seq<Node>)
    ensures
        kids(a + b) == kids(a) + kids(b),
    decreases b.len(),
{
    if b.len() == 0 {
        assert(a + b =~= a);
        assert(kids(a) + kids(b) =~= kids(a));
    } else {
        lemma_kids_concat(a, b.drop_last());
        assert((a + b).drop_last() =~= a + b.drop_last());
        assert(kids(a + b) =~= kids(a) + kids(b));
    }
}

pub proof fn lemma_kids_single(n: Node)
    ensures
        kids(seq![n]) == n.children@,
{
    assert(seq![n].drop_last() =~= Seq::<Node>::empty());
    assert(seq![n].last() == n);
    assert(kids(Seq::<Node>::empty()) =~= Seq::<Node>::empty());
    assert(kids(seq![n]) =~= n.children@);
}

pub proof fn lemma_forest_size_kids(s: Seq<Node>)
    ensures
        forest_size(kids(s)) + s.len() == forest_size(s),
    decreases s.len(),
{
    if s.len() > 0 {
        let n = s.last();
        lemma_forest_size_kids(s.drop_last());
        lemma_forest_size_concat(kids(s.drop_last()), n.children@);
        lemma_forest_size_children(n, n.children.len() as int);
        assert(n.children@.take(n.children.len() as int) =~= n.children@);
    }
}

/// Level by level from the forest `s`: the values of `s`, then those of the
/// level below, and so on.
pub open spec fn levels_from(s: Seq<Node>) -> Seq<u64>
    decreases forest_size(s),
{
    if s.len() == 0 {
        Seq::empty()
    } else {
        proof {
            lemma_forest_size_kids(s);
        }
        vals(s) + levels_from(kids(s))
    }
}

/// Level order of the tree rooted at `n`: depth 0, then depth 1, and so on,
/// each level left to right.
pub open spec fn level_order(n: Node) -> Seq<u64> {
    levels_from(seq![n])
}

/// The nodes at depth `d` below `n`, left to right.
pub open spec fn level(n: Node, d: nat) -> Seq<Node>
    decreases d,
{
    if d == 0 {
        seq![n]
    } else {
        kids(level(n, (d - 1) as nat))
    }
}

/// The values of the nodes above depth `d`, level by level.
pub open spec fn levels_above(n: Node, d: nat) -> Seq<u64>
    decreases d,
{
    if d == 0 {
        Seq::empty()
    } else {
        levels_above(n, (d - 1) as nat) + vals(level(n, (d - 1) as nat))
    }
}

/// A queue holding `a` then `c`, where `c` is a prefix of the level below `a`,
/// hands out `a` and then continues level by level.
pub proof fn lemma_queue_order_levels(a: Seq<Node>, c: Seq<Node>)
    ensures
        queue_order(a + c) == vals(a) + levels_from(c + kids(a)),
    decreases forest_size(a + c), c.len(),
{
    if a.len() == 0 {
        assert(a + c =~= c);
        assert(kids(a) =~= Seq::<Node>::empty());
        assert(c + kids(a) =~= c);
        if c.len() > 0 {
            lemma_queue_order_levels(c, Seq::empty());
            assert(c + Seq::<Node>::empty() =~= c);
            assert(Seq::<Node>::empty() + kids(c) =~= kids(c));
        }
        assert(vals(a) + levels_from(c + kids(a)) =~= levels_from(c));
    } else {
        let q = a + c;
        let a0 = a[0];
        let a1 = a.drop_first();
        assert(q[0] == a0);
        assert(q.drop_first() + a0.children@ =~= a1 + (c + a0.children@));
        lemma_forest_size_expand(q);
        lemma_queue_order_levels(a1, c + a0.children@);
        assert(seq![a0] + a1 =~= a);
        lemma_kids_concat(seq![a0], a1);
        lemma_kids_single(a0);
        assert(c + a0.children@ + kids(a1) =~= c + kids(a));
        assert(vals(a) =~= seq![a0.value] + vals(a1));
        assert(queue_order(q) =~= vals(a) + levels_from(c + kids(a)));
    }
}

} // verus!
