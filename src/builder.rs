//! Construction of a tree of given depth and branching factor.
use vstd::prelude::*;
use vstd::arithmetic::power::pow;
use crate::tree::{Node, size, size_upto};

verus! {

/// `n` is the tree that building with `depth` and `branching` gives: a leaf of
/// value 0 at depth 0, otherwise a node of value `depth` with `branching`
/// children, each built with `depth - 1`.
pub open spec fn is_built(n: Node, depth: nat, branching: nat) -> bool
    decreases depth,
{
    if depth == 0 {
        n.value == 0 && n.children.len() == 0
    } else {
        &&& n.value == depth
        &&& n.children.len() == branching
        &&& forall|i: int| 0 <= i < branching ==> is_built(#[trigger] n.children[i], (depth - 1) as nat, branching)
    }
}

/// Builds the tree of the given depth and branching factor.
pub fn create_tree(num_row: u64, num_child: u64) -> (r: Node)
    ensures
        is_built(r, num_row as nat, num_child as nat),
    decreases num_row,
{
    if num_row == 0 {
        return Node { children: Vec::new(), value: 0 };
    }
    let mut children: Vec<Node> = Vec::new();
    let mut i: u64 = 0;
    while i < num_child
        invariant
            i <= num_child,
            children.len() == i,
            num_row > 0,
            forall|j: int| 0 <= j < i ==> is_built(#[trigger] children[j], (num_row - 1) as nat, num_child as nat),
        decreases num_child - i,
    {
        children.push(create_tree(num_row - 1, num_child));
        i = i + 1;
    }
    Node { children, value: num_row }
}

proof fn lemma_size_upto_uniform(n: Node, k: int, s: nat)
    requires
        0 <= k <= n.children.len(),
        forall|i: int| 0 <= i < n.children.len() ==> size(#[trigger] n.children[i]) == s,
    ensures
        size_upto(n, k) == k * s,
    decreases k,
{
    if k > 0 {
        lemma_size_upto_uniform(n, k - 1, s);
        assert(size(n.children[k - 1]) == s);
        assert(size_upto(n, k) == size_upto(n, k - 1) + size(n.children[k - 1]));
        assert((k - 1) * s + s == k * s) by (nonlinear_arith);
        assert(size_upto(n, k) == k * s);
    } else {
        assert(0 * s == 0);
    }
}

proof fn lemma_built_size_times(n: Node, depth: nat, branching: nat)
    requires
        is_built(n, depth, branching),
    ensures
        size(n) * (branching - 1) == pow(branching as int, depth + 1) - 1,
        branching == 1 ==> size(n) == depth + 1,
        branching == 0 ==> size(n) == 1,
    decreases depth,
{
    reveal(pow);
    let b = branching as int;
    if depth == 0 {
        assert(size(n) == 1 + size_upto(n, 0));
        assert(pow(b, 1) == b * pow(b, 0));
        assert(size(n) * (b - 1) == pow(b, 1) - 1) by (nonlinear_arith)
            requires
                size(n) == 1,
                pow(b, 1) == b,
        ;
    } else {
        let d = (depth - 1) as nat;
        if branching == 0 {
            assert(size(n) == 1 + size_upto(n, 0));
            assert(pow(b, depth + 1) == b * pow(b, depth));
            assert(size(n) * (b - 1) == pow(b, depth + 1) - 1) by (nonlinear_arith)
                requires
                    size(n) == 1,
                    b == 0,
                    pow(b, depth + 1) == b * pow(b, depth),
            ;
        } else {
            let c0 = n.children[0];
            assert(is_built(c0, d, branching));
            lemma_built_size_times(c0, d, branching);
            let s = size(c0);
            assert forall|i: int| 0 <= i < n.children.len() implies size(#[trigger] n.children[i])
                == s by {
                assert(is_built(n.children[i], d, branching));
                lemma_built_size_times(n.children[i], d, branching);
                let si = size(n.children[i]);
                if branching != 1 {
                    assert(si * (b - 1) == s * (b - 1));
                    assert(b - 1 != 0);
                    assert(si == s) by (nonlinear_arith)
                        requires
                            si * (b - 1) == s * (b - 1),
                            b - 1 != 0,
                    ;
                }
            }
            lemma_size_upto_uniform(n, b, s);
            assert(size(n) == 1 + b * s);
            assert(pow(b, depth + 1) == b * pow(b, depth));
            let p = pow(b, depth);
            assert(s * (b - 1) == p - 1);
            assert((1 + b * s) * (b - 1) == b * p - 1) by (nonlinear_arith)
                requires
                    s * (b - 1) == p - 1,
            ;
            assert(size(n) * (b - 1) == pow(b, depth + 1) - 1);
        }
    }
}

/// A tree built with `depth` and `branching` has
/// `(branching^(depth+1) - 1) / (branching - 1)` nodes when `branching != 1`,
/// `depth + 1` nodes when `branching == 1`, and one node when `branching == 0`.
pub proof fn lemma_built_size(n: Node, depth: nat, branching: nat)
    requires
        is_built(n, depth, branching),
    ensures
        branching != 1 ==> size(n) == (pow(branching as int, depth + 1) - 1) / (branching - 1),
        branching == 1 ==> size(n) == depth + 1,
        branching == 0 ==> size(n) == 1,
{
    lemma_built_size_times(n, depth, branching);
    if branching == 0 {
        reveal(pow);
        assert(pow(0, depth + 1) == 0 * pow(0, depth));
        assert((pow(branching as int, depth + 1) - 1) / (branching - 1) == 1);
    } else if branching != 1 {
        let b = branching - 1;
        let s = size(n) as int;
        let y = pow(branching as int, depth + 1) - 1;
        assert(s * b == y);
        vstd::arithmetic::div_mod::lemma_div_multiples_vanish(s, b);
        assert(b * s == s * b) by (nonlinear_arith);
    }
}

} // verus!
