use tree_traversal::{
    bfs_queue, create_tree, dfs_recursive, dfs_recursive_inorder_btree, dfs_recursive_postorder,
    dfs_stack, Node, Visit,
};

fn leaf(value: u64) -> Node {
    Node { children: vec![], value }
}

fn node(value: u64, children: Vec<Node>) -> Node {
    Node { children, value }
}

fn count_nodes(n: &Node) -> usize {
    1 + n.children.iter().map(count_nodes).sum::<usize>()
}

fn sorted(mut v: Vec<u64>) -> Vec<u64> {
    v.sort();
    v
}

fn values(n: &Node) -> Vec<u64> {
    let mut out = vec![n.value];
    for c in &n.children {
        out.extend(values(c));
    }
    out
}

fn formula(depth: u64, branching: u64) -> usize {
    if branching == 1 {
        (depth + 1) as usize
    } else {
        let b = branching as i64;
        ((b.pow(depth as u32 + 1) - 1) / (b - 1)) as usize
    }
}

#[test]
fn build_leaf_at_depth_zero() {
    for n in [0u64, 1, 2, 3, 10] {
        let t = create_tree(0, n);
        assert_eq!(t.value, 0);
        assert!(t.children.is_empty());
        assert_eq!(dfs_recursive(&t), vec![0]);
        assert_eq!(dfs_recursive_postorder(&t), vec![0]);
        assert_eq!(dfs_stack(&t), vec![0]);
        assert_eq!(bfs_queue(&t), vec![0]);
        assert_eq!(dfs_recursive_inorder_btree(&t), vec![Visit::Value(0)]);
    }
}

#[test]
fn build_two_three_has_thirteen_nodes() {
    let t = create_tree(2, 3);
    assert_eq!(count_nodes(&t), 13);
    assert_eq!(dfs_recursive(&t).len(), 13);
    assert_eq!(dfs_recursive_postorder(&t).len(), 13);
    assert_eq!(dfs_stack(&t).len(), 13);
    assert_eq!(bfs_queue(&t).len(), 13);
}

#[test]
fn build_shape() {
    let t = create_tree(2, 3);
    assert_eq!(t.value, 2);
    assert_eq!(t.children.len(), 3);
    for c in &t.children {
        assert_eq!(c.value, 1);
        assert_eq!(c.children.len(), 3);
        for g in &c.children {
            assert_eq!(g.value, 0);
            assert!(g.children.is_empty());
        }
    }
}

#[test]
fn build_zero_branching_is_single_root() {
    let t = create_tree(3, 0);
    assert_eq!(t.value, 3);
    assert!(t.children.is_empty());
    assert_eq!(dfs_recursive(&t), vec![3]);
    assert_eq!(bfs_queue(&t), vec![3]);
    assert_eq!(dfs_recursive_inorder_btree(&t), vec![Visit::Value(3)]);
}

#[test]
fn build_one_branching_is_chain() {
    let t = create_tree(4, 1);
    assert_eq!(count_nodes(&t), 5);
    assert_eq!(dfs_recursive(&t), vec![4, 3, 2, 1, 0]);
    assert_eq!(dfs_recursive_postorder(&t), vec![0, 1, 2, 3, 4]);
    assert_eq!(dfs_stack(&t), vec![4, 3, 2, 1, 0]);
    assert_eq!(bfs_queue(&t), vec![4, 3, 2, 1, 0]);
    let expected: Vec<Visit> = vec![0, 1, 2, 3, 4].into_iter().map(Visit::Value).collect();
    assert_eq!(dfs_recursive_inorder_btree(&t), expected);
}

#[test]
fn build_node_count_formula() {
    for depth in 0u64..5 {
        for branching in 0u64..5 {
            let t = create_tree(depth, branching);
            let expected = if branching == 0 { 1 } else { formula(depth, branching) };
            assert_eq!(count_nodes(&t), expected, "depth {} branching {}", depth, branching);
            assert_eq!(dfs_recursive(&t).len(), expected);
        }
    }
    assert_eq!(count_nodes(&create_tree(3, 3)), 40);
    assert_eq!(count_nodes(&create_tree(5, 2)), 63);
}

#[test]
fn preorder_of_default_tree() {
    let t = create_tree(2, 3);
    assert_eq!(dfs_recursive(&t), vec![2, 1, 0, 0, 0, 1, 0, 0, 0, 1, 0, 0, 0]);
}

#[test]
fn postorder_of_default_tree() {
    let t = create_tree(2, 3);
    assert_eq!(dfs_recursive_postorder(&t), vec![0, 0, 0, 1, 0, 0, 0, 1, 0, 0, 0, 1, 2]);
}

#[test]
fn stack_of_default_tree() {
    let t = create_tree(2, 3);
    assert_eq!(dfs_stack(&t), vec![2, 1, 0, 0, 0, 1, 0, 0, 0, 1, 0, 0, 0]);
}

#[test]
fn queue_of_default_tree() {
    let t = create_tree(2, 3);
    assert_eq!(bfs_queue(&t), vec![2, 1, 1, 1, 0, 0, 0, 0, 0, 0, 0, 0, 0]);
}

#[test]
fn inorder_of_binary_tree() {
    let t = create_tree(3, 2);
    let expected: Vec<Visit> = vec![0, 1, 0, 2, 0, 1, 0, 3, 0, 1, 0, 2, 0, 1, 0]
        .into_iter()
        .map(Visit::Value)
        .collect();
    assert_eq!(dfs_recursive_inorder_btree(&t), expected);
}

#[test]
fn orders_on_distinct_values() {
    // 1 -> [2 -> [4, 5], 3]
    let t = node(1, vec![node(2, vec![leaf(4), leaf(5)]), leaf(3)]);
    assert_eq!(dfs_recursive(&t), vec![1, 2, 4, 5, 3]);
    assert_eq!(dfs_recursive_postorder(&t), vec![4, 5, 2, 3, 1]);
    assert_eq!(dfs_stack(&t), vec![1, 3, 2, 5, 4]);
    assert_eq!(bfs_queue(&t), vec![1, 2, 3, 4, 5]);
    assert_eq!(
        dfs_recursive_inorder_btree(&t),
        vec![Visit::Value(4), Visit::Value(2), Visit::Value(5), Visit::Value(1), Visit::Value(3)]
    );
}

#[test]
fn stack_visits_siblings_right_to_left() {
    let t = node(0, vec![leaf(1), leaf(2), leaf(3)]);
    assert_eq!(dfs_recursive(&t), vec![0, 1, 2, 3]);
    assert_eq!(dfs_stack(&t), vec![0, 3, 2, 1]);
}

#[test]
fn every_strategy_visits_each_node_once() {
    let trees = vec![
        create_tree(3, 2),
        create_tree(2, 3),
        node(1, vec![node(2, vec![leaf(4), leaf(5)]), leaf(3), node(6, vec![leaf(7)])]),
    ];
    for t in &trees {
        let all = sorted(values(t));
        assert_eq!(sorted(dfs_recursive(t)), all);
        assert_eq!(sorted(dfs_recursive_postorder(t)), all);
        assert_eq!(sorted(dfs_stack(t)), all);
        assert_eq!(sorted(bfs_queue(t)), all);
    }
}

#[test]
fn queue_groups_by_depth() {
    // In a built tree a node's value is its distance from the bottom, so a
    // level-by-level walk gives values that never increase.
    let t = create_tree(3, 2);
    let v = bfs_queue(&t);
    assert_eq!(v, vec![3, 2, 2, 1, 1, 1, 1, 0, 0, 0, 0, 0, 0, 0, 0]);
    // depth 0: 1, depth 1: 2 and 3, depth 2: 4 and 5 and 6
    let u = node(1, vec![node(2, vec![leaf(4), leaf(5)]), node(3, vec![leaf(6)])]);
    assert_eq!(bfs_queue(&u), vec![1, 2, 3, 4, 5, 6]);
}

#[test]
fn parent_before_descendants_in_preorder_after_in_postorder() {
    let t = node(9, vec![node(2, vec![leaf(4), leaf(5)]), leaf(3)]);
    let pre = dfs_recursive(&t);
    let post = dfs_recursive_postorder(&t);
    assert_eq!(pre[0], 9);
    assert_eq!(*post.last().unwrap(), 9);
    let p2 = pre.iter().position(|&x| x == 2).unwrap();
    assert!(pre.iter().position(|&x| x == 4).unwrap() > p2);
    assert!(pre.iter().position(|&x| x == 5).unwrap() > p2);
    let q2 = post.iter().position(|&x| x == 2).unwrap();
    assert!(post.iter().position(|&x| x == 4).unwrap() < q2);
    assert!(post.iter().position(|&x| x == 5).unwrap() < q2);
}

#[test]
fn inorder_skips_non_binary_subtree() {
    // The left child has three children: it is reported once, and its
    // subtree is not visited; the root and its right child still are.
    // The skip drops those nodes silently apart from the mark.
    let t = node(7, vec![node(3, vec![leaf(8), leaf(9), leaf(10)]), leaf(6)]);
    assert_eq!(
        dfs_recursive_inorder_btree(&t),
        vec![Visit::NotBinary, Visit::Value(7), Visit::Value(6)]
    );
}

#[test]
fn inorder_non_binary_root() {
    let t = create_tree(2, 3);
    assert_eq!(dfs_recursive_inorder_btree(&t), vec![Visit::NotBinary]);
}

#[test]
fn inorder_single_child_is_left() {
    let t = node(5, vec![node(4, vec![leaf(1), leaf(2)])]);
    assert_eq!(
        dfs_recursive_inorder_btree(&t),
        vec![Visit::Value(1), Visit::Value(4), Visit::Value(2), Visit::Value(5)]
    );
}
