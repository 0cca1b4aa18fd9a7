use morris_postorder::tree::{build_test2, Node, Tree};
use morris_postorder::traverse::{postorder_recursive, traverse_postorder_no_stack};

fn snapshot(t: &Tree) -> Vec<(i32, Option<usize>, Option<usize>)> {
    let mut v = Vec::new();
    for n in t.nodes.iter() {
        v.push((n.value, n.left, n.right));
    }
    v
}

#[test]
fn node_new_fields() {
    let n = Node::new(5, Some(1), None);
    assert_eq!(n.value, 5);
    assert_eq!(n.left, Some(1));
    assert_eq!(n.right, None);
}

#[test]
fn empty_tree_no_visits() {
    let mut t = Tree::new();
    let out = traverse_postorder_no_stack(&mut t);
    assert_eq!(out, Vec::<i32>::new());
    assert_eq!(t.nodes.len(), 0);
}

#[test]
fn single_node_one_visit() {
    let mut t = Tree::new();
    let r = t.add_node(7, None, None);
    t.set_root(r);
    let out = traverse_postorder_no_stack(&mut t);
    assert_eq!(out, vec![7]);
}

#[test]
fn concrete_scenario_order() {
    let mut t = build_test2();
    let out = traverse_postorder_no_stack(&mut t);
    assert_eq!(out, vec![8, 4, 9, 11, 12, 10, 5, 2, 6, 7, 3, 1]);
}

#[test]
fn matches_recursive_reference() {
    let mut t = build_test2();
    let reference = postorder_recursive(&t);
    let out = traverse_postorder_no_stack(&mut t);
    assert_eq!(out, reference);
}

#[test]
fn structural_idempotence() {
    let mut t = build_test2();
    let before = snapshot(&t);
    let root_before = t.root;
    let _ = traverse_postorder_no_stack(&mut t);
    assert_eq!(snapshot(&t), before);
    assert_eq!(t.root, root_before);
    for th in t.threads.iter() {
        assert_eq!(*th, None);
    }
}

#[test]
fn traversal_is_repeatable() {
    let mut t = build_test2();
    let first = traverse_postorder_no_stack(&mut t);
    let second = traverse_postorder_no_stack(&mut t);
    assert_eq!(first, second);
}

#[test]
fn left_chain_deep() {
    let n: i32 = 1000;
    let mut t = Tree::new();
    let mut prev = t.add_node(n - 1, None, None);
    let mut d = n - 2;
    while d >= 0 {
        prev = t.add_node(d, Some(prev), None);
        d -= 1;
    }
    t.set_root(prev);
    let reference = postorder_recursive(&t);
    let out = traverse_postorder_no_stack(&mut t);
    assert_eq!(out.len(), n as usize);
    assert_eq!(out, reference);
    let expected: Vec<i32> = (0..n).rev().collect();
    assert_eq!(out, expected);
}

#[test]
fn right_chain_deep() {
    let n: i32 = 1000;
    let mut t = Tree::new();
    let mut prev = t.add_node(n - 1, None, None);
    let mut d = n - 2;
    while d >= 0 {
        prev = t.add_node(d, None, Some(prev));
        d -= 1;
    }
    t.set_root(prev);
    let reference = postorder_recursive(&t);
    let out = traverse_postorder_no_stack(&mut t);
    assert_eq!(out.len(), n as usize);
    assert_eq!(out, reference);
    let expected: Vec<i32> = (0..n).rev().collect();
    assert_eq!(out, expected);
}

#[test]
fn two_node_trees() {
    let mut t = Tree::new();
    let c = t.add_node(2, None, None);
    let r = t.add_node(1, Some(c), None);
    t.set_root(r);
    assert_eq!(traverse_postorder_no_stack(&mut t), vec![2, 1]);

    let mut u = Tree::new();
    let c2 = u.add_node(2, None, None);
    let r2 = u.add_node(1, None, Some(c2));
    u.set_root(r2);
    assert_eq!(traverse_postorder_no_stack(&mut u), vec![2, 1]);
}
