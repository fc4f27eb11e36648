use basic_tree::iterator::IterationType::{Postorder, Preorder};
use basic_tree::node::Node;
use basic_tree::tree::Tree;

/// tree struct
///      1
///    /   \
///   2     6
/// / |\   /|\
/// 3 4 5 7 8 9
///       |
///      10
fn init_basic_tree(tree: &mut Tree) -> usize {
    let node = tree.new_node(1);

    let c1 = tree.new_node(2);
    for v in [3, 4, 5] {
        let n = tree.new_node(v);
        tree.add_child(c1, n);
    }
    tree.add_child(node, c1);

    let c2 = tree.new_node(6);
    let c3 = tree.new_node(7);
    let n = tree.new_node(10);
    tree.add_child(c3, n);
    tree.add_child(c2, c3);
    for v in [8, 9] {
        let n = tree.new_node(v);
        tree.add_child(c2, n);
    }
    tree.add_child(node, c2);

    node
}

#[test]
fn tree_create_node() {
    const EXPECT: i32 = 1;
    let node = Node::new(EXPECT);

    assert_eq!(0, node.size());
    assert_eq!(EXPECT, node.value);
    assert_eq!(None, node.parent);
}

#[test]
fn tree_add_child() {
    const PARENT_VALUE: i32 = 1;
    const CHILD_VALUE: i32 = 2;
    let mut tree = Tree::new();
    let node = tree.new_node(PARENT_VALUE);
    let child = tree.new_node(CHILD_VALUE);

    tree.add_child(node, child);

    let child = tree.node(node).get_child(0).unwrap();
    assert_eq!(CHILD_VALUE, tree.node(child).value);

    let value = tree.node(tree.node(child).parent().unwrap()).value;
    assert_eq!(tree.node(node).value, value);
    assert_eq!(1, tree.node(node).size());
}

#[test]
fn tree_get_child_multiple_times() {
    let mut tree = Tree::new();
    let node = tree.new_node(1);
    let child = tree.new_node(2);
    tree.add_child(node, child);

    assert_eq!(true, tree.node(node).get_child(0).is_some());
    assert_eq!(true, tree.node(node).get_child(0).is_some());
}

#[test]
fn tree_delete_child() {
    const EXPECT_VALUE: i32 = 2;
    let mut tree = Tree::new();
    let node = tree.new_node(1);
    let child = tree.new_node(EXPECT_VALUE);
    tree.add_child(node, child);

    assert_eq!(1, tree.node(node).size());

    let actual = tree.delete_child(node, 0);

    assert_eq!(EXPECT_VALUE, tree.node(actual.unwrap()).value);
    assert_eq!(0, tree.node(node).size());
}

#[test]
fn tree_delete_child_index_bigger_then_size() {
    let mut tree = Tree::new();
    let node = tree.new_node(1);
    let child = tree.new_node(2);
    tree.add_child(node, child);

    assert_eq!(1, tree.node(node).size());

    let actual = tree.delete_child(node, 1);
    assert_eq!(true, actual.is_none());
    assert_eq!(1, tree.node(node).size);
}

#[test]
fn tree_iter_with_dfs() {
    let mut tree = Tree::new();
    let node = init_basic_tree(&mut tree);
    let mut actual: Vec<i32> = Vec::new();

    let mut iterator = tree.iter(node, Preorder);
    while let Some(next) = iterator.next() {
        actual.push(tree.node(next).value);
    }

    let expect: &[i32] = &[1, 2, 3, 4, 5, 6, 7, 10, 8, 9];
    assert_eq!(Vec::from(expect), actual);
}

#[test]
fn tree_iter_with_bfs() {
    let mut tree = Tree::new();
    let node = init_basic_tree(&mut tree);
    let mut actual: Vec<i32> = Vec::new();

    let mut iterator = tree.iter(node, Postorder);
    while let Some(next) = iterator.next() {
        actual.push(tree.node(next).value);
    }

    let expect: &[i32] = &[3, 4, 5, 2, 10, 7, 8, 9, 6, 1];
    assert_eq!(Vec::from(expect), actual);
}
