use basic_tree::iterator::IterationType;
use basic_tree::iterator::IterationType::{Postorder, Preorder};
use basic_tree::node::Node;
use basic_tree::tree::Tree;

fn walk_values(tree: &Tree, node: usize, order: IterationType) -> Vec<i32> {
    let mut actual: Vec<i32> = Vec::new();
    let mut iterator = tree.iter(node, order);
    while let Some(next) = iterator.next() {
        actual.push(tree.node(next).value);
    }
    actual
}

/// tree struct
///      1
///    /   \
///   2     6
/// / |\   /|\
/// 3 4 5 7 8 9
///       |
///      10
fn init_basic_tree(tree: &mut Tree) -> usize {
    let node = tree.new_node(1);

    let c1 = tree.new_node(2);
    let n = tree.new_node(3);
    tree.add_child(c1, n);
    let n = tree.new_node(4);
    tree.add_child(c1, n);
    let n = tree.new_node(5);
    tree.add_child(c1, n);

    tree.add_child(node, c1);

    let c2 = tree.new_node(6);

    let c3 = tree.new_node(7);
    let n = tree.new_node(10);
    tree.add_child(c3, n);

    tree.add_child(c2, c3);

    let n = tree.new_node(8);
    tree.add_child(c2, n);
    let n = tree.new_node(9);
    tree.add_child(c2, n);

    tree.add_child(node, c2);

    node
}

fn complete_tree() -> Tree {
    let mut tree = Tree::new();
    for v in 1..=7 {
        tree.add(v);
    }
    tree
}

#[test]
fn node_create_node() {
    const EXPECT: i32 = 1;
    let node = Node::new(EXPECT);

    assert_eq!(0, node.size());
    assert_eq!(EXPECT, node.value);
    assert_eq!(true, node.parent.is_none());
}

#[test]
fn node_add_child() {
    const PARENT_VALUE: i32 = 1;
    const CHILD_VALUE: i32 = 2;
    let mut tree = Tree::new();
    let node = tree.new_node(PARENT_VALUE);
    let child = tree.new_node(CHILD_VALUE);

    tree.add_child(node, child);

    let child = tree.node(node).get_child(0).unwrap();
    assert_eq!(CHILD_VALUE, tree.node(child).value);

    let value = tree.node(tree.node(child).parent.unwrap()).value;
    assert_eq!(tree.node(node).value, value);
    assert_eq!(1, tree.node(node).size());
}

#[test]
fn node_get_child_multiple_times() {
    let mut tree = Tree::new();
    let node = tree.new_node(1);
    let child = tree.new_node(2);
    tree.add_child(node, child);

    assert_eq!(true, tree.node(node).get_child(0).is_some());
    assert_eq!(true, tree.node(node).get_child(0).is_some());
}

#[test]
fn node_delete_child() {
    const EXPECT_VALUE: i32 = 2;
    let mut tree = Tree::new();
    let node = tree.new_node(1);
    let child = tree.new_node(EXPECT_VALUE);
    tree.add_child(node, child);

    assert_eq!(1, tree.node(node).size());

    let actual = tree.delete_child(node, 0);

    assert_eq!(EXPECT_VALUE, tree.node(actual.unwrap()).value);
    assert_eq!(0, tree.node(node).size());
}

#[test]
fn node_delete_child_index_bigger_then_size() {
    let mut tree = Tree::new();
    let node = tree.new_node(1);
    let child = tree.new_node(2);
    tree.add_child(node, child);

    assert_eq!(1, tree.node(node).size());

    let actual = tree.delete_child(node, 1);
    assert_eq!(true, actual.is_none());
    assert_eq!(1, tree.node(node).size);
}

#[test]
fn node_iter_with_dfs() {
    let mut tree = Tree::new();
    let node = init_basic_tree(&mut tree);

    let actual = walk_values(&tree, node, Preorder);

    let expect: &[i32] = &[1, 2, 3, 4, 5, 6, 7, 10, 8, 9];
    assert_eq!(Vec::from(expect), actual);
}

#[test]
fn node_iter_with_bfs() {
    let mut tree = Tree::new();
    let node = init_basic_tree(&mut tree);

    let actual = walk_values(&tree, node, Postorder);

    let expect: &[i32] = &[3, 4, 5, 2, 10, 7, 8, 9, 6, 1];
    assert_eq!(Vec::from(expect), actual);
}

#[test]
fn add_node_during_iter() {
    let mut tree = Tree::new();
    let node = init_basic_tree(&mut tree);

    let mut iterator = tree.iter(node, Preorder);
    while let Some(next) = iterator.next() {
        if tree.node(next).value == 3 {
            let added = tree.new_node(15);
            tree.add_child(next, added);
        }
    }

    let actual = walk_values(&tree, node, Preorder);

    let expect: &[i32] = &[1, 2, 3, 15, 4, 5, 6, 7, 10, 8, 9];
    assert_eq!(Vec::from(expect), actual);
}

#[test]
fn add_to_tree() {
    let mut tree = Tree::new();

    tree.add(1);

    assert_eq!(true, tree.root().is_some());
    assert_eq!(1, tree.node(tree.root().unwrap()).value);
}

#[test]
fn add_to_tree_with_complete_tree_style() {
    let tree = complete_tree();

    let actual = walk_values(&tree, tree.root().unwrap(), Preorder);

    let expect: &[i32] = &[1, 2, 4, 5, 3, 6, 7];
    assert_eq!(Vec::from(expect), actual);
}

#[test]
fn delete_from_tree_with_complete_tree_style() {
    let mut tree = complete_tree();

    let is_deleted = tree.delete(2);

    assert_eq!(true, is_deleted);

    let actual = walk_values(&tree, tree.root().unwrap(), Preorder);

    let expect: &[i32] = &[1, 7, 4, 5, 3, 6];
    assert_eq!(Vec::from(expect), actual);
}
