use basic_tree::iterator::IterationType;
use basic_tree::tree::Tree;

fn walk_ids(tree: &Tree, node: usize, order: IterationType) -> Vec<usize> {
    let mut ids: Vec<usize> = Vec::new();
    let mut iterator = tree.iter(node, order);
    while let Some(next) = iterator.next() {
        ids.push(next);
    }
    ids
}

fn preorder_values(tree: &Tree) -> Vec<i32> {
    match tree.root() {
        Some(root) => walk_ids(tree, root, IterationType::Preorder).iter().map(|&i| tree.node(i).value).collect(),
        None => Vec::new(),
    }
}

fn tree_of(values: &[i32]) -> Tree {
    let mut tree = Tree::new();
    for &v in values {
        tree.add(v);
    }
    tree
}

fn check_links(tree: &Tree) {
    let root = tree.root().unwrap();
    for id in walk_ids(tree, root, IterationType::Preorder) {
        let node = tree.node(id);
        assert_eq!(node.size, node.children.len());
        for &c in node.children.iter() {
            assert_eq!(Some(id), tree.node(c).parent);
        }
        if id == root {
            assert_eq!(None, node.parent);
        } else {
            let p = node.parent.unwrap();
            assert!(tree.node(p).children.contains(&id));
        }
    }
}

#[test]
fn adds_reach_exactly_as_many_nodes() {
    let mut tree = Tree::new();
    assert_eq!(None, tree.root());
    for n in 1..=20 {
        tree.add(n * 10);
        let root = tree.root().unwrap();
        assert_eq!(n as usize, walk_ids(&tree, root, IterationType::Preorder).len());
        check_links(&tree);
    }
}

#[test]
fn adds_never_give_a_node_three_children() {
    let tree = tree_of(&(0..31).collect::<Vec<i32>>());
    let root = tree.root().unwrap();
    for id in walk_ids(&tree, root, IterationType::Preorder) {
        assert!(tree.node(id).size() <= 2);
    }
    assert_eq!(2, tree.node(root).size());
}

#[test]
fn add_places_below_the_first_node_with_room() {
    let mut tree = Tree::new();
    let root = tree.new_node(1);
    let a = tree.new_node(2);
    let b = tree.new_node(3);
    tree.add_child(root, a);
    tree.add_child(root, b);
    for v in [4, 5, 6] {
        let n = tree.new_node(v);
        tree.add_child(a, n);
    }
    for v in [7, 8] {
        let n = tree.new_node(v);
        tree.add_child(b, n);
    }
    // Neither the root nor its children have room: the search goes below
    // the first child and stops at its first leaf.
    assert_eq!(Some(tree.node(a).children[0]), tree.find_non_complete_child_node(root));
    let b_kid = tree.node(b).children[0];
    assert_eq!(Some(b_kid), tree.find_non_complete_child_node(b_kid));
}

#[test]
fn walks_visit_each_node_once_in_order() {
    let tree = tree_of(&[1, 2, 3, 4, 5, 6, 7, 8, 9, 10]);
    let root = tree.root().unwrap();
    let pre = walk_ids(&tree, root, IterationType::Preorder);
    let post = walk_ids(&tree, root, IterationType::Postorder);
    let mut a = pre.clone();
    let mut b = post.clone();
    a.sort();
    b.sort();
    a.dedup();
    b.dedup();
    assert_eq!(10, a.len());
    assert_eq!(a, b);
    for (i, &x) in pre.iter().enumerate() {
        for d in walk_ids(&tree, x, IterationType::Preorder).into_iter().skip(1) {
            assert!(pre.iter().position(|&y| y == d).unwrap() > i);
            let px = post.iter().position(|&y| y == x).unwrap();
            assert!(post.iter().position(|&y| y == d).unwrap() < px);
        }
    }
    assert_eq!(vec![1, 2, 4, 8, 9, 5, 10, 3, 6, 7], preorder_values(&tree));
}

#[test]
fn iterator_reports_its_walk() {
    let tree = tree_of(&[1, 2, 3, 4]);
    let root = tree.root().unwrap();
    let mut iterator = tree.iter(root, IterationType::Preorder);
    assert_eq!(4, iterator.len());
    assert_eq!(Some(3), iterator.first().map(|i| tree.node(i).value));
    assert_eq!(Some(3), iterator.position_of(&tree, 3));
    assert_eq!(None, iterator.position_of(&tree, 9));
    assert_eq!(Some(4), iterator.element_at(2).map(|i| tree.node(i).value));
    assert_eq!(None, iterator.element_at(4));
    assert_eq!(Some(1), iterator.next().map(|i| tree.node(i).value));
    assert_eq!(3, iterator.len());
    while iterator.next().is_some() {}
    assert_eq!(None, iterator.next());
    assert_eq!(None, iterator.first());
}

#[test]
fn delete_each_value_removes_one_node() {
    for v in 1..=7 {
        let mut tree = tree_of(&[1, 2, 3, 4, 5, 6, 7]);
        let root = tree.root().unwrap();
        let target = walk_ids(&tree, root, IterationType::Preorder)
            .into_iter()
            .find(|&i| tree.node(i).value == v)
            .unwrap();
        assert!(tree.delete(v));
        let after = walk_ids(&tree, tree.root().unwrap(), IterationType::Preorder);
        assert_eq!(6, after.len());
        assert!(!after.contains(&target));
        assert!(!preorder_values(&tree).contains(&v));
        assert_eq!(None, tree.node(target).parent);
        assert_eq!(0, tree.node(target).size());
        check_links(&tree);
    }
}

#[test]
fn delete_the_root_moves_the_last_node_up() {
    let mut tree = tree_of(&[1, 2, 3, 4, 5]);
    assert!(tree.delete(1));
    assert_eq!(vec![3, 2, 4, 5], preorder_values(&tree));
    assert_eq!(3, tree.node(tree.root().unwrap()).value);
    check_links(&tree);
}

#[test]
fn delete_the_last_node_only_unhooks_it() {
    let mut tree = tree_of(&[1, 2, 3, 4, 5, 6, 7]);
    assert!(tree.delete(7));
    assert_eq!(vec![1, 2, 4, 5, 3, 6], preorder_values(&tree));
    check_links(&tree);
}

#[test]
fn delete_a_parent_of_the_last_node() {
    let mut tree = tree_of(&[1, 2, 3, 4, 5, 6, 7]);
    assert!(tree.delete(3));
    assert_eq!(vec![1, 2, 4, 5, 7, 6], preorder_values(&tree));
    check_links(&tree);
}

#[test]
fn delete_the_only_node_empties_the_tree() {
    let mut tree = tree_of(&[5]);
    assert!(tree.delete(5));
    assert_eq!(None, tree.root());
    assert!(!tree.delete(5));
    tree.add(6);
    assert_eq!(vec![6], preorder_values(&tree));
}

#[test]
fn delete_takes_the_first_match_in_preorder() {
    let mut tree = tree_of(&[1, 2, 2, 3, 2]);
    let root = tree.root().unwrap();
    let first_two = tree.node(root).children[0];
    assert!(tree.delete(2));
    assert_eq!(vec![1, 2, 3, 2], preorder_values(&tree));
    assert_eq!(None, tree.node(first_two).parent);
    check_links(&tree);
}

#[test]
fn delete_absent_value_changes_nothing() {
    let mut tree = tree_of(&[1, 2, 3, 4, 5]);
    let root = tree.root().unwrap();
    let before = walk_ids(&tree, root, IterationType::Preorder);
    let parents: Vec<Option<usize>> = before.iter().map(|&i| tree.node(i).parent).collect();
    assert!(!tree.delete(42));
    assert_eq!(Some(root), tree.root());
    assert_eq!(before, walk_ids(&tree, root, IterationType::Preorder));
    let after: Vec<Option<usize>> = before.iter().map(|&i| tree.node(i).parent).collect();
    assert_eq!(parents, after);
}

#[test]
fn delete_on_empty_tree() {
    let mut tree = Tree::new();
    assert_eq!(false, tree.delete(1));
    assert_eq!(None, tree.root());
}

#[test]
fn single_add_sets_the_root() {
    let mut tree = Tree::new();
    tree.add(1);
    let root = tree.root().unwrap();
    assert_eq!(1, tree.node(root).value);
    assert_eq!(0, tree.node(root).size());
    assert_eq!(None, tree.node(root).parent());
}

#[test]
fn delete_child_by_value_takes_the_first_match() {
    let mut tree = Tree::new();
    let p = tree.new_node(0);
    let mut kids = Vec::new();
    for v in [5, 6, 5] {
        let n = tree.new_node(v);
        tree.add_child(p, n);
        kids.push(n);
    }
    assert_eq!(Some(kids[0]), tree.delete_child_by_value(p, 5));
    assert_eq!(vec![kids[1], kids[2]], tree.node(p).children);
    assert_eq!(2, tree.node(p).size());
    assert_eq!(None, tree.node(kids[0]).parent);
    assert_eq!(None, tree.delete_child_by_value(p, 9));
    assert_eq!(2, tree.node(p).size());
}

#[test]
fn replace_children_swaps_in_place() {
    let mut tree = Tree::new();
    let p = tree.new_node(0);
    let mut kids = Vec::new();
    for v in [1, 2, 3] {
        let n = tree.new_node(v);
        tree.add_child(p, n);
        kids.push(n);
    }
    let probe = tree.new_node(2);
    let fresh = tree.new_node(9);
    tree.replace_children(p, probe, fresh);
    assert_eq!(vec![kids[0], fresh, kids[2]], tree.node(p).children);
    assert_eq!(Some(p), tree.node(fresh).parent);
    assert_eq!(None, tree.node(kids[1]).parent);
    assert_eq!(3, tree.node(p).size());

    let absent = tree.new_node(7);
    let other = tree.new_node(8);
    tree.replace_children(p, absent, other);
    assert_eq!(vec![kids[0], fresh, kids[2]], tree.node(p).children);
    assert_eq!(None, tree.node(other).parent);
}

#[test]
fn get_child_out_of_range() {
    let mut tree = Tree::new();
    let p = tree.new_node(0);
    assert_eq!(None, tree.node(p).get_child(0));
    let c = tree.new_node(1);
    tree.add_child(p, c);
    assert_eq!(Some(c), tree.node(p).get_child(0));
    assert_eq!(None, tree.node(p).get_child(1));
    assert_eq!(2, tree.arena_size());
}
