use binary_tree::{Node, Tree};

fn tree_of(values: &[i32]) -> Tree {
    let mut tree = Tree::new();
    for v in values {
        tree.add(*v);
    }
    tree
}

/// Checks that all below `node` lies in `low..high` and that every node has
/// the smaller values to its left and the others to its right; returns the
/// number of nodes seen.
fn check_order(node: &Node, low: Option<i32>, high: Option<i32>) -> usize {
    let v = node.value();
    if let Some(low) = low {
        assert!(low <= v, "{} stands right of {}", v, low);
    }
    if let Some(high) = high {
        assert!(v < high, "{} stands left of {}", v, high);
    }
    let mut seen = 1;
    if let Some(left) = node.left() {
        seen += check_order(left, low, Some(v));
    }
    if let Some(right) = node.right() {
        seen += check_order(right, Some(v), high);
    }
    seen
}

/// The values below and in `node`, in a walk from left to right.
fn walk(node: &Node, seen: &mut Vec<i32>) {
    if let Some(left) = node.left() {
        walk(left, seen);
    }
    seen.push(node.value());
    if let Some(right) = node.right() {
        walk(right, seen);
    }
}

#[test]
fn walk_from_left_to_right_is_ascending() {
    let values = [50, 20, 80, 20, 50, 10, 30, 70, 90, 60, 65, 64, 66, -3, 0, 80, 80, 1];
    let mut tree = tree_of(&values);
    let mut seen = Vec::new();
    walk(&tree.find(50).unwrap(), &mut seen);
    let mut sorted = values.to_vec();
    sorted.sort();
    assert_eq!(seen, sorted);
    tree.remove(80);
    tree.remove(20);
    tree.remove(64);
    let mut seen = Vec::new();
    walk(&tree.find(50).unwrap(), &mut seen);
    assert_eq!(seen, vec![-3, 0, 1, 10, 20, 30, 50, 50, 60, 65, 66, 70, 80, 80, 90]);
}

#[test]
fn basics() {
    let mut btree = Tree::new();
    println!("{:?}", btree);
    btree.add(5);
    println!("{:?}", btree);
    btree.add(1);
    println!("{:?}", btree);
    btree.add(6);
    println!("{:?}", btree);

    assert_eq!(2 + 2, 4);
}

#[test]
fn depth() {
    let mut btree = Tree::new();
    btree.add(9);
    btree.add(8);
    btree.add(7);
    btree.add(11);
    btree.add(12);
    btree.add(13);
    let btree_depth = btree.depth();

    assert_eq!(btree_depth, 4);
}

#[test]
fn empty_tree_has_nothing() {
    let tree = Tree::new();
    assert!(tree.is_empty());
    assert_eq!(tree.depth(), 0);
    assert_eq!(tree.max(), None);
    assert_eq!(tree.find(0), None);
    assert!(Tree::default().is_empty());
}

#[test]
fn one_value() {
    let tree = tree_of(&[42]);
    assert!(!tree.is_empty());
    assert_eq!(tree.depth(), 1);
    assert_eq!(tree.max(), Some(42));
    let node = tree.find(42).unwrap();
    assert_eq!(node.value(), 42);
    assert!(node.left().is_none());
    assert!(node.right().is_none());
}

#[test]
fn ten_values_max_and_depth() {
    let tree = tree_of(&[5, 3, 2, 4, 7, 8, 9, 6, 1, 100]);
    assert_eq!(tree.max(), Some(100));
    // the longest way down is 5, 7, 8, 9, 100
    assert_eq!(tree.depth(), 5);
    let root = tree.find(5).unwrap();
    assert_eq!(check_order(&root, None, None), 10);
}

#[test]
fn max_does_not_take_minus_one_for_empty() {
    let tree = tree_of(&[-1]);
    assert_eq!(tree.max(), Some(-1));
    let tree = tree_of(&[-7, -1, -9]);
    assert_eq!(tree.max(), Some(-1));
    let tree = tree_of(&[i32::MIN]);
    assert_eq!(tree.max(), Some(i32::MIN));
    let tree = tree_of(&[0, i32::MAX, i32::MIN]);
    assert_eq!(tree.max(), Some(i32::MAX));
}

#[test]
fn inserts_keep_the_search_order() {
    let values = [50, 20, 80, 20, 50, 10, 30, 70, 90, 60, 65, 64, 66, -3, 0, 80, 80, 1];
    let mut tree = Tree::new();
    for (count, v) in values.iter().enumerate() {
        tree.add(*v);
        let root = tree.find(50).unwrap();
        assert_eq!(check_order(&root, None, None), count + 1);
    }
}

#[test]
fn insert_places_leaf_where_search_ends() {
    let tree = tree_of(&[10, 5, 15, 7]);
    let root = tree.find(10).unwrap();
    assert_eq!(root.left().unwrap().value(), 5);
    assert_eq!(root.right().unwrap().value(), 15);
    let five = root.left().unwrap();
    assert!(five.left().is_none());
    assert_eq!(five.right().unwrap().value(), 7);
    assert!(five.right().unwrap().left().is_none());
    assert!(five.right().unwrap().right().is_none());
}

#[test]
fn equal_values_go_right() {
    let tree = tree_of(&[5, 5, 5]);
    assert_eq!(tree.depth(), 3);
    let root = tree.find(5).unwrap();
    assert!(root.left().is_none());
    let second = root.right().unwrap();
    assert_eq!(second.value(), 5);
    assert!(second.left().is_none());
    let third = second.right().unwrap();
    assert_eq!(third.value(), 5);
    assert!(third.left().is_none());
    assert!(third.right().is_none());
}

#[test]
fn remove_takes_one_of_several_equal_values() {
    let mut tree = tree_of(&[5, 5, 5]);
    tree.remove(5);
    assert_eq!(tree.depth(), 2);
    assert!(tree.find(5).is_some());
    tree.remove(5);
    assert_eq!(tree.depth(), 1);
    tree.remove(5);
    assert!(tree.is_empty());
    tree.remove(5);
    assert!(tree.is_empty());
}

#[test]
fn find_gives_first_match_with_all_below_it() {
    let tree = tree_of(&[10, 15, 5, 13, 17]);
    let found = tree.find(15).unwrap();
    assert_eq!(found.value(), 15);
    assert_eq!(found.left().unwrap().value(), 13);
    assert_eq!(found.right().unwrap().value(), 17);
    assert_eq!(tree.find(13).unwrap().value(), 13);
    assert!(tree.find(13).unwrap().left().is_none());
    assert_eq!(tree.find(14), None);
    assert_eq!(tree.find(4), None);
    assert_eq!(tree.find(18), None);
}

#[test]
fn find_is_a_copy() {
    let mut tree = tree_of(&[10, 15, 5]);
    let before = tree.find(10).unwrap();
    tree.add(12);
    tree.remove(5);
    assert_eq!(before.left().unwrap().value(), 5);
    assert!(before.right().unwrap().left().is_none());
    let after = tree.find(10).unwrap();
    assert!(after.left().is_none());
    assert_eq!(after.right().unwrap().left().unwrap().value(), 12);
    assert_ne!(before, after);
    assert_eq!(after.clone(), after);
}

#[test]
fn remove_node_with_two_subtrees() {
    let mut tree = tree_of(&[10, 15, 5, 13, 17]);
    tree.remove(15);
    assert_eq!(tree.find(15), None);
    assert!(tree.find(13).is_some());
    assert!(tree.find(17).is_some());
    let root = tree.find(10).unwrap();
    assert_eq!(check_order(&root, None, None), 4);
    // 17, the smallest value right of 15, has taken its place
    let right = root.right().unwrap();
    assert_eq!(right.value(), 17);
    assert_eq!(right.left().unwrap().value(), 13);
    assert!(right.right().is_none());
    assert_eq!(tree.depth(), 3);
    assert_eq!(tree.max(), Some(17));
}

#[test]
fn remove_takes_successor_from_deep_in_right_subtree() {
    let mut tree = tree_of(&[50, 30, 80, 60, 90, 55, 70, 57]);
    tree.remove(50);
    let root = tree.find(55).unwrap();
    assert_eq!(check_order(&root, None, None), 7);
    assert_eq!(root.left().unwrap().value(), 30);
    let right = root.right().unwrap();
    assert_eq!(right.value(), 80);
    let sixty = right.left().unwrap();
    assert_eq!(sixty.value(), 60);
    // 57, the only subtree of 55, has moved up into its place
    assert_eq!(sixty.left().unwrap().value(), 57);
    assert_eq!(sixty.right().unwrap().value(), 70);
    assert_eq!(tree.find(50), None);
}

#[test]
fn remove_leaf() {
    let mut tree = tree_of(&[10, 5, 15]);
    tree.remove(5);
    let root = tree.find(10).unwrap();
    assert!(root.left().is_none());
    assert_eq!(root.right().unwrap().value(), 15);
    assert_eq!(tree.depth(), 2);
}

#[test]
fn remove_node_with_left_subtree_only() {
    let mut tree = tree_of(&[10, 5, 3, 1]);
    tree.remove(5);
    let root = tree.find(10).unwrap();
    assert_eq!(root.left().unwrap().value(), 3);
    assert_eq!(root.left().unwrap().left().unwrap().value(), 1);
    assert_eq!(tree.depth(), 3);
}

#[test]
fn remove_node_with_right_subtree_only() {
    let mut tree = tree_of(&[10, 5, 7, 8]);
    tree.remove(5);
    let root = tree.find(10).unwrap();
    assert_eq!(root.left().unwrap().value(), 7);
    assert_eq!(root.left().unwrap().right().unwrap().value(), 8);
    assert_eq!(tree.depth(), 3);
}

#[test]
fn remove_root() {
    let mut tree = tree_of(&[10]);
    tree.remove(10);
    assert!(tree.is_empty());
    assert_eq!(tree.depth(), 0);
    assert_eq!(tree.max(), None);

    let mut tree = tree_of(&[10, 5]);
    tree.remove(10);
    assert_eq!(tree.depth(), 1);
    assert_eq!(tree.max(), Some(5));

    let mut tree = tree_of(&[10, 5, 15, 12]);
    tree.remove(10);
    let root = tree.find(12).unwrap();
    assert_eq!(root.left().unwrap().value(), 5);
    assert_eq!(root.right().unwrap().value(), 15);
    assert!(root.right().unwrap().left().is_none());
}

#[test]
fn remove_from_empty_tree_does_nothing() {
    let mut tree = Tree::new();
    tree.remove(3);
    assert!(tree.is_empty());
    assert_eq!(tree.depth(), 0);
}

#[test]
fn remove_absent_value_changes_nothing() {
    let mut tree = tree_of(&[10, 15, 5, 13, 17, 3, 7]);
    let root = tree.find(10).unwrap();
    let depth = tree.depth();
    let max = tree.max();
    let picture = tree.render();
    for absent in [0, 4, 6, 11, 14, 16, 18, -10, i32::MAX, i32::MIN] {
        tree.remove(absent);
        assert_eq!(tree.depth(), depth);
        assert_eq!(tree.max(), max);
        assert_eq!(tree.render(), picture);
        assert_eq!(tree.find(10).unwrap(), root);
    }
}

#[test]
fn insert_then_remove_beyond_the_ends_gives_tree_back() {
    let mut tree = tree_of(&[10, 15, 5, 13, 17, 3, 7]);
    let root = tree.find(10).unwrap();
    let picture = tree.render();
    // greater than the greatest
    tree.add(18);
    assert_ne!(tree.find(10).unwrap(), root);
    tree.remove(18);
    assert_eq!(tree.find(10).unwrap(), root);
    assert_eq!(tree.render(), picture);
    // smaller than the smallest
    tree.add(2);
    assert_ne!(tree.find(10).unwrap(), root);
    tree.remove(2);
    assert_eq!(tree.find(10).unwrap(), root);
    assert_eq!(tree.render(), picture);
    // absent, between
    tree.add(11);
    tree.remove(11);
    assert_eq!(tree.find(10).unwrap(), root);
}

#[test]
fn insert_then_remove_into_empty_tree() {
    let mut tree = Tree::new();
    tree.add(1);
    tree.remove(1);
    assert!(tree.is_empty());
}

#[test]
fn insert_then_remove_of_a_value_held_may_change_the_tree() {
    let mut tree = tree_of(&[5, 7]);
    let root = tree.find(5).unwrap();
    tree.add(5);
    tree.remove(5);
    // the first 5 met has gone, and the right subtree has moved up
    let now = tree.find(7).unwrap();
    assert_eq!(now.left().unwrap().value(), 5);
    assert!(now.right().is_none());
    assert_ne!(tree.find(5).unwrap(), root);
    assert_eq!(tree.depth(), 2);
}

#[test]
fn increasing_values_make_a_chain() {
    for n in [1, 2, 3, 10, 200] {
        let mut tree = Tree::new();
        for v in 0..n {
            tree.add(v * 3 - 50);
        }
        assert_eq!(tree.depth(), n);
    }
}

#[test]
fn decreasing_values_make_a_chain() {
    let mut tree = Tree::new();
    for v in 0..50 {
        tree.add(-v);
    }
    assert_eq!(tree.depth(), 50);
    assert_eq!(tree.max(), Some(0));
}

#[test]
fn full_trees_have_as_many_levels_as_needed() {
    let tree = tree_of(&[2, 1, 3]);
    assert_eq!(tree.depth(), 2);
    let tree = tree_of(&[4, 2, 6, 1, 3, 5, 7]);
    assert_eq!(tree.depth(), 3);
    let tree = tree_of(&[8, 4, 12, 2, 6, 10, 14, 1, 3, 5, 7, 9, 11, 13, 15]);
    assert_eq!(tree.depth(), 4);
    let root = tree.find(8).unwrap();
    assert_eq!(check_order(&root, None, None), 15);
}

#[test]
fn repeated_insert_and_remove_leaves_tree_as_it_was() {
    let mut tree = tree_of(&[10, 15, 5, 13, 17, 3, 7]);
    let root = tree.find(10).unwrap();
    let depth = tree.depth();
    let picture = tree.render();
    for _ in 0..1000 {
        tree.add(14);
        tree.remove(14);
    }
    assert_eq!(tree.depth(), depth);
    assert_eq!(tree.render(), picture);
    assert_eq!(tree.find(10).unwrap(), root);
    for x in [100, -100, 6, 11] {
        for _ in 0..100 {
            tree.add(x);
            assert_eq!(tree.find(x).unwrap().value(), x);
            tree.remove(x);
            assert_eq!(tree.find(x), None);
        }
    }
    assert_eq!(tree.depth(), depth);
    assert_eq!(tree.render(), picture);
    assert_eq!(tree.find(10).unwrap(), root);
}

#[test]
fn removing_everything_empties_the_tree() {
    let values = [50, 20, 80, 20, 50, 10, 30, 70, 90, 60, 65, 64, 66, -3, 0, 80, 80, 1];
    let mut tree = tree_of(&values);
    let mut left = values.len();
    for v in values {
        assert!(tree.find(v).is_some());
        tree.remove(v);
        left -= 1;
        if left > 0 {
            let top = tree.max().unwrap();
            let node = tree.find(top).unwrap();
            assert_eq!(node.value(), top);
        }
    }
    assert!(tree.is_empty());
}
