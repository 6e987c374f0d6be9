use avl::{Node, TotalOrder, Tree};

fn tree_of(keys: &[i32]) -> Tree<i32> {
    let mut tree: Tree<i32> = Tree::new();
    for &k in keys {
        tree.insert(k);
    }
    tree
}

/// Height of a subtree measured by walking it; -1 when absent.
fn measured_height<T: TotalOrder>(node: &Option<Box<Node<T>>>) -> i32 {
    match node {
        None => -1,
        Some(n) => 1 + measured_height(n.left()).max(measured_height(n.right())),
    }
}

/// Whether every node's subtrees differ in height by at most one.
fn is_balanced<T: TotalOrder>(node: &Option<Box<Node<T>>>) -> bool {
    match node {
        None => true,
        Some(n) => {
            let diff = measured_height(n.left()) - measured_height(n.right());
            diff.abs() <= 1 && is_balanced(n.left()) && is_balanced(n.right())
        }
    }
}

#[test]
fn test_new() {
    let tree: Tree<i32> = Tree::new();
    assert!(tree.is_empty());
}

#[test]
fn test_insert() {
    let mut tree: Tree<i32> = Tree::new();
    tree.insert(1);
    assert!(!tree.is_empty());
}

#[test]
fn test_search() {
    let mut tree: Tree<i32> = Tree::new();
    tree.insert(1);
    tree.insert(2);
    tree.insert(3);

    assert_eq!(tree.search(3), Some(3));
    assert_eq!(tree.search(4), None);
}

#[test]
fn test_insert_multiple() {
    let mut tree: Tree<i32> = Tree::new();
    tree.insert(1);
    tree.insert(2);
    tree.insert(3);
    assert!(!tree.is_empty());
}

#[test]
fn test_in_order() {
    let mut tree: Tree<i32> = Tree::new();
    tree.insert(3);
    tree.insert(1);
    tree.insert(2);
    assert_eq!(vec![1, 2, 3], tree.in_order());
}

#[test]
fn test_post_order() {
    let mut tree: Tree<i32> = Tree::new();
    tree.insert(3);
    tree.insert(1);
    tree.insert(2);
    tree.insert(4);
    assert_eq!(vec![1, 4, 3, 2], tree.post_order());
}

#[test]
fn test_insert_balance_ll() {
    let mut tree: Tree<i32> = Tree::new();
    tree.insert(1);
    tree.insert(2);
    tree.insert(3);

    assert_eq!(vec![2, 1, 3], tree.pre_order());
}

#[test]
fn test_insert_balance_rr() {
    let mut tree: Tree<i32> = Tree::new();
    tree.insert(3);
    tree.insert(2);
    tree.insert(1);

    assert_eq!(vec![2, 1, 3], tree.pre_order());
}

#[test]
fn test_insert_balance_lr() {
    let mut tree: Tree<i32> = Tree::new();
    tree.insert(3);
    tree.insert(1);
    tree.insert(2);

    assert_eq!(vec![2, 1, 3], tree.pre_order());
}

#[test]
fn test_insert_balance_rl() {
    let mut tree: Tree<i32> = Tree::new();
    tree.insert(1);
    tree.insert(3);
    tree.insert(2);

    assert_eq!(vec![2, 1, 3], tree.pre_order());
}

#[test]
fn test_removes() {
    let mut tree: Tree<i32> = Tree::new();
    tree.insert(6);
    tree.insert(3);
    tree.insert(4);
    tree.insert(1);
    tree.insert(2);
    tree.insert(5);

    tree.remove(4);

    assert_eq!(vec![3, 2, 1, 6, 5], tree.pre_order());
}

#[test]
fn empty_tree_traversals_are_empty() {
    let tree: Tree<i32> = Tree::new();
    assert!(tree.in_order().is_empty());
    assert!(tree.pre_order().is_empty());
    assert!(tree.post_order().is_empty());
    assert_eq!(tree.height(), -1);
    assert!(tree.root().is_none());
}

#[test]
fn not_empty_after_inserting_a_duplicate() {
    let mut tree = tree_of(&[7]);
    tree.insert(7);
    assert!(!tree.is_empty());
    assert_eq!(tree.in_order(), vec![7, 7]);
}

#[test]
fn in_order_is_sorted_with_duplicates() {
    let keys = [5, 3, 8, 3, 1, 9, 5, 5, 0, -4, 12, 3];
    let tree = tree_of(&keys);
    let mut expected = keys.to_vec();
    expected.sort();
    assert_eq!(tree.in_order(), expected);
}

#[test]
fn equal_key_below_left_child_takes_single_rotation() {
    let tree = tree_of(&[5, 3, 3]);
    assert_eq!(tree.pre_order(), vec![3, 3, 5]);
    assert_eq!(tree.in_order(), vec![3, 3, 5]);
    assert!(is_balanced(tree.root()));
}

#[test]
fn many_equal_keys_stay_balanced() {
    let tree = tree_of(&[4; 40]);
    assert_eq!(tree.in_order(), vec![4; 40]);
    assert!(is_balanced(tree.root()));
    assert_eq!(tree.height(), measured_height(tree.root()));
}

#[test]
fn ascending_inserts_stay_balanced() {
    let keys: Vec<i32> = (1..=100).collect();
    let tree = tree_of(&keys);
    assert!(is_balanced(tree.root()));
    assert_eq!(tree.height(), measured_height(tree.root()));
    assert_eq!(tree.height(), 6);
    assert_eq!(tree.in_order(), keys);
}

#[test]
fn mixed_inserts_stay_balanced() {
    let mut tree: Tree<i32> = Tree::new();
    let mut k: i32 = 17;
    for _ in 0..300 {
        k = (k * 73 + 41) % 1009;
        tree.insert(k - 500);
        assert!(is_balanced(tree.root()));
        assert_eq!(tree.height(), measured_height(tree.root()));
    }
    let keys = tree.in_order();
    assert_eq!(keys.len(), 300);
    assert!(keys.windows(2).all(|w| w[0] <= w[1]));
}

#[test]
fn height_counts_edges_to_the_deepest_leaf() {
    let mut tree: Tree<i32> = Tree::new();
    tree.insert(10);
    assert_eq!(tree.height(), 0);
    tree.insert(20);
    assert_eq!(tree.height(), 1);
    tree.insert(30);
    assert_eq!(tree.height(), 1);
    tree.insert(40);
    assert_eq!(tree.height(), 2);
}

#[test]
fn search_on_empty_tree_is_none() {
    let tree: Tree<i32> = Tree::new();
    assert_eq!(tree.search(0), None);
}

#[test]
fn search_finds_every_inserted_key_and_nothing_else() {
    let keys = [40, 20, 60, 10, 30, 50, 70, 25, 35];
    let tree = tree_of(&keys);
    for k in 0..80 {
        let expected = if keys.contains(&k) { Some(k) } else { None };
        assert_eq!(tree.search(k), expected);
    }
}

#[test]
fn removing_an_absent_key_changes_nothing() {
    let mut tree = tree_of(&[6, 3, 4, 1, 2, 5]);
    let in_order = tree.in_order();
    let pre_order = tree.pre_order();
    tree.remove(42);
    assert_eq!(tree.in_order(), in_order);
    assert_eq!(tree.pre_order(), pre_order);
}

#[test]
fn removing_from_an_empty_tree_keeps_it_empty() {
    let mut tree: Tree<i32> = Tree::new();
    tree.remove(1);
    assert!(tree.is_empty());
}

#[test]
fn remove_leaf_and_single_child_nodes() {
    let mut tree = tree_of(&[2, 1, 3, 4]);
    assert_eq!(tree.pre_order(), vec![2, 1, 3, 4]);
    tree.remove(3);
    assert_eq!(tree.pre_order(), vec![2, 1, 4]);
    tree.remove(1);
    assert_eq!(tree.pre_order(), vec![2, 4]);
    tree.remove(2);
    assert_eq!(tree.pre_order(), vec![4]);
    tree.remove(4);
    assert!(tree.is_empty());
}

#[test]
fn remove_node_with_two_children_takes_largest_on_left() {
    let mut tree = tree_of(&[4, 2, 6, 1, 3, 5, 7]);
    assert_eq!(tree.pre_order(), vec![4, 2, 1, 3, 6, 5, 7]);
    tree.remove(4);
    assert_eq!(tree.pre_order(), vec![3, 2, 1, 6, 5, 7]);
    assert_eq!(tree.post_order(), vec![1, 2, 5, 7, 6, 3]);
}

#[test]
fn remove_takes_one_of_equal_keys() {
    let mut tree = tree_of(&[5, 5, 5, 2]);
    tree.remove(5);
    assert_eq!(tree.in_order(), vec![2, 5, 5]);
    tree.remove(5);
    assert_eq!(tree.in_order(), vec![2, 5]);
    assert_eq!(tree.search(5), Some(5));
}

#[test]
fn remove_leaves_recorded_heights_as_they_were() {
    let mut tree = tree_of(&[2, 1, 3, 4]);
    assert_eq!(tree.height(), 2);
    tree.remove(4);
    tree.remove(3);
    assert_eq!(tree.in_order(), vec![1, 2]);
    assert_eq!(tree.height(), 2);
    assert_eq!(measured_height(tree.root()), 1);
}

#[test]
fn insert_after_removals_keeps_order() {
    let mut tree = tree_of(&[8, 4, 12, 2, 6, 10, 14, 1, 3]);
    tree.remove(12);
    tree.remove(14);
    tree.remove(10);
    for k in [11, 13, 9, 15, 0] {
        tree.insert(k);
    }
    assert_eq!(tree.in_order(), vec![0, 1, 2, 3, 4, 6, 8, 9, 11, 13, 15]);
}

#[test]
fn extreme_keys() {
    let tree = tree_of(&[i32::MAX, i32::MIN, 0, i32::MAX]);
    assert_eq!(tree.in_order(), vec![i32::MIN, 0, i32::MAX, i32::MAX]);
    assert_eq!(tree.search(i32::MIN), Some(i32::MIN));
}

#[test]
fn unsigned_keys() {
    let mut tree: Tree<u64> = Tree::new();
    for k in [30u64, 10, 20, u64::MAX, 0] {
        tree.insert(k);
    }
    assert_eq!(tree.in_order(), vec![0, 10, 20, 30, u64::MAX]);
    assert_eq!(tree.pre_order(), vec![20, 10, 0, 30, u64::MAX]);
    assert_eq!(tree.search(u64::MAX), Some(u64::MAX));
    assert_eq!(tree.search(11), None);
}

#[test]
fn root_and_children_expose_the_shape() {
    let tree = tree_of(&[1, 2, 3]);
    let root = tree.root().as_ref().unwrap();
    assert_eq!(*root.key(), 2);
    assert_eq!(*root.left().as_ref().unwrap().key(), 1);
    assert_eq!(*root.right().as_ref().unwrap().key(), 3);
    assert!(root.left().as_ref().unwrap().left().is_none());
}
