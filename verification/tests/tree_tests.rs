use redblack::tree::Color;
use redblack::tree::Node;
use redblack::tree::RedBlackTree;

#[test]
pub fn test_create_tree() {
    let tree: RedBlackTree = RedBlackTree::new();
    println!("{:?}", tree);
    assert_eq!(0, tree.len());
}

#[test]
pub fn test_insert() {
    let mut tree: RedBlackTree = RedBlackTree::new();
    tree.insert(1);
    println!("{:?}", tree);
    tree.insert(2);
    println!("{:?}", tree);
    tree.insert(23);
    assert_eq!(3, tree.len());
    println!("{:?}", tree);
    tree.insert(45);
    println!("{:?}", tree);
}

#[test]
pub fn test_into() {
    let mut tree: RedBlackTree = RedBlackTree::new();
    tree.insert(1);
    tree.insert(2);
    tree.insert(23);
    tree.insert(0);
    tree.insert(15);
    tree.insert(100);
    let res: Vec<u64> = tree.into_vec();
    assert_eq!(res, vec![0, 1, 2, 15, 23, 100]);
}

#[test]
pub fn test_contains() {
    let mut tree: RedBlackTree = RedBlackTree::new();
    tree.insert(1);
    tree.insert(2);
    tree.insert(23);
    tree.insert(0);
    tree.insert(15);
    tree.insert(100);
    assert_eq!(true, tree.contains(23));
}

#[test]
fn four_values_in_order() {
    let mut tree = RedBlackTree::new();
    tree.insert(1);
    tree.insert(2);
    tree.insert(23);
    tree.insert(45);
    assert_eq!(4, tree.len());
    assert_eq!(vec![1, 2, 23, 45], tree.into_vec());
}

#[test]
fn six_values_membership() {
    let mut tree = RedBlackTree::new();
    tree.insert(1);
    tree.insert(2);
    tree.insert(23);
    tree.insert(0);
    tree.insert(15);
    tree.insert(100);
    assert!(tree.contains(23));
    assert!(!tree.contains(99));
    assert_eq!(vec![0, 1, 2, 15, 23, 100], tree.into_vec());
}

#[test]
fn duplicate_value_is_replaced() {
    let mut tree = RedBlackTree::new();
    tree.insert(7);
    tree.insert(7);
    assert_eq!(1, tree.len());
    assert_eq!(vec![7], tree.into_vec());
}

#[test]
fn clear_empties_the_tree() {
    let mut tree = RedBlackTree::new();
    tree.insert(3);
    tree.insert(1);
    tree.insert(2);
    tree.clear();
    assert_eq!(0, tree.len());
    let empty: Vec<u64> = Vec::new();
    assert_eq!(empty, tree.into_vec());
}

#[test]
fn membership_matches_insertions() {
    let mut tree = RedBlackTree::new();
    let values: Vec<u64> = vec![10, 4, 88, 2, 56, 31, 77, 3];
    for v in &values {
        tree.insert(*v);
    }
    for v in &values {
        assert!(tree.contains(*v));
    }
    assert!(!tree.contains(0));
    assert!(!tree.contains(11));
    assert!(!tree.contains(1000));
}

#[test]
fn export_sorted_regardless_of_insertion_order() {
    let mut ascending = RedBlackTree::new();
    let mut descending = RedBlackTree::new();
    let mut scrambled = RedBlackTree::new();
    for v in 0..50u64 {
        ascending.insert(v);
        descending.insert(49 - v);
        scrambled.insert((v * 37) % 50);
    }
    let expected: Vec<u64> = (0..50).collect();
    assert_eq!(expected, ascending.into_vec());
    assert_eq!(expected, descending.into_vec());
    assert_eq!(expected, scrambled.into_vec());
}

#[test]
fn insert_all_matches_sequential_inserts() {
    let values: Vec<u64> = vec![9, 1, 8, 2, 7, 3, 9, 1];
    let mut bulk = RedBlackTree::new();
    bulk.insert_all(values.clone());
    let mut sequential = RedBlackTree::new();
    for v in &values {
        sequential.insert(*v);
    }
    assert_eq!(bulk.len(), sequential.len());
    assert_eq!(sequential.into_vec(), bulk.into_vec());
}

#[test]
fn delete_always_reports_failure() {
    let mut tree = RedBlackTree::new();
    tree.insert(5);
    assert!(!tree.delete(5));
    assert!(!tree.delete(6));
    assert!(tree.contains(5));
}

#[test]
fn default_tree_is_empty() {
    let tree: RedBlackTree = Default::default();
    assert_eq!(0, tree.len());
}

#[test]
fn pseudo_random_bulk_load() {
    let mut tree = RedBlackTree::new();
    let mut seen = vec![false; 100000];
    let mut state: u64 = 0x2545F4914F6CDD1D;
    for _ in 0..100000 {
        state = state
            .wrapping_mul(6364136223846793005)
            .wrapping_add(1442695040888963407);
        let v = (state >> 16) % 100000;
        seen[v as usize] = true;
        tree.insert(v);
    }
    let distinct = seen.iter().filter(|b| **b).count();
    assert_eq!(distinct as u64, tree.len());
    let export = tree.into_vec();
    assert_eq!(distinct, export.len());
    for w in export.windows(2) {
        assert!(w[0] < w[1]);
    }
    for v in &export {
        assert!(seen[*v as usize]);
    }
}

#[test]
fn node_constructors_and_colors() {
    let n = Node::new(11);
    assert_eq!(11, n.value);
    assert_eq!(Color::Black, n.color);
    assert!(!n.is_red());
    let mut m = Node::with_color(4, Color::Red);
    assert_eq!(4, m.value);
    assert!(m.is_red());
    m.flip_color();
    assert!(!m.is_red());
    m.flip_color();
    assert!(m.is_red());
}
